//! Properties that hold across the operations of the library: inverting hunks and
//! patches, what locating a hunk guarantees, what a failed hunk leaves behind, and how
//! the reports summarize their entries.
use crate::anonymize::{
    forward_slashes, insert_by_len, long_enough, prepare_rules, push_new, sort_by_len, with_forward_variants, Rule,
};
use crate::apply::apply_hunk;
use crate::files::{error_positions, PatchError};
use crate::finder::{
    anchor_from, eof_threshold, exact_matches, fold_windows, fuzzy_bounded, hint_distance, locate, matches_below, nearest_at,
    occurrences, occurrences_below, range_around, search_ranges, tie_break, trim_ends, window_equal, windows_in, windows_of_len,
    windows_up_to, FuzzyBestView,
};
use crate::outcome::ApplyErrorView;
use crate::hunk::{changes_in, inverted_line, match_block, replace_block, stripped_where, Hunk};
use crate::outcome::{HunkLocation, MatchType};
use crate::patch::{is_inversion, Patch};
use crate::report::{failures_of, none_failed, PatchResult, StatusView};
use crate::normalize::{added_of, cancel, first_index, insert_sorted, lex_le, normalized_text, removed_of, sort_lines};
use crate::parse::{
    same_path,
    block_step, close_block, closed_hunks, fence, first_same_path, fresh_block, is_diff_fence, merge_sections,
    minus_header, new_file, old_file, parse, parser_run, parser_start, plus_header, BlockView, HunkView, ParserView, PatchView,
};
use crate::text::{lines, lines_fold, lines_step, starts_with, starts_with_char, utf8_len};
use vstd::prelude::*;
use vstd::relations::{sorted_by, total_ordering};

verus! {

// ---------------------------------------------------------------------------
// Inversion
// ---------------------------------------------------------------------------

proof fn lemma_inverted_line_twice(l: Seq<char>)
    ensures
        inverted_line(inverted_line(l)) == l,
{
    if starts_with_char(l, '+') {
        assert(inverted_line(l) =~= seq!['-'] + l.drop_first());
        assert((seq!['-'] + l.drop_first()).drop_first() =~= l.drop_first());
        assert(seq!['+'] + l.drop_first() =~= l);
    } else if starts_with_char(l, '-') {
        assert((seq!['+'] + l.drop_first()).drop_first() =~= l.drop_first());
        assert(seq!['-'] + l.drop_first() =~= l);
    }
}

/// Inverting a hunk twice gives the hunk back: the same lines and the same line hints.
pub proof fn law_hunk_inversion_involutive(h: Hunk, inv: Hunk, back: Hunk)
    requires
        is_inversion(h, inv),
        is_inversion(inv, back),
    ensures
        back.text() == h.text(),
        back.old_start_line == h.old_start_line,
        back.new_start_line == h.new_start_line,
{
    assert forall|i: int| 0 <= i < h.text().len() implies #[trigger] back.text()[i] == h.text()[i] by {
        lemma_inverted_line_twice(h.text()[i]);
    }
    assert(back.text() =~= h.text());
}

proof fn lemma_stripped_inverted(ls: Seq<Seq<char>>, a: char, b: char)
    requires
        (a == '+' && b == '-') || (a == '-' && b == '+'),
    ensures
        stripped_where(ls.map_values(|l: Seq<char>| inverted_line(l)), |l: Seq<char>| !starts_with_char(l, a))
            == stripped_where(ls, |l: Seq<char>| !starts_with_char(l, b)),
    decreases ls.len(),
{
    let inv = ls.map_values(|l: Seq<char>| inverted_line(l));
    if ls.len() > 0 {
        assert(inv.drop_last() =~= ls.drop_last().map_values(|l: Seq<char>| inverted_line(l)));
        lemma_stripped_inverted(ls.drop_last(), a, b);
        let l = ls.last();
        assert(inv.last() == inverted_line(l));
        if starts_with_char(l, '+') || starts_with_char(l, '-') {
            assert(inverted_line(l).drop_first() =~= l.drop_first());
        }
    }
}

/// Inverting a hunk swaps what it matches and what it puts in place: the match block of
/// the inverted hunk is the replace block of the hunk and the other way round, and the
/// inverted hunk has changes exactly when the hunk has.
pub proof fn law_inversion_swaps_blocks(h: Hunk, inv: Hunk)
    requires
        is_inversion(h, inv),
    ensures
        match_block(inv.text()) == replace_block(h.text()),
        replace_block(inv.text()) == match_block(h.text()),
        changes_in(inv.text()) == changes_in(h.text()),
{
    lemma_stripped_inverted(h.text(), '+', '-');
    lemma_stripped_inverted(h.text(), '-', '+');
    let ls = h.text();
    let iv = inv.text();
    if changes_in(ls) {
        let i = choose|i: int| 0 <= i < ls.len() && (starts_with_char(#[trigger] ls[i], '+') || starts_with_char(ls[i], '-'));
        assert(starts_with_char(iv[i], '+') || starts_with_char(iv[i], '-'));
    }
    if changes_in(iv) {
        let i = choose|i: int| 0 <= i < iv.len() && (starts_with_char(#[trigger] iv[i], '+') || starts_with_char(iv[i], '-'));
        assert(starts_with_char(ls[i], '+') || starts_with_char(ls[i], '-'));
    }
}

/// Whether `inv` is what `Patch::invert` gives for `p`: the same file, each hunk inverted,
/// and a final newline.
pub open spec fn patch_inverts(p: Patch, inv: Patch) -> bool {
    &&& inv.file_path@ == p.file_path@
    &&& inv.hunks@.len() == p.hunks@.len()
    &&& forall|i: int| 0 <= i < inv.hunks@.len() ==> is_inversion(p.hunks@[i], #[trigger] inv.hunks@[i])
    &&& inv.ends_with_newline
}

/// Inverting a patch twice gives back its file and its hunks (lines and line hints).
pub proof fn law_patch_inversion_involutive(p: Patch, inv: Patch, back: Patch)
    requires
        patch_inverts(p, inv),
        patch_inverts(inv, back),
    ensures
        back.file_path@ == p.file_path@,
        back.hunks@.len() == p.hunks@.len(),
        forall|i: int|
            0 <= i < p.hunks@.len() ==> (#[trigger] back.hunks@[i]).text() == p.hunks@[i].text()
                && back.hunks@[i].old_start_line == p.hunks@[i].old_start_line
                && back.hunks@[i].new_start_line == p.hunks@[i].new_start_line,
{
    assert forall|i: int| 0 <= i < p.hunks@.len() implies (#[trigger] back.hunks@[i]).text() == p.hunks@[i].text()
        && back.hunks@[i].old_start_line == p.hunks@[i].old_start_line
        && back.hunks@[i].new_start_line == p.hunks@[i].new_start_line by {
        law_hunk_inversion_involutive(p.hunks@[i], inv.hunks@[i], back.hunks@[i]);
    }
}

// ---------------------------------------------------------------------------
// Reports
// ---------------------------------------------------------------------------

proof fn lemma_failures_positions(sts: Seq<StatusView>)
    requires
        sts.len() <= usize::MAX,
    ensures
        forall|k: int|
            0 <= k < failures_of(sts).len() ==> 1 <= (#[trigger] failures_of(sts)[k]).0 <= sts.len()
                && sts[failures_of(sts)[k].0 - 1] == StatusView::Failed(failures_of(sts)[k].1),
    decreases sts.len(),
{
    if sts.len() > 0 {
        lemma_failures_positions(sts.drop_last());
        let prev = failures_of(sts.drop_last());
        assert forall|k: int| 0 <= k < failures_of(sts).len() implies 1 <= (#[trigger] failures_of(sts)[k]).0
            <= sts.len() && sts[failures_of(sts)[k].0 - 1] == StatusView::Failed(failures_of(sts)[k].1) by {
            if k < prev.len() {
                assert(failures_of(sts)[k] == prev[k]);
                assert(sts.drop_last()[prev[k].0 - 1] == sts[prev[k].0 - 1]);
            }
        }
    }
}

/// A report applied cleanly exactly when it lists no failure; and each failure it lists
/// names, by its 1-based position, a hunk that failed for that reason.
pub proof fn law_clean_when_no_failures(sts: Seq<StatusView>)
    requires
        sts.len() < usize::MAX,
    ensures
        none_failed(sts) <==> failures_of(sts).len() == 0,
        forall|k: int|
            0 <= k < failures_of(sts).len() ==> 1 <= (#[trigger] failures_of(sts)[k]).0 <= sts.len()
                && sts[failures_of(sts)[k].0 - 1] == StatusView::Failed(failures_of(sts)[k].1),
    decreases sts.len(),
{
    lemma_failures_positions(sts);
    if sts.len() > 0 {
        law_clean_when_no_failures(sts.drop_last());
        if none_failed(sts) {
            assert(none_failed(sts.drop_last())) by {
                assert forall|i: int| 0 <= i < sts.drop_last().len() implies !(#[trigger] sts.drop_last()[i] is Failed) by {
                    assert(sts.drop_last()[i] == sts[i]);
                }
            }
            assert(!(sts[sts.len() - 1] is Failed));
        } else {
            let i = choose|i: int| 0 <= i < sts.len() && #[trigger] sts[i] is Failed;
            if i < sts.len() - 1 {
                assert(sts.drop_last()[i] == sts[i]);
                assert(!none_failed(sts.drop_last()));
                assert(failures_of(sts).len() >= failures_of(sts.drop_last()).len());
            }
        }
    }
}

proof fn lemma_error_positions(rs: Seq<(String, Result<PatchResult, PatchError>)>)
    ensures
        forall|k: int|
            0 <= k < error_positions(rs).len() ==> 0 <= #[trigger] error_positions(rs)[k] < rs.len()
                && rs[error_positions(rs)[k]].1 is Err,
        error_positions(rs).len() == 0 <==> forall|i: int| 0 <= i < rs.len() ==> (#[trigger] rs[i]).1 is Ok,
    decreases rs.len(),
{
    if rs.len() > 0 {
        lemma_error_positions(rs.drop_last());
        let prev = error_positions(rs.drop_last());
        assert forall|k: int| 0 <= k < error_positions(rs).len() implies 0 <= #[trigger] error_positions(rs)[k] < rs.len()
            && rs[error_positions(rs)[k]].1 is Err by {
            if k < prev.len() {
                assert(error_positions(rs)[k] == prev[k]);
                assert(rs.drop_last()[prev[k]] == rs[prev[k]]);
            }
        }
        if forall|i: int| 0 <= i < rs.len() ==> (#[trigger] rs[i]).1 is Ok {
            assert forall|i: int| 0 <= i < rs.drop_last().len() implies (#[trigger] rs.drop_last()[i]).1 is Ok by {
                assert(rs.drop_last()[i] == rs[i]);
            }
            assert(rs[rs.len() - 1].1 is Ok);
        } else {
            let i = choose|i: int| 0 <= i < rs.len() && !((#[trigger] rs[i]).1 is Ok);
            if i < rs.len() - 1 {
                assert(rs.drop_last()[i] == rs[i]);
            }
        }
    }
}

/// A batch succeeded exactly when it has no hard failure, and every hard failure it lists
/// is an entry that ended in an error.
pub proof fn law_batch_succeeded_when_no_hard_failures(rs: Seq<(String, Result<PatchResult, PatchError>)>)
    ensures
        (forall|i: int| 0 <= i < rs.len() ==> (#[trigger] rs[i]).1 is Ok) <==> error_positions(rs).len() == 0,
        forall|k: int|
            0 <= k < error_positions(rs).len() ==> 0 <= #[trigger] error_positions(rs)[k] < rs.len()
                && rs[error_positions(rs)[k]].1 is Err,
{
    lemma_error_positions(rs);
}

// ---------------------------------------------------------------------------
// Locating
// ---------------------------------------------------------------------------

proof fn lemma_matches_below(tl: Seq<Seq<char>>, mb: Seq<Seq<char>>, k: nat)
    requires
        k <= usize::MAX,
    ensures
        forall|j: int| 0 <= j < matches_below(tl, mb, k).len() ==> #[trigger] matches_below(tl, mb, k)[j] < k
            && window_equal(tl, mb, matches_below(tl, mb, k)[j] as int),
    decreases k,
{
    if k > 0 {
        lemma_matches_below(tl, mb, (k - 1) as nat);
        let prev = matches_below(tl, mb, (k - 1) as nat);
        assert forall|j: int| 0 <= j < matches_below(tl, mb, k).len() implies #[trigger] matches_below(tl, mb, k)[j] < k
            && window_equal(tl, mb, matches_below(tl, mb, k)[j] as int) by {
            if j < prev.len() {
                assert(matches_below(tl, mb, k)[j] == prev[j]);
            }
        }
    }
}

proof fn lemma_tie_break_member(starts: Seq<usize>, hint: Option<usize>)
    ensures
        tie_break(starts, hint) matches Ok(Some(i)) ==> exists|k: int| 0 <= k < starts.len() && #[trigger] starts[k] == i,
{
    if starts.len() == 1 {
        assert(starts[0] == starts[0]);
    } else if starts.len() > 1 {
        if let Some(line) = hint {
            if exists|k: int| crate::finder::nearest_at(starts, line, k) {
                let k = choose|k: int| crate::finder::nearest_at(starts, line, k);
                assert(starts[k] == starts[k]);
            }
        }
    }
}

/// An exact match is what it says: the match block occurs, line for line, at the start
/// found, and the location covers exactly its lines.
pub proof fn law_exact_match_is_exact(mb: Seq<Seq<char>>, tl: Seq<Seq<char>>, hint: Option<usize>, fuzz: u32)
    requires
        tl.len() <= usize::MAX,
        locate(mb, tl, hint, fuzz) matches Ok((_, MatchType::Exact)),
    ensures
        locate(mb, tl, hint, fuzz) matches Ok((loc, _)) && loc.length == mb.len()
            && loc.start_index + mb.len() <= tl.len()
            && window_equal(tl, mb, loc.start_index as int),
{
    if mb.len() == 0 {
        assert(tl.subrange(0, 0) =~= mb);
    } else {
        let starts = exact_matches(tl, mb);
        lemma_tie_break_member(starts, hint);
        if mb.len() <= tl.len() {
            lemma_matches_below(tl, mb, (tl.len() - mb.len() + 1) as nat);
        }
    }
}

/// A match that ignores trailing whitespace is one once that whitespace is removed from
/// each line: the trimmed match block occurs in the trimmed target at the start found, and
/// the location covers as many lines as the match block has.
pub proof fn law_whitespace_match_is_exact_when_trimmed(mb: Seq<Seq<char>>, tl: Seq<Seq<char>>, hint: Option<usize>, fuzz: u32)
    requires
        tl.len() <= usize::MAX,
        locate(mb, tl, hint, fuzz) matches Ok((_, MatchType::ExactIgnoringWhitespace)),
    ensures
        locate(mb, tl, hint, fuzz) matches Ok((loc, _)) && loc.length == mb.len()
            && loc.start_index + mb.len() <= tl.len()
            && window_equal(crate::finder::trim_ends(tl), crate::finder::trim_ends(mb), loc.start_index as int),
{
    let tt = crate::finder::trim_ends(tl);
    let mt = crate::finder::trim_ends(mb);
    lemma_tie_break_member(exact_matches(tt, mt), hint);
    if mt.len() <= tt.len() {
        lemma_matches_below(tt, mt, (tt.len() - mt.len() + 1) as nat);
    }
}

proof fn lemma_single_match(tl: Seq<Seq<char>>, mb: Seq<Seq<char>>, i: nat, k: nat)
    requires
        window_equal(tl, mb, i as int),
        forall|j: int| 0 <= j < k && window_equal(tl, mb, j) ==> j == i,
    ensures
        k <= i ==> matches_below(tl, mb, k).len() == 0,
        k > i ==> matches_below(tl, mb, k) == seq![i as usize],
    decreases k,
{
    if k > 0 {
        lemma_single_match(tl, mb, i, (k - 1) as nat);
        if k - 1 == i {
            assert(matches_below(tl, mb, (k - 1) as nat) =~= Seq::<usize>::empty());
            assert(seq![].push(i as usize) =~= seq![i as usize]);
        }
    }
}

/// A match block that occurs, line for line, at exactly one place of the target is
/// located there as an exact match, whatever the line hint and the fuzz factor.
pub proof fn law_unique_occurrence_matches_exactly(mb: Seq<Seq<char>>, tl: Seq<Seq<char>>, i: usize, hint: Option<usize>, fuzz: u32)
    requires
        mb.len() > 0,
        i + mb.len() <= tl.len(),
        window_equal(tl, mb, i as int),
        forall|j: int| 0 <= j && j + mb.len() <= tl.len() && window_equal(tl, mb, j) ==> j == i,
    ensures
        locate(mb, tl, hint, fuzz) == Ok::<(HunkLocation, MatchType), crate::outcome::ApplyErrorView>(
            (HunkLocation { start_index: i, length: mb.len() as usize }, MatchType::Exact),
        ),
{
    lemma_single_match(tl, mb, i as nat, (tl.len() - mb.len() + 1) as nat);
    assert(exact_matches(tl, mb) == seq![i]);
}

proof fn lemma_ratio_bounds(m: nat, t: nat)
    ensures
        0 <= crate::diffing::ratio_of(m, t) <= crate::diffing::ONE,
{
    if !(t == 0 || 2 * m >= t) {
        assert((2 * (1_000_000_000 as int) * (m as int)) / (t as int) <= 1_000_000_000) by (nonlinear_arith)
            requires
                2 * m < t,
                t > 0,
        ;
        assert((2 * (1_000_000_000 as int) * (m as int)) / (t as int) >= 0) by (nonlinear_arith)
            requires
                t > 0,
        ;
    }
}

proof fn lemma_window_similarity_bounds(tt: Seq<Seq<char>>, mt: Seq<Seq<char>>, w: (usize, usize))
    ensures
        0 <= crate::finder::window_similarity(tt, mt, w) <= crate::diffing::ONE,
{
    let win = tt.subrange(w.0 as int, w.0 + w.1);
    let a = crate::finder::line_similarity(win, mt);
    let d = crate::diffing::word_diff(crate::text::join(win, seq!['\n']), crate::text::join(mt, seq!['\n']));
    lemma_ratio_bounds(crate::diffing::matched(crate::diffing::line_diff(win, mt)), win.len() + mt.len());
    lemma_ratio_bounds(crate::diffing::matched(d.0), (d.1 + d.2) as nat);
    let b = crate::finder::word_similarity(crate::text::join(win, seq!['\n']), crate::text::join(mt, seq!['\n']));
    assert(0 <= (6 * a + 4 * b) / 10 <= 1_000_000_000) by (nonlinear_arith)
        requires
            0 <= a <= 1_000_000_000,
            0 <= b <= 1_000_000_000,
    ;
}

proof fn lemma_fold_ratio_bounds(
    tt: Seq<Seq<char>>,
    mt: Seq<Seq<char>>,
    st: crate::finder::FuzzyBestView,
    ws: Seq<(usize, usize)>,
)
    requires
        -(crate::diffing::ONE as int) <= st.1 <= crate::diffing::ONE,
    ensures
        -(crate::diffing::ONE as int) <= crate::finder::fold_windows(tt, mt, st, ws).1 <= crate::diffing::ONE,
    decreases ws.len(),
{
    if ws.len() > 0 {
        lemma_fold_ratio_bounds(tt, mt, st, ws.drop_last());
        lemma_window_similarity_bounds(tt, mt, ws.last());
    }
}

/// A fuzzy match reaches the fuzz factor, unless it is the end-of-file match of a whole
/// target shorter than the match block, which reaches a tenth less (but at least a half).
pub proof fn law_fuzzy_match_reaches_threshold(mb: Seq<Seq<char>>, tl: Seq<Seq<char>>, hint: Option<usize>, fuzz: u32)
    requires
        tl.len() <= usize::MAX,
        locate(mb, tl, hint, fuzz) matches Ok((_, MatchType::Fuzzy { .. })),
    ensures
        locate(mb, tl, hint, fuzz) matches Ok((loc, MatchType::Fuzzy { score })) && fuzz > 0 && (score >= fuzz || (
        score >= eof_threshold(fuzz) && loc.start_index == 0 && loc.length == tl.len() && tl.len() < mb.len())),
{
    let m = mb.len();
    let tt = crate::finder::trim_ends(tl);
    let mt = crate::finder::trim_ends(mb);
    lemma_fold_ratio_bounds(
        tt,
        mt,
        crate::finder::fuzzy_start(),
        crate::finder::windows_in(crate::finder::search_ranges(mt, tt), crate::finder::min_window(m), crate::finder::max_window(m)),
    );
    lemma_ratio_bounds(crate::diffing::matched(crate::diffing::line_diff(tt, mt)), tt.len() + mt.len());
    let fold = crate::finder::fold_windows(
        tt,
        mt,
        crate::finder::fuzzy_start(),
        crate::finder::windows_in(crate::finder::search_ranges(mt, tt), crate::finder::min_window(m), crate::finder::max_window(m)),
    );
    assert(fuzz > 0 ==> (crate::finder::fuzzy_verdict(fold, hint, fuzz) matches Some(Ok((_, MatchType::Fuzzy { score })))
        ==> score >= fuzz));
    assert(crate::finder::eof_or_not_found(tt, mt, fuzz) matches Ok((loc, MatchType::Fuzzy { score }))
        ==> score >= eof_threshold(fuzz) && loc.start_index == 0 && loc.length == tl.len() && tl.len() < mb.len());
}

/// A fuzzy match that falls short reports the fuzz factor it had to reach, and a best
/// similarity below it.
pub proof fn law_below_threshold_reports_threshold(mb: Seq<Seq<char>>, tl: Seq<Seq<char>>, hint: Option<usize>, fuzz: u32)
    requires
        locate(mb, tl, hint, fuzz) matches Err(crate::outcome::ApplyErrorView::FuzzyMatchBelowThreshold { .. }),
    ensures
        locate(mb, tl, hint, fuzz) matches Err(crate::outcome::ApplyErrorView::FuzzyMatchBelowThreshold { best_score, threshold, .. })
            && threshold == fuzz && best_score < fuzz && fuzz > 0,
{
    let m = mb.len();
    let tt = crate::finder::trim_ends(tl);
    let mt = crate::finder::trim_ends(mb);
    lemma_fold_ratio_bounds(
        tt,
        mt,
        crate::finder::fuzzy_start(),
        crate::finder::windows_in(crate::finder::search_ranges(mt, tt), crate::finder::min_window(m), crate::finder::max_window(m)),
    );
}

/// A hunk with no lines to match, as a file creation has, is located only in an empty
/// target, at its start, as an exact match; in any other target its context is not found.
pub proof fn law_empty_match_block_needs_empty_target(tl: Seq<Seq<char>>, hint: Option<usize>, fuzz: u32)
    ensures
        locate(Seq::empty(), tl, hint, fuzz) == (if tl.len() == 0 {
            Ok::<(HunkLocation, MatchType), ApplyErrorView>((HunkLocation { start_index: 0, length: 0 }, MatchType::Exact))
        } else {
            Err::<(HunkLocation, MatchType), ApplyErrorView>(ApplyErrorView::ContextNotFound)
        }),
{
}

proof fn lemma_nearest_unique(starts: Seq<usize>, line: usize, k: int, k2: int)
    requires
        nearest_at(starts, line, k),
        nearest_at(starts, line, k2),
    ensures
        k == k2,
{
    if k != k2 {
        assert(hint_distance(starts[k], line) < hint_distance(starts[k2], line));
        assert(hint_distance(starts[k2], line) < hint_distance(starts[k], line));
    }
}

/// When the match block occurs line for line at two or more places, the search goes no
/// further: the hunk is located at the place strictly nearest the line hint, as an exact
/// match, or, with no hint or no strictly nearest place, it is an ambiguous exact match
/// that lists all of those places.
pub proof fn law_several_exact_matches(mb: Seq<Seq<char>>, tl: Seq<Seq<char>>, hint: Option<usize>, fuzz: u32)
    requires
        mb.len() > 0,
        exact_matches(tl, mb).len() >= 2,
    ensures
        forall|line: usize, k: int|
            hint == Some(line) && #[trigger] nearest_at(exact_matches(tl, mb), line, k) ==> locate(mb, tl, hint, fuzz)
                == Ok::<(HunkLocation, MatchType), ApplyErrorView>(
                (HunkLocation { start_index: exact_matches(tl, mb)[k], length: mb.len() as usize }, MatchType::Exact),
            ),
        !(exists|line: usize, k: int| hint == Some(line) && #[trigger] nearest_at(exact_matches(tl, mb), line, k))
            ==> locate(mb, tl, hint, fuzz) == Err::<(HunkLocation, MatchType), ApplyErrorView>(
            ApplyErrorView::AmbiguousExactMatch(exact_matches(tl, mb)),
        ),
{
    let e = exact_matches(tl, mb);
    assert forall|line: usize, k: int| hint == Some(line) && #[trigger] nearest_at(e, line, k) implies locate(mb, tl, hint, fuzz)
        == Ok::<(HunkLocation, MatchType), ApplyErrorView>(
        (HunkLocation { start_index: e[k], length: mb.len() as usize }, MatchType::Exact),
    ) by {
        let k2 = choose|k2: int| nearest_at(e, line, k2);
        lemma_nearest_unique(e, line, k, k2);
    }
    if let Some(line) = hint {
        if exists|k: int| nearest_at(e, line, k) {
            let k = choose|k: int| nearest_at(e, line, k);
            assert(hint == Some(line) && nearest_at(e, line, k));
        }
    }
}

proof fn lemma_matches_below_complete(tl: Seq<Seq<char>>, mb: Seq<Seq<char>>, k: nat, i: int)
    requires
        0 <= i < k,
        k <= usize::MAX,
        window_equal(tl, mb, i),
    ensures
        exists|idx: int| 0 <= idx < matches_below(tl, mb, k).len() && #[trigger] matches_below(tl, mb, k)[idx] == i,
    decreases k,
{
    let prev = matches_below(tl, mb, (k - 1) as nat);
    if i == k - 1 {
        assert(matches_below(tl, mb, k)[prev.len() as int] == i);
    } else {
        lemma_matches_below_complete(tl, mb, (k - 1) as nat, i);
        let idx = choose|idx: int| 0 <= idx < prev.len() && #[trigger] prev[idx] == i;
        assert(matches_below(tl, mb, k)[idx] == prev[idx]);
    }
}

proof fn lemma_matches_below_increasing(tl: Seq<Seq<char>>, mb: Seq<Seq<char>>, k: nat)
    requires
        k <= usize::MAX,
    ensures
        forall|a: int, b: int|
            0 <= a < b < matches_below(tl, mb, k).len() ==> #[trigger] matches_below(tl, mb, k)[a]
                < #[trigger] matches_below(tl, mb, k)[b],
    decreases k,
{
    if k > 0 {
        lemma_matches_below_increasing(tl, mb, (k - 1) as nat);
        lemma_matches_below(tl, mb, (k - 1) as nat);
        let prev = matches_below(tl, mb, (k - 1) as nat);
        let cur = matches_below(tl, mb, k);
        assert forall|a: int, b: int| 0 <= a < b < cur.len() implies #[trigger] cur[a] < #[trigger] cur[b] by {
            assert(cur[a] == prev[a]);
            if b < prev.len() {
                assert(cur[b] == prev[b]);
            }
        }
    }
}

/// How far a location starting at 0-based `start` is from the 1-based line `line`.
pub open spec fn line_distance(start: int, line: int) -> int {
    if start + 1 >= line {
        start + 1 - line
    } else {
        line - (start + 1)
    }
}

/// When the match block occurs nowhere exactly, but once trailing whitespace is ignored
/// it occurs at one or more places, and one of them is strictly nearer the line hint than
/// any other, the hunk is located there, as a match ignoring whitespace, covering as many
/// lines as the match block: the line hint breaks ties in this stage as in the exact one.
pub proof fn law_whitespace_stage_follows_the_hint(
    mb: Seq<Seq<char>>,
    tl: Seq<Seq<char>>,
    i: int,
    line: usize,
    fuzz: u32,
)
    requires
        tl.len() <= usize::MAX,
        mb.len() > 0,
        forall|j: int| 0 <= j && j + mb.len() <= tl.len() ==> !#[trigger] window_equal(tl, mb, j),
        0 <= i,
        i + mb.len() <= tl.len(),
        window_equal(trim_ends(tl), trim_ends(mb), i),
        forall|j: int|
            0 <= j && j + mb.len() <= tl.len() && j != i && #[trigger] window_equal(trim_ends(tl), trim_ends(mb), j)
                ==> line_distance(i, line as int) < line_distance(j, line as int),
    ensures
        locate(mb, tl, Some(line), fuzz) == Ok::<(HunkLocation, MatchType), ApplyErrorView>(
            (HunkLocation { start_index: i as usize, length: mb.len() as usize }, MatchType::ExactIgnoringWhitespace),
        ),
{
    let m = mb.len();
    let n = tl.len();
    let tt = trim_ends(tl);
    let mt = trim_ends(mb);
    let k = (n - m + 1) as nat;
    lemma_matches_below(tl, mb, k);
    if exact_matches(tl, mb).len() > 0 {
        assert(window_equal(tl, mb, exact_matches(tl, mb)[0] as int));
    }
    assert(exact_matches(tl, mb).len() == 0);
    let e = exact_matches(tt, mt);
    assert(e == matches_below(tt, mt, k));
    lemma_matches_below(tt, mt, k);
    lemma_matches_below_increasing(tt, mt, k);
    lemma_matches_below_complete(tt, mt, k, i);
    let idx = choose|idx: int| 0 <= idx < e.len() && #[trigger] e[idx] == i;
    assert(nearest_at(e, line, idx)) by {
        assert forall|j: int| 0 <= j < e.len() && j != idx implies hint_distance(e[idx], line) < hint_distance(
            #[trigger] e[j],
            line,
        ) by {
            assert(window_equal(tt, mt, e[j] as int));
            if j < idx {
                assert(e[j] < e[idx]);
            } else {
                assert(e[idx] < e[j]);
            }
        }
    }
    if e.len() >= 2 {
        let k2 = choose|k2: int| nearest_at(e, line, k2);
        lemma_nearest_unique(e, line, idx, k2);
    }
}

proof fn lemma_trimmed_window(tl: Seq<Seq<char>>, mb: Seq<Seq<char>>, i: int)
    requires
        0 <= i,
        i + mb.len() <= tl.len(),
        window_equal(tl, mb, i),
    ensures
        window_equal(trim_ends(tl), trim_ends(mb), i),
{
    assert forall|j: int| 0 <= j < mb.len() implies #[trigger] trim_ends(tl).subrange(i, i + mb.len())[j] == trim_ends(mb)[j] by {
        assert(tl.subrange(i, i + mb.len())[j] == mb[j]);
    }
    assert(trim_ends(tl).subrange(i, i + mb.len()) =~= trim_ends(mb));
}

/// A fuzz factor of zero turns fuzzy matching off: no location is then a fuzzy match, no
/// fuzzy ambiguity or shortfall is reported, and a match block that occurs nowhere in the
/// target, not even once trailing whitespace is ignored, is not found.
pub proof fn law_zero_fuzz_disables_fuzzy(mb: Seq<Seq<char>>, tl: Seq<Seq<char>>, hint: Option<usize>)
    requires
        tl.len() <= usize::MAX,
    ensures
        !(locate(mb, tl, hint, 0) matches Ok((_, MatchType::Fuzzy { .. }))),
        !(locate(mb, tl, hint, 0) matches Err(ApplyErrorView::AmbiguousFuzzyMatch(_))),
        !(locate(mb, tl, hint, 0) matches Err(ApplyErrorView::FuzzyMatchBelowThreshold { .. })),
        mb.len() > 0 && (forall|i: int|
            0 <= i && i + mb.len() <= tl.len() ==> !#[trigger] window_equal(trim_ends(tl), trim_ends(mb), i))
            ==> locate(mb, tl, hint, 0) == Err::<(HunkLocation, MatchType), ApplyErrorView>(ApplyErrorView::ContextNotFound),
{
    if mb.len() > 0 && (forall|i: int|
        0 <= i && i + mb.len() <= tl.len() ==> !#[trigger] window_equal(trim_ends(tl), trim_ends(mb), i)) {
        let tt = trim_ends(tl);
        let mt = trim_ends(mb);
        if mb.len() <= tl.len() {
            let k = (tl.len() - mb.len() + 1) as nat;
            lemma_matches_below(tl, mb, k);
            lemma_matches_below(tt, mt, k);
            if exact_matches(tl, mb).len() > 0 {
                let i = exact_matches(tl, mb)[0] as int;
                lemma_trimmed_window(tl, mb, i);
            }
            if exact_matches(tt, mt).len() > 0 {
                let i = exact_matches(tt, mt)[0] as int;
                assert(window_equal(tt, mt, i));
            }
        }
    }
}

/// The windows in `ws` each lie within `n` lines and hold at least one line.
spec fn windows_bounded(ws: Seq<(usize, usize)>, n: nat) -> bool {
    forall|i: int| 0 <= i < ws.len() ==> #[trigger] ws[i].0 + ws[i].1 <= n && ws[i].1 >= 1
}

proof fn lemma_windows_up_to_bounded(rs: nat, avail: nat, lo: nat, hi: nat, n: nat)
    requires
        rs + avail <= n,
        n <= usize::MAX,
        lo >= 1,
    ensures
        windows_bounded(windows_up_to(rs, avail, lo, hi), n),
    decreases hi,
{
    if !(hi < lo || hi == 0) {
        lemma_windows_up_to_bounded(rs, avail, lo, (hi - 1) as nat, n);
        let a = windows_up_to(rs, avail, lo, (hi - 1) as nat);
        let b = windows_of_len(rs, avail, hi);
        assert forall|i: int| 0 <= i < b.len() implies #[trigger] b[i].0 + b[i].1 <= n && b[i].1 >= 1 by {
            assert(b[i] == ((rs + i) as usize, hi as usize));
        }
        assert forall|i: int| 0 <= i < (a + b).len() implies #[trigger] (a + b)[i].0 + (a + b)[i].1 <= n && (a + b)[i].1 >= 1 by {
            if i < a.len() {
                assert((a + b)[i] == a[i]);
            } else {
                assert((a + b)[i] == b[i - a.len()]);
            }
        }
    }
}

proof fn lemma_windows_in_bounded(ranges: Seq<(usize, usize)>, lo: nat, hi: nat, n: nat)
    requires
        crate::finder::ranges_within(ranges, n),
        n <= usize::MAX,
        lo >= 1,
    ensures
        windows_bounded(windows_in(ranges, lo, hi), n),
    decreases ranges.len(),
{
    if ranges.len() > 0 {
        let r = ranges.last();
        assert(r == ranges[ranges.len() - 1]);
        assert(crate::finder::ranges_within(ranges.drop_last(), n)) by {
            assert forall|i: int| 0 <= i < ranges.drop_last().len() implies #[trigger] ranges.drop_last()[i].0
                <= ranges.drop_last()[i].1 && ranges.drop_last()[i].1 <= n by {
                assert(ranges.drop_last()[i] == ranges[i]);
            }
        }
        lemma_windows_in_bounded(ranges.drop_last(), lo, hi, n);
        lemma_windows_up_to_bounded(r.0 as nat, (r.1 - r.0) as nat, lo, hi, n);
        let a = windows_in(ranges.drop_last(), lo, hi);
        let b = windows_up_to(r.0 as nat, (r.1 - r.0) as nat, lo, hi);
        assert forall|i: int| 0 <= i < (a + b).len() implies #[trigger] (a + b)[i].0 + (a + b)[i].1 <= n && (a + b)[i].1 >= 1 by {
            if i < a.len() {
                assert((a + b)[i] == a[i]);
            } else {
                assert((a + b)[i] == b[i - a.len()]);
            }
        }
    }
}

proof fn lemma_occurrences_below_bounded(tt: Seq<Seq<char>>, a: Seq<char>, k: nat)
    requires
        k <= usize::MAX,
    ensures
        forall|j: int| 0 <= j < occurrences_below(tt, a, k).len() ==> #[trigger] occurrences_below(tt, a, k)[j] < k,
    decreases k,
{
    if k > 0 {
        lemma_occurrences_below_bounded(tt, a, (k - 1) as nat);
        let prev = occurrences_below(tt, a, (k - 1) as nat);
        assert forall|j: int| 0 <= j < occurrences_below(tt, a, k).len() implies #[trigger] occurrences_below(tt, a, k)[j] < k by {
            if j < prev.len() {
                assert(occurrences_below(tt, a, k)[j] == prev[j]);
            }
        }
    }
}

proof fn lemma_search_ranges_within(mt: Seq<Seq<char>>, tt: Seq<Seq<char>>)
    requires
        tt.len() <= usize::MAX,
    ensures
        crate::finder::ranges_within(search_ranges(mt, tt), tt.len()),
{
    let n = tt.len();
    if mt.len() > 0 {
        if let Some(c) = anchor_from(mt, tt, 0) {
            let occ = occurrences(tt, mt[c as int]);
            lemma_occurrences_below_bounded(tt, mt[c as int], n);
            let rs = occ.map_values(|o: usize| range_around(o, c, mt.len(), n));
            assert forall|i: int| 0 <= i < rs.len() implies #[trigger] rs[i].0 <= rs[i].1 && rs[i].1 <= n by {
                assert(rs[i] == range_around(occ[i], c, mt.len(), n));
                assert(occ[i] < n);
            }
            crate::finder::lemma_merge_within(rs, n);
        }
    }
}

proof fn lemma_fold_bounded(tt: Seq<Seq<char>>, mt: Seq<Seq<char>>, st: FuzzyBestView, ws: Seq<(usize, usize)>, n: nat)
    requires
        fuzzy_bounded(st, n),
        windows_bounded(ws, n),
    ensures
        fuzzy_bounded(fold_windows(tt, mt, st, ws), n),
    decreases ws.len(),
{
    if ws.len() > 0 {
        let w = ws.last();
        assert(w == ws[ws.len() - 1]);
        assert(windows_bounded(ws.drop_last(), n)) by {
            assert forall|i: int| 0 <= i < ws.drop_last().len() implies #[trigger] ws.drop_last()[i].0 + ws.drop_last()[i].1
                <= n && ws.drop_last()[i].1 >= 1 by {
                assert(ws.drop_last()[i] == ws[i]);
            }
        }
        lemma_fold_bounded(tt, mt, st, ws.drop_last(), n);
        lemma_window_similarity_bounds(tt, mt, w);
        let sim = crate::finder::window_similarity(tt, mt, w);
        let wl = w.1 as nat;
        let len = mt.len();
        let diff: int = if wl >= len { wl - len } else { len - wl };
        let mx: int = if wl >= len { wl as int } else { len as int };
        assert(0 <= (200_000_000 * diff) / mx <= 200_000_000) by (nonlinear_arith)
            requires
                0 <= diff <= mx,
                mx >= 1,
        ;
        assert(crate::finder::size_penalty(wl, len) == (200_000_000 * diff) / mx);
        crate::finder::lemma_consider_bounded(
            fold_windows(tt, mt, st, ws.drop_last()),
            w,
            crate::finder::window_score(tt, mt, w),
            sim,
            mt.len(),
            n,
        );
    }
}

/// Every location the search reports lies within the target: an exact match, with or
/// without trailing whitespace, covers as many lines as the match block, a fuzzy match
/// covers at least one line, and the best location of a fuzzy shortfall lies within the
/// target too.
pub proof fn law_located_within_target(mb: Seq<Seq<char>>, tl: Seq<Seq<char>>, hint: Option<usize>, fuzz: u32)
    requires
        tl.len() <= usize::MAX,
    ensures
        locate(mb, tl, hint, fuzz) matches Ok((loc, _)) ==> loc.start_index + loc.length <= tl.len(),
        locate(mb, tl, hint, fuzz) matches Ok((loc, MatchType::Exact)) ==> loc.length == mb.len(),
        locate(mb, tl, hint, fuzz) matches Ok((loc, MatchType::ExactIgnoringWhitespace)) ==> loc.length == mb.len(),
        locate(mb, tl, hint, fuzz) matches Ok((loc, MatchType::Fuzzy { .. })) ==> loc.length >= 1,
        locate(mb, tl, hint, fuzz) matches Err(ApplyErrorView::FuzzyMatchBelowThreshold { location, .. })
            ==> location.start_index + location.length <= tl.len(),
{
    let r = locate(mb, tl, hint, fuzz);
    if r matches Ok((_, MatchType::Exact)) {
        law_exact_match_is_exact(mb, tl, hint, fuzz);
    } else if r matches Ok((_, MatchType::ExactIgnoringWhitespace)) {
        law_whitespace_match_is_exact_when_trimmed(mb, tl, hint, fuzz);
    } else if mb.len() > 0 {
        let m = mb.len();
        let n = tl.len();
        let tt = trim_ends(tl);
        let mt = trim_ends(mb);
        lemma_search_ranges_within(mt, tt);
        let ws = windows_in(search_ranges(mt, tt), crate::finder::min_window(m), crate::finder::max_window(m));
        lemma_windows_in_bounded(search_ranges(mt, tt), crate::finder::min_window(m), crate::finder::max_window(m), n);
        lemma_fold_bounded(tt, mt, crate::finder::fuzzy_start(), ws, n);
        let fold = fold_windows(tt, mt, crate::finder::fuzzy_start(), ws);
        if fold.2.len() > 0 {
            assert(fold.2[0].0 + fold.2[0].1 <= n && fold.2[0].1 >= 1);
        }
        if let Some(line) = hint {
            let starts = fold.2.map_values(|w: (usize, usize)| w.0);
            if exists|k: int| nearest_at(starts, line, k) {
                let k = choose|k: int| nearest_at(starts, line, k);
                assert(fold.2[k].0 + fold.2[k].1 <= n && fold.2[k].1 >= 1);
            }
        }
    }
}

/// The block after reading the lines `ls` one by one, starting from `b`.
pub open spec fn block_steps(b: BlockView, ls: Seq<Seq<char>>) -> BlockView
    decreases ls.len(),
{
    if ls.len() == 0 {
        b
    } else {
        block_step(block_steps(b, ls.drop_last()), ls.last())
    }
}

/// The `+++` line names the file only when the `---` line before it named none (it was
/// `/dev/null`, a file creation); after a `---` line that names a file, that file stays
/// whatever path the `+++` line gives.
pub proof fn law_plus_line_names_the_file_only_after_dev_null(b: BlockView, minus: Seq<char>, plus: Seq<char>)
    requires
        starts_with(minus, minus_header()),
        starts_with(plus, plus_header()),
    ensures
        block_step(block_step(b, minus), plus).file == (match old_file(minus.skip(4)) {
            Some(f) => Some(f),
            None => Some(new_file(plus.skip(4))),
        }),
{
    assert(plus.take(4)[0] == '+');
    assert(!starts_with(plus, minus_header()));
}

/// A section whose `---` line names a file is a section of that file to its end: no line
/// up to the next `---` line (the `+++` line among them) changes the file.
pub proof fn law_section_keeps_the_file_of_its_minus_line(b: BlockView, minus: Seq<char>, ls: Seq<Seq<char>>)
    requires
        starts_with(minus, minus_header()),
        old_file(minus.skip(4)) is Some,
        forall|i: int| 0 <= i < ls.len() ==> !starts_with(#[trigger] ls[i], minus_header()),
    ensures
        block_steps(block_step(b, minus), ls).file == old_file(minus.skip(4)),
    decreases ls.len(),
{
    if ls.len() > 0 {
        assert forall|i: int| 0 <= i < ls.drop_last().len() implies !starts_with(#[trigger] ls.drop_last()[i], minus_header()) by {
            assert(ls.drop_last()[i] == ls[i]);
        }
        law_section_keeps_the_file_of_its_minus_line(b, minus, ls.drop_last());
        assert(!starts_with(ls[ls.len() - 1], minus_header()));
    }
}

// ---------------------------------------------------------------------------
// Splitting text into lines
// ---------------------------------------------------------------------------

proof fn lemma_fold_without_newline(x: Seq<char>)
    requires
        forall|i: int| 0 <= i < x.len() ==> x[i] != '\n',
    ensures
        lines_fold(x) == (Seq::<Seq<char>>::empty(), x),
    decreases x.len(),
{
    if x.len() > 0 {
        lemma_fold_without_newline(x.drop_last());
        assert(x.drop_last().push(x.last()) =~= x);
    }
}

proof fn lemma_fold_after_line(a: Seq<char>, y: Seq<char>)
    requires
        lines_fold(a).1.len() == 0,
    ensures
        lines_fold(a + y) == (lines_fold(a).0 + lines_fold(y).0, lines_fold(y).1),
    decreases y.len(),
{
    if y.len() == 0 {
        assert(a + y =~= a);
        assert(lines_fold(a).0 + Seq::<Seq<char>>::empty() =~= lines_fold(a).0);
        assert(lines_fold(a).1 =~= Seq::<char>::empty());
    } else {
        lemma_fold_after_line(a, y.drop_last());
        assert((a + y).drop_last() =~= a + y.drop_last());
        assert((a + y).last() == y.last());
        let p = lines_fold(a).0;
        let yp = lines_fold(y.drop_last());
        let c = y.last();
        if c == '\n' {
            let line = if yp.1.len() > 0 && yp.1.last() == '\r' { yp.1.drop_last() } else { yp.1 };
            assert((p + yp.0).push(line) =~= p + yp.0.push(line));
        }
    }
}

proof fn lemma_lines_after_line(a: Seq<char>, y: Seq<char>, x: Seq<char>)
    requires
        lines_fold(a) == (seq![x], Seq::<char>::empty()),
    ensures
        lines(a + y) == seq![x] + lines(y),
{
    lemma_fold_after_line(a, y);
    let f = lines_fold(y);
    if f.1.len() > 0 {
        assert((seq![x] + f.0).push(f.1) =~= seq![x] + f.0.push(f.1));
    }
}

/// A line ended by `\r\n` is the text before the `\r`: splitting `x`, a line break
/// written as `\r\n`, and the rest `y` gives `x` and then the lines of `y`.
pub proof fn law_crlf_ends_a_line_before_the_cr(x: Seq<char>, y: Seq<char>)
    requires
        forall|i: int| 0 <= i < x.len() ==> x[i] != '\n',
    ensures
        lines(x + seq!['\r', '\n'] + y) == seq![x] + lines(y),
{
    let a = x + seq!['\r', '\n'];
    lemma_fold_without_newline(x);
    assert(a.drop_last() =~= x.push('\r'));
    assert(x.push('\r').drop_last() =~= x);
    assert(lines_fold(x.push('\r')) == lines_step(lines_fold(x), '\r'));
    assert(lines_fold(x.push('\r')).1 =~= x.push('\r'));
    assert(x.push('\r').drop_last() =~= x);
    assert(lines_fold(a) == lines_step(lines_fold(x.push('\r')), '\n'));
    assert(lines_fold(a).0 =~= seq![x]);
    assert(lines_fold(a).1 =~= Seq::<char>::empty());
    lemma_lines_after_line(a, y, x);
    assert(x + seq!['\r', '\n'] + y =~= a + y);
}

/// A line ended by `\n` alone is the text before it: splitting `x` (which does not end
/// with `\r`), a `\n`, and the rest `y` gives `x` and then the lines of `y`; so `\r\n`
/// and `\n` end lines alike.
pub proof fn law_lf_ends_a_line(x: Seq<char>, y: Seq<char>)
    requires
        forall|i: int| 0 <= i < x.len() ==> x[i] != '\n',
        x.len() == 0 || x.last() != '\r',
    ensures
        lines(x + seq!['\n'] + y) == seq![x] + lines(y),
{
    let a = x + seq!['\n'];
    lemma_fold_without_newline(x);
    assert(a.drop_last() =~= x);
    assert(lines_fold(a) == lines_step(lines_fold(x), '\n'));
    assert(lines_fold(a).0 =~= seq![x]);
    lemma_lines_after_line(a, y, x);
    assert(x + seq!['\n'] + y =~= a + y);
}

// ---------------------------------------------------------------------------
// Applying
// ---------------------------------------------------------------------------

/// A hunk that is skipped or fails leaves the lines as they were.
pub proof fn law_unapplied_hunk_changes_nothing(h: Hunk, target: Seq<Seq<char>>, fuzz: u32)
    ensures
        !(apply_hunk(h, target, fuzz).0 is Applied) ==> apply_hunk(h, target, fuzz).1 == target,
{
}

/// Applying a hunk and then its inversion gives the lines back, when the hunk was applied
/// as an exact match and what it put in place occurs nowhere else in the result.
pub proof fn law_inversion_undoes_exact_application(h: Hunk, inv: Hunk, target: Seq<Seq<char>>, fuzz: u32, fuzz2: u32)
    requires
        is_inversion(h, inv),
        target.len() <= usize::MAX,
        h.lines@.len() <= usize::MAX,
        apply_hunk(h, target, fuzz).0 matches StatusView::Applied { match_type: MatchType::Exact, .. },
        replace_block(h.text()).len() > 0,
        ({
            let after = apply_hunk(h, target, fuzz).1;
            let rb = replace_block(h.text());
            forall|j: int|
                0 <= j && j + rb.len() <= after.len() && window_equal(after, rb, j) ==> j
                    == (apply_hunk(h, target, fuzz).0)->Applied_location.start_index
        }),
    ensures
        apply_hunk(inv, apply_hunk(h, target, fuzz).1, fuzz2).1 == target,
{
    law_inversion_swaps_blocks(h, inv);
    let mb = match_block(h.text());
    let rb = replace_block(h.text());
    let loc = (apply_hunk(h, target, fuzz).0)->Applied_location;
    let s = loc.start_index as int;
    let after = apply_hunk(h, target, fuzz).1;
    law_exact_match_is_exact(mb, target, h.old_start_line, fuzz);
    assert(loc.length == mb.len());
    assert(after == target.subrange(0, s) + rb + target.subrange(s + mb.len(), target.len() as int));
    assert(after.subrange(s, s + rb.len()) =~= rb);
    assert(window_equal(after, rb, s));
    assert(s + rb.len() <= after.len());
    law_unique_occurrence_matches_exactly(rb, after, loc.start_index, inv.old_start_line, fuzz2);
    assert(match_block(inv.text()) == rb);
    assert(replace_block(inv.text()) == mb);
    assert(changes_in(h.text()));
    assert(changes_in(inv.text()));
    crate::hunk::lemma_stripped_where_len(h.text(), |l: Seq<char>| !starts_with_char(l, '-'));
    let back = apply_hunk(inv, after, fuzz2).1;
    assert(back == after.subrange(0, s) + mb + after.subrange(s + rb.len(), after.len() as int));
    assert(after.subrange(0, s) =~= target.subrange(0, s));
    assert(after.subrange(s + rb.len(), after.len() as int) =~= target.subrange(s + mb.len(), target.len() as int));
    assert(target.subrange(s, s + mb.len()) == mb);
    assert(back =~= target);
}

// ---------------------------------------------------------------------------
// Parsing
// ---------------------------------------------------------------------------

/// Whether a line is a hunk line: it starts with `+`, `-` or a space.
pub open spec fn hunk_line(l: Seq<char>) -> bool {
    starts_with_char(l, '+') || starts_with_char(l, '-') || starts_with_char(l, ' ')
}

/// Whether every hunk has at least one line and every line of every hunk is a hunk line.
pub open spec fn hunks_read(hs: Seq<HunkView>) -> bool {
    &&& forall|i: int| 0 <= i < hs.len() ==> (#[trigger] hs[i]).0.len() >= 1
    &&& forall|i: int, k: int| 0 <= i < hs.len() && 0 <= k < hs[i].0.len() ==> hunk_line(#[trigger] hs[i].0[k])
}

/// Whether every patch has at least one hunk and its hunks are as `hunks_read` says.
pub open spec fn patches_read(ps: Seq<PatchView>) -> bool {
    &&& forall|i: int| 0 <= i < ps.len() ==> (#[trigger] ps[i]).1.len() >= 1
    &&& forall|i: int| 0 <= i < ps.len() ==> hunks_read((#[trigger] ps[i]).1)
}

pub open spec fn block_read(b: BlockView) -> bool {
    &&& patches_read(b.sections)
    &&& hunks_read(b.hunks)
    &&& forall|k: int| 0 <= k < b.cur.len() ==> hunk_line(#[trigger] b.cur[k])
}

pub open spec fn parser_read(st: ParserView) -> bool {
    &&& patches_read(st.patches)
    &&& (st.block matches Some(b) ==> block_read(b))
}

proof fn lemma_closed_hunks(b: BlockView)
    requires
        block_read(b),
    ensures
        hunks_read(closed_hunks(b)),
{
    let hs = closed_hunks(b);
    assert forall|i: int, k: int| 0 <= i < hs.len() && 0 <= k < hs[i].0.len() implies hunk_line(#[trigger] hs[i].0[k]) by {
        if i < b.hunks.len() {
            assert(hs[i] == b.hunks[i]);
        }
    }
}

proof fn lemma_push_patch(ps: Seq<PatchView>, p: PatchView)
    requires
        patches_read(ps),
        hunks_read(p.1),
        p.1.len() >= 1,
    ensures
        patches_read(ps.push(p)),
{
    assert forall|i: int| 0 <= i < ps.push(p).len() implies hunks_read((#[trigger] ps.push(p)[i]).1) && ps.push(p)[i].1.len()
        >= 1 by {
        if i < ps.len() {
            assert(ps.push(p)[i] == ps[i]);
        }
    }
}

proof fn lemma_block_step(b: BlockView, l: Seq<char>)
    requires
        block_read(b),
    ensures
        block_read(block_step(b, l)),
{
    lemma_closed_hunks(b);
    let nb = block_step(b, l);
    if starts_with(l, minus_header()) {
        if let Some(f) = b.file {
            if closed_hunks(b).len() > 0 {
                lemma_push_patch(b.sections, (f, closed_hunks(b), b.ends_nl));
            }
        }
    } else if starts_with(l, plus_header()) {
    } else if starts_with(l, seq!['@', '@']) {
    } else if starts_with_char(l, '+') || starts_with_char(l, '-') || starts_with_char(l, ' ') {
        assert forall|k: int| 0 <= k < nb.cur.len() implies hunk_line(#[trigger] nb.cur[k]) by {
            if k < b.cur.len() {
                assert(nb.cur[k] == b.cur[k]);
            }
        }
    }
}

proof fn lemma_first_same_path_index(ps: Seq<PatchView>, path: Seq<char>)
    ensures
        first_same_path(ps, path) matches Some(i) ==> 0 <= i < ps.len(),
    decreases ps.len(),
{
    if ps.len() > 0 {
        lemma_first_same_path_index(ps.drop_first(), path);
    }
}

proof fn lemma_merge_sections(secs: Seq<PatchView>)
    requires
        patches_read(secs),
    ensures
        patches_read(merge_sections(secs)),
    decreases secs.len(),
{
    if secs.len() > 0 {
        assert(patches_read(secs.drop_last())) by {
            assert forall|i: int| 0 <= i < secs.drop_last().len() implies hunks_read((#[trigger] secs.drop_last()[i]).1) by {
                assert(secs.drop_last()[i] == secs[i]);
            }
        }
        lemma_merge_sections(secs.drop_last());
        let merged = merge_sections(secs.drop_last());
        let sec = secs.last();
        assert(hunks_read(sec.1)) by {
            assert(secs[secs.len() - 1] == sec);
        }
        lemma_first_same_path_index(merged, sec.0);
        match first_same_path(merged, sec.0) {
            Some(i) => {
                let joined = merged[i].1 + sec.1;
                assert(hunks_read(merged[i].1));
                assert forall|a: int, k: int| 0 <= a < joined.len() && 0 <= k < joined[a].0.len() implies hunk_line(
                    #[trigger] joined[a].0[k],
                ) by {
                    if a < merged[i].1.len() {
                        assert(joined[a] == merged[i].1[a]);
                    } else {
                        assert(joined[a] == sec.1[a - merged[i].1.len()]);
                    }
                }
                let up = merged.update(i, (merged[i].0, joined, sec.2));
                assert forall|j: int| 0 <= j < up.len() implies hunks_read((#[trigger] up[j]).1) by {
                    if j != i {
                        assert(up[j] == merged[j]);
                    }
                }
            },
            None => {
                lemma_push_patch(merged, sec);
            },
        }
    }
}

proof fn lemma_close_block(b: BlockView)
    requires
        block_read(b),
    ensures
        close_block(b) matches Ok(ps) ==> patches_read(ps),
{
    lemma_closed_hunks(b);
    let hs = closed_hunks(b);
    match b.file {
        Some(f) => {
            if hs.len() > 0 {
                lemma_push_patch(b.sections, (f, hs, b.ends_nl));
                lemma_merge_sections(b.sections.push((f, hs, b.ends_nl)));
            } else {
                lemma_merge_sections(b.sections);
            }
        },
        None => {
            lemma_merge_sections(b.sections);
        },
    }
}

proof fn lemma_concat_patches(a: Seq<PatchView>, b: Seq<PatchView>)
    requires
        patches_read(a),
        patches_read(b),
    ensures
        patches_read(a + b),
{
    assert forall|i: int| 0 <= i < (a + b).len() implies hunks_read((#[trigger] (a + b)[i]).1) by {
        if i < a.len() {
            assert((a + b)[i] == a[i]);
        } else {
            assert((a + b)[i] == b[i - a.len()]);
        }
    }
}

proof fn lemma_parser_run(ls: Seq<Seq<char>>)
    ensures
        parser_read(parser_run(ls)),
    decreases ls.len(),
{
    if ls.len() == 0 {
        assert(patches_read(parser_start().patches));
    } else {
        lemma_parser_run(ls.drop_last());
        let st = parser_run(ls.drop_last());
        let l = ls.last();
        if st.error is None {
            match st.block {
                None => {
                    if is_diff_fence(l) {
                        let b = fresh_block((ls.len() - 1 + 1) as usize);
                        assert(block_read(b));
                    }
                },
                Some(b) => {
                    if l == fence() {
                        lemma_close_block(b);
                        if let Ok(ps) = close_block(b) {
                            lemma_concat_patches(st.patches, ps);
                        }
                    } else {
                        lemma_block_step(b, l);
                    }
                },
            }
        }
    }
}

/// Every patch that the parser reads has at least one hunk, every hunk at least one line,
/// and every line starts with `+`, `-` or a space, so every parsed hunk can have its
/// prefixes cut off.
pub proof fn law_parsed_hunk_lines(content: Seq<char>)
    ensures
        parse(content) matches Ok(ps) ==> patches_read(ps),
{
    let st = parser_run(lines(content));
    lemma_parser_run(lines(content));
    if st.error is None {
        if let Some(b) = st.block {
            lemma_close_block(b);
            if let Ok(ps) = close_block(b) {
                lemma_concat_patches(st.patches, ps);
            }
        }
    }
}

proof fn lemma_first_same_path_none(ps: Seq<PatchView>, path: Seq<char>)
    ensures
        first_same_path(ps, path) is None ==> forall|q: int| 0 <= q < ps.len() ==> !same_path(#[trigger] ps[q].0, path),
    decreases ps.len(),
{
    if ps.len() > 0 {
        lemma_first_same_path_none(ps.drop_first(), path);
        if first_same_path(ps, path) is None {
            assert forall|q: int| 0 <= q < ps.len() implies !same_path(#[trigger] ps[q].0, path) by {
                if q > 0 {
                    assert(ps.drop_first()[q - 1] == ps[q]);
                }
            }
        }
    }
}

/// Whether no two patches name the same file.
pub open spec fn distinct_paths(ps: Seq<PatchView>) -> bool {
    forall|i: int, j: int| 0 <= i < j < ps.len() ==> !same_path((#[trigger] ps[i]).0, (#[trigger] ps[j]).0)
}

proof fn lemma_merge_sections_distinct(secs: Seq<PatchView>)
    ensures
        distinct_paths(merge_sections(secs)),
    decreases secs.len(),
{
    if secs.len() > 0 {
        lemma_merge_sections_distinct(secs.drop_last());
        let merged = merge_sections(secs.drop_last());
        let sec = secs.last();
        lemma_first_same_path_index(merged, sec.0);
        lemma_first_same_path_none(merged, sec.0);
        match first_same_path(merged, sec.0) {
            Some(k) => {
                let up = merged.update(k, (merged[k].0, merged[k].1 + sec.1, sec.2));
                assert forall|i: int, j: int| 0 <= i < j < up.len() implies !same_path((#[trigger] up[i]).0, (#[trigger] up[j]).0) by {
                    assert(up[i].0 == merged[i].0);
                    assert(up[j].0 == merged[j].0);
                }
            },
            None => {
                let p = merged.push(sec);
                assert forall|i: int, j: int| 0 <= i < j < p.len() implies !same_path((#[trigger] p[i]).0, (#[trigger] p[j]).0) by {
                    assert(p[i] == merged[i]);
                    if j < merged.len() {
                        assert(p[j] == merged[j]);
                    }
                }
            },
        }
    }
}

/// The patches read from one diff block name pairwise different files: sections for the
/// same file are merged into one patch.
pub proof fn law_block_patches_have_distinct_paths(b: BlockView)
    ensures
        close_block(b) matches Ok(ps) ==> distinct_paths(ps),
{
    let hs = closed_hunks(b);
    match b.file {
        Some(f) => {
            if hs.len() > 0 {
                lemma_merge_sections_distinct(b.sections.push((f, hs, b.ends_nl)));
            } else {
                lemma_merge_sections_distinct(b.sections);
            }
        },
        None => {
            lemma_merge_sections_distinct(b.sections);
        },
    }
}

/// Patches whose hunks hold only hunk lines have well-formed hunks.
pub proof fn lemma_hunk_lines_well_formed(ps: Seq<Patch>)
    requires
        patches_read(crate::parse::patch_views(ps)),
    ensures
        forall|i: int, j: int|
            0 <= i < ps.len() && 0 <= j < ps[i].hunks@.len() ==> (#[trigger] ps[i].hunks@[j]).well_formed()
                && ps[i].hunks@[j].lines@.len() >= 1,
        forall|i: int| 0 <= i < ps.len() ==> (#[trigger] ps[i]).hunks@.len() >= 1,
{
    assert forall|i: int| 0 <= i < ps.len() implies (#[trigger] ps[i]).hunks@.len() >= 1 by {
        assert(crate::parse::patch_views(ps)[i].1.len() >= 1);
    }
    assert forall|i: int, j: int| 0 <= i < ps.len() && 0 <= j < ps[i].hunks@.len() implies (
    #[trigger] ps[i].hunks@[j]).well_formed() && ps[i].hunks@[j].lines@.len() >= 1 by {
        let pv = crate::parse::patch_views(ps)[i];
        assert(pv.1[j].0.len() >= 1);
        assert(pv.1[j].0 == ps[i].hunks@[j].text());
        assert forall|k: int| 0 <= k < ps[i].hunks@[j].lines@.len() implies crate::hunk::sliceable(
            #[trigger] ps[i].hunks@[j].lines@[k]@,
        ) by {
            assert(ps[i].hunks@[j].text()[k] == ps[i].hunks@[j].lines@[k]@);
            assert(hunk_line(pv.1[j].0[k]));
        }
    }
}

// ---------------------------------------------------------------------------
// Anonymizing
// ---------------------------------------------------------------------------

/// Whether every rule's search text takes more than three bytes.
pub open spec fn all_long(rs: Seq<Rule>) -> bool {
    forall|i: int| 0 <= i < rs.len() ==> utf8_len((#[trigger] rs[i]).0) > 3
}

/// Whether the rules are ordered by the byte length of their search text, longest first.
pub open spec fn longest_first(rs: Seq<Rule>) -> bool {
    forall|i: int, j: int| 0 <= i < j < rs.len() ==> utf8_len((#[trigger] rs[i]).0) >= utf8_len((#[trigger] rs[j]).0)
}

proof fn lemma_long_enough(rs: Seq<Rule>)
    ensures
        all_long(long_enough(rs)),
    decreases rs.len(),
{
    if rs.len() > 0 {
        lemma_long_enough(rs.drop_last());
        let prev = long_enough(rs.drop_last());
        if utf8_len(rs.last().0) > 3 {
            assert forall|i: int| 0 <= i < prev.push(rs.last()).len() implies utf8_len((#[trigger] prev.push(rs.last())[i]).0) > 3 by {
                if i < prev.len() {
                    assert(prev.push(rs.last())[i] == prev[i]);
                }
            }
        }
    }
}

proof fn lemma_insert_by_len(sorted: Seq<Rule>, x: Rule)
    ensures
        insert_by_len(sorted, x).len() == sorted.len() + 1,
        forall|i: int|
            0 <= i < insert_by_len(sorted, x).len() ==> #[trigger] insert_by_len(sorted, x)[i] == x || sorted.contains(
                insert_by_len(sorted, x)[i],
            ),
        longest_first(sorted) ==> longest_first(insert_by_len(sorted, x)),
        sorted.no_duplicates() && !sorted.contains(x) ==> insert_by_len(sorted, x).no_duplicates(),
    decreases sorted.len(),
{
    let r = insert_by_len(sorted, x);
    if sorted.len() == 0 {
    } else if utf8_len(sorted[0].0) < utf8_len(x.0) {
        assert forall|i: int| 0 <= i < r.len() implies #[trigger] r[i] == x || sorted.contains(r[i]) by {
            if i > 0 {
                assert(r[i] == sorted[i - 1]);
            }
        }
        if longest_first(sorted) {
            assert forall|i: int, j: int| 0 <= i < j < r.len() implies utf8_len((#[trigger] r[i]).0) >= utf8_len((#[trigger] r[j]).0) by {
                assert(r[j] == sorted[j - 1]);
                if i > 0 {
                    assert(r[i] == sorted[i - 1]);
                } else {
                    assert(utf8_len(sorted[0].0) >= utf8_len(sorted[j - 1].0) || j - 1 == 0);
                }
            }
        }
        if sorted.no_duplicates() && !sorted.contains(x) {
            assert forall|i: int, j: int| 0 <= i < r.len() && 0 <= j < r.len() && i != j implies r[i] != r[j] by {
                if i > 0 {
                    assert(r[i] == sorted[i - 1]);
                }
                if j > 0 {
                    assert(r[j] == sorted[j - 1]);
                }
            }
        }
    } else {
        let rest = sorted.drop_first();
        lemma_insert_by_len(rest, x);
        let t = insert_by_len(rest, x);
        assert(r == seq![sorted[0]] + t);
        assert forall|i: int| 0 <= i < r.len() implies #[trigger] r[i] == x || sorted.contains(r[i]) by {
            if i == 0 {
                assert(sorted[0] == sorted[0]);
            } else {
                assert(r[i] == t[i - 1]);
                if t[i - 1] != x {
                    let k = choose|k: int| 0 <= k < rest.len() && rest[k] == t[i - 1];
                    assert(sorted[k + 1] == rest[k]);
                }
            }
        }
        if longest_first(sorted) {
            assert(longest_first(rest)) by {
                assert forall|i: int, j: int| 0 <= i < j < rest.len() implies utf8_len((#[trigger] rest[i]).0) >= utf8_len((#[trigger] rest[j]).0) by {
                    assert(rest[i] == sorted[i + 1]);
                    assert(rest[j] == sorted[j + 1]);
                }
            }
            assert forall|i: int, j: int| 0 <= i < j < r.len() implies utf8_len((#[trigger] r[i]).0) >= utf8_len((#[trigger] r[j]).0) by {
                assert(r[j] == t[j - 1]);
                if i > 0 {
                    assert(r[i] == t[i - 1]);
                } else if t[j - 1] != x {
                    let k = choose|k: int| 0 <= k < rest.len() && rest[k] == t[j - 1];
                    assert(sorted[k + 1] == rest[k]);
                }
            }
        }
        if sorted.no_duplicates() && !sorted.contains(x) {
            assert(rest.no_duplicates()) by {
                assert forall|i: int, j: int| 0 <= i < rest.len() && 0 <= j < rest.len() && i != j implies rest[i] != rest[j] by {
                    assert(rest[i] == sorted[i + 1]);
                    assert(rest[j] == sorted[j + 1]);
                }
            }
            assert(!rest.contains(x)) by {
                if rest.contains(x) {
                    let k = choose|k: int| 0 <= k < rest.len() && rest[k] == x;
                    assert(sorted[k + 1] == x);
                }
            }
            assert forall|i: int, j: int| 0 <= i < r.len() && 0 <= j < r.len() && i != j implies r[i] != r[j] by {
                if i > 0 && j > 0 {
                    assert(r[i] == t[i - 1]);
                    assert(r[j] == t[j - 1]);
                } else if i == 0 {
                    assert(r[j] == t[j - 1]);
                    if t[j - 1] != x {
                        let k = choose|k: int| 0 <= k < rest.len() && rest[k] == t[j - 1];
                        assert(sorted[k + 1] == rest[k]);
                    } else {
                        assert(sorted[0] != x);
                    }
                } else {
                    assert(r[i] == t[i - 1]);
                    if t[i - 1] != x {
                        let k = choose|k: int| 0 <= k < rest.len() && rest[k] == t[i - 1];
                        assert(sorted[k + 1] == rest[k]);
                    } else {
                        assert(sorted[0] != x);
                    }
                }
            }
        }
    }
}

proof fn lemma_sort_by_len(rs: Seq<Rule>)
    ensures
        sort_by_len(rs).len() == rs.len(),
        forall|i: int| 0 <= i < sort_by_len(rs).len() ==> rs.contains(#[trigger] sort_by_len(rs)[i]),
        longest_first(sort_by_len(rs)),
        rs.no_duplicates() ==> sort_by_len(rs).no_duplicates(),
    decreases rs.len(),
{
    if rs.len() > 0 {
        let init = rs.drop_last();
        let x = rs.last();
        lemma_sort_by_len(init);
        let s0 = sort_by_len(init);
        lemma_insert_by_len(s0, x);
        let r = sort_by_len(rs);
        assert forall|i: int| 0 <= i < r.len() implies rs.contains(#[trigger] r[i]) by {
            if r[i] == x {
                assert(rs[rs.len() - 1] == x);
            } else {
                let k = choose|k: int| 0 <= k < s0.len() && s0[k] == r[i];
                let m = choose|m: int| 0 <= m < init.len() && init[m] == s0[k];
                assert(rs[m] == init[m]);
            }
        }
        if rs.no_duplicates() {
            assert(init.no_duplicates()) by {
                assert forall|i: int, j: int| 0 <= i < init.len() && 0 <= j < init.len() && i != j implies init[i] != init[j] by {
                    assert(init[i] == rs[i]);
                    assert(init[j] == rs[j]);
                }
            }
            assert(!s0.contains(x)) by {
                if s0.contains(x) {
                    let k = choose|k: int| 0 <= k < s0.len() && s0[k] == x;
                    let m = choose|m: int| 0 <= m < init.len() && init[m] == s0[k];
                    assert(rs[m] == x);
                    assert(rs[rs.len() - 1] == x);
                }
            }
        }
    }
}

proof fn lemma_forward_slashes_len(s: Seq<char>)
    ensures
        utf8_len(forward_slashes(s)) == utf8_len(s),
    decreases s.len(),
{
    if s.len() > 0 {
        assert(forward_slashes(s).drop_last() =~= forward_slashes(s.drop_last()));
        lemma_forward_slashes_len(s.drop_last());
    }
}

proof fn lemma_push_new(ps: Seq<Rule>, r: Rule)
    requires
        ps.no_duplicates(),
    ensures
        push_new(ps, r).no_duplicates(),
        forall|i: int| 0 <= i < push_new(ps, r).len() ==> #[trigger] push_new(ps, r)[i] == r || ps.contains(push_new(ps, r)[i]),
{
    let q = push_new(ps, r);
    assert forall|i: int| 0 <= i < q.len() implies #[trigger] q[i] == r || ps.contains(q[i]) by {
        if i < ps.len() {
            assert(q[i] == ps[i]);
        }
    }
    if !ps.contains(r) {
        assert forall|i: int, j: int| 0 <= i < q.len() && 0 <= j < q.len() && i != j implies q[i] != q[j] by {
            if i < ps.len() {
                assert(q[i] == ps[i]);
            }
            if j < ps.len() {
                assert(q[j] == ps[j]);
            }
        }
    }
}

proof fn lemma_with_forward_variants(rs: Seq<Rule>)
    requires
        all_long(rs),
    ensures
        all_long(with_forward_variants(rs)),
        with_forward_variants(rs).no_duplicates(),
    decreases rs.len(),
{
    if rs.len() > 0 {
        let init = rs.drop_last();
        let x = rs.last();
        assert(all_long(init)) by {
            assert forall|i: int| 0 <= i < init.len() implies utf8_len((#[trigger] init[i]).0) > 3 by {
                assert(init[i] == rs[i]);
            }
        }
        assert(utf8_len(x.0) > 3) by {
            assert(rs[rs.len() - 1] == x);
        }
        lemma_with_forward_variants(init);
        let ps = with_forward_variants(init);
        lemma_push_new(ps, x);
        let p1 = push_new(ps, x);
        assert(all_long(p1)) by {
            assert forall|i: int| 0 <= i < p1.len() implies utf8_len((#[trigger] p1[i]).0) > 3 by {
                if p1[i] != x {
                    let k = choose|k: int| 0 <= k < ps.len() && ps[k] == p1[i];
                }
            }
        }
        let f = forward_slashes(x.0);
        if f != x.0 {
            lemma_push_new(p1, (f, x.1));
            lemma_forward_slashes_len(x.0);
            let p2 = push_new(p1, (f, x.1));
            assert forall|i: int| 0 <= i < p2.len() implies utf8_len((#[trigger] p2[i]).0) > 3 by {
                if p2[i] != (f, x.1) {
                    let k = choose|k: int| 0 <= k < p1.len() && p1[k] == p2[i];
                }
            }
        }
    }
}

/// The rules of an anonymizer only search for texts of more than three bytes, come
/// longest first (so that the most specific paths are replaced first), and hold no
/// rule twice.
pub proof fn law_anonymizer_rules(candidates: Seq<Rule>)
    ensures
        all_long(prepare_rules(candidates)),
        longest_first(prepare_rules(candidates)),
        prepare_rules(candidates).no_duplicates(),
{
    let a = long_enough(candidates);
    lemma_long_enough(candidates);
    let b = sort_by_len(a);
    lemma_sort_by_len(a);
    assert(all_long(b)) by {
        assert forall|i: int| 0 <= i < b.len() implies utf8_len((#[trigger] b[i]).0) > 3 by {
            let k = choose|k: int| 0 <= k < a.len() && a[k] == b[i];
        }
    }
    let c = with_forward_variants(b);
    lemma_with_forward_variants(b);
    let d = sort_by_len(c);
    lemma_sort_by_len(c);
    assert forall|i: int| 0 <= i < d.len() implies utf8_len((#[trigger] d[i]).0) > 3 by {
        let k = choose|k: int| 0 <= k < c.len() && c[k] == d[i];
    }
}

proof fn lemma_long_enough_keeps(rs: Seq<Rule>)
    ensures
        forall|i: int| 0 <= i < rs.len() && utf8_len(rs[i].0) > 3 ==> long_enough(rs).contains(#[trigger] rs[i]),
    decreases rs.len(),
{
    if rs.len() > 0 {
        let init = rs.drop_last();
        lemma_long_enough_keeps(init);
        let prev = long_enough(init);
        assert forall|i: int| 0 <= i < rs.len() && utf8_len(rs[i].0) > 3 implies long_enough(rs).contains(#[trigger] rs[i]) by {
            if i < rs.len() - 1 {
                assert(init[i] == rs[i]);
                assert(prev.contains(init[i]));
                let k = choose|k: int| 0 <= k < prev.len() && prev[k] == rs[i];
                if utf8_len(rs.last().0) > 3 {
                    assert(prev.push(rs.last())[k] == rs[i]);
                }
            } else {
                assert(prev.push(rs.last())[prev.len() as int] == rs.last());
            }
        }
    }
}

proof fn lemma_insert_by_len_keeps(sorted: Seq<Rule>, x: Rule)
    ensures
        insert_by_len(sorted, x).contains(x),
        forall|y: Rule| sorted.contains(y) ==> #[trigger] insert_by_len(sorted, x).contains(y),
    decreases sorted.len(),
{
    let r = insert_by_len(sorted, x);
    if sorted.len() == 0 {
        assert(r[0] == x);
    } else if utf8_len(sorted[0].0) < utf8_len(x.0) {
        assert(r[0] == x);
        assert forall|y: Rule| sorted.contains(y) implies #[trigger] r.contains(y) by {
            let k = choose|k: int| 0 <= k < sorted.len() && sorted[k] == y;
            assert(r[k + 1] == y);
        }
    } else {
        let rest = sorted.drop_first();
        lemma_insert_by_len_keeps(rest, x);
        let t = insert_by_len(rest, x);
        assert(r == seq![sorted[0]] + t);
        let kx = choose|k: int| 0 <= k < t.len() && t[k] == x;
        assert(r[kx + 1] == x);
        assert forall|y: Rule| sorted.contains(y) implies #[trigger] r.contains(y) by {
            let k = choose|k: int| 0 <= k < sorted.len() && sorted[k] == y;
            if k == 0 {
                assert(r[0] == y);
            } else {
                assert(rest[k - 1] == y);
                assert(rest.contains(y));
                assert(t.contains(y));
                let q = choose|q: int| 0 <= q < t.len() && t[q] == y;
                assert(r[q + 1] == y);
            }
        }
    }
}

proof fn lemma_sort_by_len_keeps(rs: Seq<Rule>)
    ensures
        forall|y: Rule| rs.contains(y) ==> #[trigger] sort_by_len(rs).contains(y),
    decreases rs.len(),
{
    if rs.len() > 0 {
        let init = rs.drop_last();
        lemma_sort_by_len_keeps(init);
        lemma_insert_by_len_keeps(sort_by_len(init), rs.last());
        assert forall|y: Rule| rs.contains(y) implies #[trigger] sort_by_len(rs).contains(y) by {
            let q = choose|q: int| 0 <= q < rs.len() && rs[q] == y;
            if q < rs.len() - 1 {
                assert(init[q] == y);
                assert(init.contains(y));
                assert(sort_by_len(init).contains(y));
            }
        }
    }
}

proof fn lemma_push_new_keeps(ps: Seq<Rule>, r: Rule)
    ensures
        push_new(ps, r).contains(r),
        forall|y: Rule| ps.contains(y) ==> #[trigger] push_new(ps, r).contains(y),
{
    let q = push_new(ps, r);
    if !ps.contains(r) {
        assert(q[ps.len() as int] == r);
    }
    assert forall|y: Rule| ps.contains(y) implies #[trigger] q.contains(y) by {
        let k = choose|k: int| 0 <= k < ps.len() && ps[k] == y;
        assert(q[k] == y);
    }
}

proof fn lemma_with_forward_variants_keeps(rs: Seq<Rule>)
    ensures
        forall|i: int|
            0 <= i < rs.len() ==> with_forward_variants(rs).contains(#[trigger] rs[i]) && with_forward_variants(rs).contains(
                (forward_slashes(rs[i].0), rs[i].1),
            ),
    decreases rs.len(),
{
    if rs.len() > 0 {
        let init = rs.drop_last();
        let x = rs.last();
        lemma_with_forward_variants_keeps(init);
        let ps = with_forward_variants(init);
        lemma_push_new_keeps(ps, x);
        let p1 = push_new(ps, x);
        let f = forward_slashes(x.0);
        lemma_push_new_keeps(p1, (f, x.1));
        let w = with_forward_variants(rs);
        assert(w.contains(x));
        assert(w.contains((f, x.1))) by {
            if f == x.0 {
                assert((f, x.1) == x);
            }
        }
        assert forall|y: Rule| p1.contains(y) implies #[trigger] w.contains(y) by {
            if f != x.0 {
                assert(push_new(p1, (f, x.1)).contains(y));
            }
        }
        assert forall|i: int| 0 <= i < rs.len() implies w.contains(#[trigger] rs[i]) && w.contains(
            (forward_slashes(rs[i].0), rs[i].1),
        ) by {
            if i < rs.len() - 1 {
                assert(init[i] == rs[i]);
                assert(ps.contains(init[i]));
                assert(p1.contains(init[i]));
                assert(ps.contains((forward_slashes(init[i].0), init[i].1)));
                assert(p1.contains((forward_slashes(init[i].0), init[i].1)));
            } else {
                assert(rs[i] == x);
            }
        }
    }
}

/// Every candidate whose path takes more than three bytes becomes a rule of the
/// anonymizer, and so does its variant with forward slashes in place of backslashes.
pub proof fn law_anonymizer_keeps_forward_variants(candidates: Seq<Rule>)
    ensures
        forall|i: int|
            0 <= i < candidates.len() && utf8_len(candidates[i].0) > 3 ==> prepare_rules(candidates).contains(
                #[trigger] candidates[i],
            ) && prepare_rules(candidates).contains((forward_slashes(candidates[i].0), candidates[i].1)),
{
    let a = long_enough(candidates);
    lemma_long_enough_keeps(candidates);
    let b = sort_by_len(a);
    lemma_sort_by_len_keeps(a);
    let c = with_forward_variants(b);
    lemma_with_forward_variants_keeps(b);
    lemma_sort_by_len_keeps(c);
    assert forall|i: int| 0 <= i < candidates.len() && utf8_len(candidates[i].0) > 3 implies prepare_rules(candidates).contains(
        #[trigger] candidates[i],
    ) && prepare_rules(candidates).contains((forward_slashes(candidates[i].0), candidates[i].1)) by {
        let y = candidates[i];
        assert(a.contains(y));
        assert(b.contains(y));
        let k = choose|k: int| 0 <= k < b.len() && b[k] == y;
        assert(c.contains(b[k]));
        assert(c.contains((forward_slashes(b[k].0), b[k].1)));
        assert(sort_by_len(c).contains(y));
        assert(sort_by_len(c).contains((forward_slashes(y.0), y.1)));
    }
}

// ---------------------------------------------------------------------------
// Normalized patches
// ---------------------------------------------------------------------------

proof fn lemma_lex_le_reflexive(a: Seq<char>)
    ensures
        lex_le(a, a),
    decreases a.len(),
{
    if a.len() > 0 {
        lemma_lex_le_reflexive(a.drop_first());
    }
}

proof fn lemma_lex_le_antisymmetric(a: Seq<char>, b: Seq<char>)
    requires
        lex_le(a, b),
        lex_le(b, a),
    ensures
        a == b,
    decreases a.len(),
{
    if a.len() == 0 {
        assert(b.len() == 0);
        assert(a =~= b);
    } else {
        assert(b.len() > 0);
        assert(a[0] == b[0]);
        lemma_lex_le_antisymmetric(a.drop_first(), b.drop_first());
        assert(a =~= seq![a[0]] + a.drop_first());
        assert(b =~= seq![b[0]] + b.drop_first());
    }
}

proof fn lemma_lex_le_transitive(a: Seq<char>, b: Seq<char>, c: Seq<char>)
    requires
        lex_le(a, b),
        lex_le(b, c),
    ensures
        lex_le(a, c),
    decreases a.len(),
{
    if a.len() > 0 {
        assert(b.len() > 0);
        assert(c.len() > 0);
        if a[0] == b[0] && b[0] == c[0] {
            lemma_lex_le_transitive(a.drop_first(), b.drop_first(), c.drop_first());
        }
    }
}

proof fn lemma_lex_le_total(a: Seq<char>, b: Seq<char>)
    ensures
        lex_le(a, b) || lex_le(b, a),
    decreases a.len(),
{
    if a.len() > 0 && b.len() > 0 {
        if a[0] == b[0] {
            lemma_lex_le_total(a.drop_first(), b.drop_first());
        }
    }
}

proof fn lemma_lex_total_ordering()
    ensures
        total_ordering(|a: Seq<char>, b: Seq<char>| lex_le(a, b)),
{
    let r = |a: Seq<char>, b: Seq<char>| lex_le(a, b);
    assert forall|x: Seq<char>| #[trigger] r(x, x) by {
        lemma_lex_le_reflexive(x);
    }
    assert forall|x: Seq<char>, y: Seq<char>| #[trigger] r(x, y) && #[trigger] r(y, x) implies x == y by {
        lemma_lex_le_antisymmetric(x, y);
    }
    assert forall|x: Seq<char>, y: Seq<char>, z: Seq<char>| #[trigger] r(x, y) && #[trigger] r(y, z) implies r(x, z) by {
        lemma_lex_le_transitive(x, y, z);
    }
    assert forall|x: Seq<char>, y: Seq<char>| #[trigger] r(x, y) || #[trigger] r(y, x) by {
        lemma_lex_le_total(x, y);
    }
}

/// Whether the lines are in ascending order.
pub open spec fn lines_sorted(s: Seq<Seq<char>>) -> bool {
    forall|i: int, j: int| 0 <= i < j < s.len() ==> lex_le(#[trigger] s[i], #[trigger] s[j])
}

proof fn lemma_insert_sorted(s: Seq<Seq<char>>, x: Seq<char>)
    requires
        lines_sorted(s),
    ensures
        lines_sorted(insert_sorted(s, x)),
        insert_sorted(s, x).to_multiset() == s.to_multiset().insert(x),
    decreases s.len(),
{
    broadcast use vstd::seq_lib::group_to_multiset_ensures;
    broadcast use vstd::multiset::group_multiset_axioms;

    let r = insert_sorted(s, x);
    if s.len() == 0 {
        assert(r =~= Seq::<Seq<char>>::empty().push(x));
    } else if lex_le(x, s[0]) {
        assert forall|i: int, j: int| 0 <= i < j < r.len() implies lex_le(#[trigger] r[i], #[trigger] r[j]) by {
            assert(r[j] == s[j - 1]);
            if i > 0 {
                assert(r[i] == s[i - 1]);
            } else if j - 1 > 0 {
                assert(lex_le(s[0], s[j - 1]));
                lemma_lex_le_transitive(x, s[0], s[j - 1]);
            }
        }
        crate::laws::lemma_cons_multiset(s, x);
    } else {
        let rest = s.drop_first();
        assert(lines_sorted(rest)) by {
            assert forall|i: int, j: int| 0 <= i < j < rest.len() implies lex_le(#[trigger] rest[i], #[trigger] rest[j]) by {
                assert(rest[i] == s[i + 1]);
                assert(rest[j] == s[j + 1]);
            }
        }
        lemma_insert_sorted(rest, x);
        let t = insert_sorted(rest, x);
        lemma_lex_le_total(x, s[0]);
        assert forall|j: int| 0 <= j < t.len() implies lex_le(s[0], #[trigger] t[j]) by {
            assert(t.to_multiset().count(t[j]) > 0);
            assert(rest.to_multiset().insert(x).count(t[j]) > 0);
            if t[j] != x {
                assert(rest.to_multiset().count(t[j]) > 0);
                assert(rest.contains(t[j]));
                let k = choose|k: int| 0 <= k < rest.len() && rest[k] == t[j];
                assert(rest[k] == s[k + 1]);
            }
        }
        assert forall|i: int, j: int| 0 <= i < j < r.len() implies lex_le(#[trigger] r[i], #[trigger] r[j]) by {
            assert(r[j] == t[j - 1]);
            if i > 0 {
                assert(r[i] == t[i - 1]);
            }
        }
        crate::laws::lemma_cons_multiset(t, s[0]);
        crate::laws::lemma_cons_multiset(rest, s[0]);
        assert(s =~= seq![s[0]] + rest);
        assert(r =~= seq![s[0]] + t);
    }
}

proof fn lemma_cons_multiset(s: Seq<Seq<char>>, x: Seq<char>)
    ensures
        (seq![x] + s).to_multiset() == s.to_multiset().insert(x),
{
    broadcast use vstd::seq_lib::group_to_multiset_ensures;

    vstd::seq_lib::lemma_multiset_commutative(seq![x], s);
    assert(s + seq![x] =~= s.push(x));
    assert(seq![x].to_multiset() =~= vstd::multiset::Multiset::<Seq<char>>::empty().insert(x)) by {
        assert(seq![x] =~= Seq::<Seq<char>>::empty().push(x));
        assert(Seq::<Seq<char>>::empty().to_multiset() =~= vstd::multiset::Multiset::<Seq<char>>::empty());
    }
}

proof fn lemma_sort_lines(s: Seq<Seq<char>>)
    ensures
        lines_sorted(sort_lines(s)),
        sorted_by(sort_lines(s), |a: Seq<char>, b: Seq<char>| lex_le(a, b)),
        sort_lines(s).to_multiset() == s.to_multiset(),
    decreases s.len(),
{
    broadcast use vstd::seq_lib::group_to_multiset_ensures;

    if s.len() == 0 {
        assert(Seq::<Seq<char>>::empty().to_multiset() =~= s.to_multiset());
    } else {
        lemma_sort_lines(s.drop_last());
        lemma_insert_sorted(sort_lines(s.drop_last()), s.last());
        assert(s =~= s.drop_last().push(s.last()));
    }
    let t = sort_lines(s);
    assert forall|i: int, j: int| 0 <= i < j < t.len() implies (|a: Seq<char>, b: Seq<char>| lex_le(a, b))(
        #[trigger] t[i],
        #[trigger] t[j],
    ) by {
        assert(lex_le(t[i], t[j]));
    }
}

proof fn lemma_first_index_found(s: Seq<Seq<char>>, x: Seq<char>)
    ensures
        first_index(s, x) matches Some(j) ==> 0 <= j < s.len() && s[j] == x,
        first_index(s, x) is None ==> !s.contains(x),
    decreases s.len(),
{
    if s.len() > 0 {
        lemma_first_index_found(s.drop_first(), x);
        if first_index(s, x) is None {
            if s.contains(x) {
                let k = choose|k: int| 0 <= k < s.len() && s[k] == x;
                assert(k > 0);
                assert(s.drop_first()[k - 1] == x);
            }
        }
    }
}

/// The number of `y` left after taking `b` of them away from `a`.
pub open spec fn count_less(a: nat, b: nat) -> nat {
    if a >= b {
        (a - b) as nat
    } else {
        0
    }
}

proof fn lemma_cancel_counts(rem: Seq<Seq<char>>, add: Seq<Seq<char>>)
    ensures
        forall|y: Seq<char>|
            #[trigger] cancel(rem, add).0.to_multiset().count(y) == count_less(rem.to_multiset().count(y), add.to_multiset().count(y)),
        forall|y: Seq<char>|
            #[trigger] cancel(rem, add).1.to_multiset().count(y) == count_less(add.to_multiset().count(y), rem.to_multiset().count(y)),
    decreases rem.len(),
{
    broadcast use vstd::seq_lib::group_to_multiset_ensures;
    broadcast use vstd::multiset::group_multiset_axioms;

    if rem.len() == 0 {
        assert(rem.to_multiset() =~= vstd::multiset::Multiset::<Seq<char>>::empty());
    } else {
        let x = rem[0];
        let rest = rem.drop_first();
        lemma_cons_multiset(rest, x);
        assert(rem =~= seq![x] + rest);
        lemma_first_index_found(add, x);
        match first_index(add, x) {
            Some(j) => {
                let add2 = add.remove(j);
                lemma_cancel_counts(rest, add2);
                assert(cancel(rem, add) == cancel(rest, add2));
                assert forall|y: Seq<char>| #[trigger] cancel(rem, add).0.to_multiset().count(y) == count_less(
                    rem.to_multiset().count(y),
                    add.to_multiset().count(y),
                ) && cancel(rem, add).1.to_multiset().count(y) == count_less(add.to_multiset().count(y), rem.to_multiset().count(y)) by {
                    assert(rem.to_multiset().count(y) == rest.to_multiset().count(y) + (if y == x { 1nat } else { 0nat }));
                    assert(add2.to_multiset() == add.to_multiset().remove(x));
                    assert(add.to_multiset().count(x) > 0);
                    assert(add2.to_multiset().count(y) + (if y == x { 1nat } else { 0nat }) == add.to_multiset().count(y));
                    assert(cancel(rest, add2).0.to_multiset().count(y) == count_less(rest.to_multiset().count(y), add2.to_multiset().count(y)));
                    assert(cancel(rest, add2).1.to_multiset().count(y) == count_less(add2.to_multiset().count(y), rest.to_multiset().count(y)));
                }
            },
            None => {
                lemma_cancel_counts(rest, add);
                let c = cancel(rest, add);
                lemma_cons_multiset(c.0, x);
                assert(add.to_multiset().count(x) == 0);
                assert(cancel(rem, add) == (seq![x] + c.0, c.1));
                assert forall|y: Seq<char>| #[trigger] cancel(rem, add).0.to_multiset().count(y) == count_less(
                    rem.to_multiset().count(y),
                    add.to_multiset().count(y),
                ) && cancel(rem, add).1.to_multiset().count(y) == count_less(add.to_multiset().count(y), rem.to_multiset().count(y)) by {
                    assert(rem.to_multiset().count(y) == rest.to_multiset().count(y) + (if y == x { 1nat } else { 0nat }));
                    assert((seq![x] + c.0).to_multiset().count(y) == c.0.to_multiset().count(y) + (if y == x { 1nat } else { 0nat }));
                    assert(c.0.to_multiset().count(y) == count_less(rest.to_multiset().count(y), add.to_multiset().count(y)));
                    assert(c.1.to_multiset().count(y) == count_less(add.to_multiset().count(y), rest.to_multiset().count(y)));
                }
            },
        }
    }
}

/// The normalized text of a patch depends only on which lines it removes and adds,
/// counted with multiplicity, and on its final newline: not on context lines, not on how
/// removed and added lines interleave, and not on the order of its hunks.
pub proof fn law_normalized_text_ignores_order(p: Patch, q: Patch)
    requires
        removed_of(p.hunks@).to_multiset() == removed_of(q.hunks@).to_multiset(),
        added_of(p.hunks@).to_multiset() == added_of(q.hunks@).to_multiset(),
        p.ends_with_newline == q.ends_with_newline,
    ensures
        normalized_text(p) == normalized_text(q),
{
    let cp = cancel(removed_of(p.hunks@), added_of(p.hunks@));
    let cq = cancel(removed_of(q.hunks@), added_of(q.hunks@));
    lemma_cancel_counts(removed_of(p.hunks@), added_of(p.hunks@));
    lemma_cancel_counts(removed_of(q.hunks@), added_of(q.hunks@));
    assert(cp.0.to_multiset() =~= cq.0.to_multiset());
    assert(cp.1.to_multiset() =~= cq.1.to_multiset());
    lemma_sort_lines(cp.0);
    lemma_sort_lines(cq.0);
    lemma_sort_lines(cp.1);
    lemma_sort_lines(cq.1);
    lemma_lex_total_ordering();
    vstd::seq_lib::lemma_sorted_unique(sort_lines(cp.0), sort_lines(cq.0), |a: Seq<char>, b: Seq<char>| lex_le(a, b));
    vstd::seq_lib::lemma_sorted_unique(sort_lines(cp.1), sort_lines(cq.1), |a: Seq<char>, b: Seq<char>| lex_le(a, b));
}

} // verus!
