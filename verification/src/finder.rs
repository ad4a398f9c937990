//! Locating a hunk's match block in target lines: exact match, exact match
//! ignoring trailing whitespace, flexible-window fuzzy match, and the
//! end-of-file match for targets shorter than the hunk.
use crate::diffing::{
    count_matched, diff_line_seqs, diff_word_texts, line_diff, matched, ratio_of, similarity,
    word_diff, DiffStep, ONE,
};
use crate::outcome::{located_view, ApplyErrorView, HunkApplyError, HunkLocation, Located, MatchType};
use crate::hunk::{lemma_stripped_where_len, match_block, Hunk};
use crate::options::ApplyOptions;
use crate::text::{
    chars_eq, chars_of, join, line_chars, lines, split_lines, starts_with_char, string_of, strings_of, texts,
    trim_end, trim_start, trimmed_end, views, LineText,
};
use vstd::prelude::*;

verus! {

// ---------------------------------------------------------------------------
// Exact matching
// ---------------------------------------------------------------------------

/// Whether the lines of `tl` starting at `i` are exactly `mb`.
pub open spec fn window_equal(tl: Seq<Seq<char>>, mb: Seq<Seq<char>>, i: int) -> bool {
    tl.subrange(i, i + mb.len()) == mb
}

/// The starts below `k` at which `mb` occurs in `tl`, ascending.
pub open spec fn matches_below(tl: Seq<Seq<char>>, mb: Seq<Seq<char>>, k: nat) -> Seq<usize>
    decreases k,
{
    if k == 0 {
        Seq::empty()
    } else {
        let prev = matches_below(tl, mb, (k - 1) as nat);
        if window_equal(tl, mb, k - 1) {
            prev.push((k - 1) as usize)
        } else {
            prev
        }
    }
}

/// Every start at which the whole of `mb` occurs in `tl`, ascending.
pub open spec fn exact_matches(tl: Seq<Seq<char>>, mb: Seq<Seq<char>>) -> Seq<usize> {
    if mb.len() <= tl.len() {
        matches_below(tl, mb, (tl.len() - mb.len() + 1) as nat)
    } else {
        Seq::empty()
    }
}

/// Each line with its trailing whitespace removed.
pub open spec fn trim_ends(ls: Seq<Seq<char>>) -> Seq<Seq<char>> {
    Seq::new(ls.len(), |i: int| trim_end(ls[i]))
}

// ---------------------------------------------------------------------------
// Line-number hints
// ---------------------------------------------------------------------------

/// How far a match starting at 0-based `index` is from the 1-based line `line`.
pub open spec fn hint_distance(index: usize, line: usize) -> int {
    let a = index + 1;
    if a >= line {
        a - line
    } else {
        line - a
    }
}

/// Whether the `k`-th start of `starts` is strictly nearer to `line` than every other one.
pub open spec fn nearest_at(starts: Seq<usize>, line: usize, k: int) -> bool {
    &&& 0 <= k < starts.len()
    &&& forall|j: int|
        0 <= j < starts.len() && j != k ==> hint_distance(starts[k], line) < hint_distance(
            #[trigger] starts[j],
            line,
        )
}

/// The choice among several match starts: none, one (alone, or strictly nearest to the
/// hint), or the whole list when the ambiguity stays.
pub open spec fn tie_break(starts: Seq<usize>, hint: Option<usize>) -> Result<Option<usize>, Seq<usize>> {
    if starts.len() == 0 {
        Ok(None)
    } else if starts.len() == 1 {
        Ok(Some(starts[0]))
    } else {
        match hint {
            Some(line) => if exists|k: int| nearest_at(starts, line, k) {
                Ok(Some(starts[choose|k: int| nearest_at(starts, line, k)]))
            } else {
                Err(starts)
            },
            None => Err(starts),
        }
    }
}

fn distance_to_hint(index: usize, line: usize) -> (d: usize)
    requires
        index < usize::MAX,
    ensures
        d == hint_distance(index, line),
{
    let a = index + 1;
    if a >= line {
        a - line
    } else {
        line - a
    }
}

/// The position in `starts` strictly nearest to `line`, if one is.
fn nearest_index(starts: &Vec<usize>, line: usize) -> (r: Option<usize>)
    requires
        starts@.len() > 0,
        forall|j: int| 0 <= j < starts@.len() ==> #[trigger] starts@[j] < usize::MAX,
    ensures
        match r {
            Some(k) => nearest_at(starts@, line, k as int),
            None => !exists|k: int| nearest_at(starts@, line, k),
        },
{
    let mut k: usize = 0;
    let mut min_d = distance_to_hint(starts[0], line);
    let mut is_tie = false;
    let mut i: usize = 1;
    while i < starts.len()
        invariant
            1 <= i <= starts@.len(),
            forall|j: int| 0 <= j < starts@.len() ==> #[trigger] starts@[j] < usize::MAX,
            0 <= k < i,
            min_d == hint_distance(starts@[k as int], line),
            forall|j: int| 0 <= j < i ==> hint_distance(#[trigger] starts@[j], line) >= min_d,
            forall|j: int| 0 <= j < k ==> hint_distance(#[trigger] starts@[j], line) > min_d,
            is_tie <==> exists|j: int|
                k < j < i && hint_distance(#[trigger] starts@[j], line) == min_d,
        decreases starts.len() - i,
    {
        let d = distance_to_hint(starts[i], line);
        if d < min_d {
            min_d = d;
            k = i;
            is_tie = false;
        } else if d == min_d {
            is_tie = true;
        }
        i += 1;
    }
    if is_tie {
        proof {
            let j = choose|j: int| k < j < i && hint_distance(#[trigger] starts@[j], line) == min_d;
            assert forall|kk: int| !nearest_at(starts@, line, kk) by {
                if nearest_at(starts@, line, kk) {
                    if kk != k as int {
                        assert(hint_distance(starts@[kk], line) < hint_distance(starts@[k as int], line));
                    } else {
                        assert(hint_distance(starts@[kk], line) < hint_distance(starts@[j], line));
                    }
                }
            }
        }
        None
    } else {
        proof {
            assert forall|j: int| 0 <= j < starts@.len() && j != k implies hint_distance(
                starts@[k as int],
                line,
            ) < hint_distance(#[trigger] starts@[j], line) by {
                if j > k {
                    assert(hint_distance(starts@[j], line) >= min_d);
                }
            }
        }
        Some(k)
    }
}

/// Given the match starts found, picks the one to use: `Ok(None)` when there is none,
/// `Ok(Some(i))` when there is one or the line hint singles one out, and the whole
/// list as the error when the ambiguity cannot be resolved.
fn tie_break_with_line_number(matches: Vec<usize>, start_line: Option<usize>) -> (r: Result<
    Option<usize>,
    Vec<usize>,
>)
    requires
        forall|j: int| 0 <= j < matches@.len() ==> #[trigger] matches@[j] < usize::MAX,
    ensures
        match r {
            Ok(x) => tie_break(matches@, start_line) == Ok::<Option<usize>, Seq<usize>>(x),
            Err(v) => tie_break(matches@, start_line) == Err::<Option<usize>, Seq<usize>>(v@),
        },
        r matches Ok(Some(x)) ==> matches@.contains(x),
{
    if matches.len() == 0 {
        return Ok(None);
    }
    if matches.len() == 1 {
        proof {
            assert(matches@[0] == matches@[0]);
        }
        return Ok(Some(matches[0]));
    }
    match start_line {
        Some(line) => {
            match nearest_index(&matches, line) {
                Some(k) => {
                    proof {
                        let kk = choose|kk: int| nearest_at(matches@, line, kk);
                        if kk != k as int {
                            assert(hint_distance(matches@[kk], line) < hint_distance(
                                matches@[k as int],
                                line,
                            ));
                            assert(hint_distance(matches@[k as int], line) < hint_distance(
                                matches@[kk],
                                line,
                            ));
                        }
                    }
                    proof {
                        assert(matches@[k as int] == matches@[k as int]);
                    }
                    Ok(Some(matches[k]))
                },
                None => Err(matches),
            }
        },
        None => Err(matches),
    }
}

/// Whether two line sequences agree on the `m` lines starting at `i` and `0`.
fn window_matches(tl: &Vec<Vec<char>>, mb: &Vec<Vec<char>>, i: usize) -> (r: bool)
    requires
        i + mb@.len() <= tl@.len(),
    ensures
        r == window_equal(views(tl@), views(mb@), i as int),
{
    let m = mb.len();
    let n = tl.len();
    let mut j: usize = 0;
    while j < m
        invariant
            m == mb@.len(),
            n == tl@.len(),
            i + m <= n,
            j <= m,
            forall|q: int| 0 <= q < j ==> tl@[i + q]@ == #[trigger] mb@[q]@,
        decreases m - j,
    {
        if !chars_eq(&tl[i + j], &mb[j]) {
            proof {
                assert(views(tl@).subrange(i as int, i + m)[j as int] != views(mb@)[j as int]);
            }
            return false;
        }
        j += 1;
    }
    proof {
        assert(views(tl@).subrange(i as int, i + m) =~= views(mb@));
    }
    true
}

/// Every start at which `mb` occurs exactly in `tl`, ascending.
fn find_exact_matches(tl: &Vec<Vec<char>>, mb: &Vec<Vec<char>>) -> (r: Vec<usize>)
    requires
        mb@.len() > 0,
    ensures
        r@ == exact_matches(views(tl@), views(mb@)),
        forall|j: int| 0 <= j < r@.len() ==> #[trigger] r@[j] + mb@.len() <= tl@.len(),
{
    let mut out: Vec<usize> = Vec::new();
    if mb.len() > tl.len() {
        return out;
    }
    let n = tl.len();
    let last = n - mb.len();
    let mut k: usize = 0;
    while k <= last
        invariant
            n == tl@.len(),
            last == tl@.len() - mb@.len(),
            0 < mb@.len() <= tl@.len(),
            k <= last + 1,
            out@ == matches_below(views(tl@), views(mb@), k as nat),
            forall|j: int| 0 <= j < out@.len() ==> #[trigger] out@[j] < k,
            forall|j: int| 0 <= j < out@.len() ==> #[trigger] out@[j] <= last,
        decreases last + 1 - k,
    {
        if window_matches(tl, mb, k) {
            out.push(k);
        }
        k += 1;
    }
    out
}

/// Each line of `ls` with its trailing whitespace removed.
fn trim_all_ends(ls: &Vec<Vec<char>>) -> (r: Vec<Vec<char>>)
    ensures
        views(r@) == trim_ends(views(ls@)),
{
    let mut out: Vec<Vec<char>> = Vec::new();
    let mut i: usize = 0;
    while i < ls.len()
        invariant
            i <= ls@.len(),
            views(out@) == trim_ends(views(ls@)).take(i as int),
        decreases ls.len() - i,
    {
        let t = trimmed_end(&ls[i]);
        let ghost before = views(out@);
        out.push(t);
        i += 1;
        proof {
            assert(views(out@) =~= before.push(t@));
            assert(views(out@) =~= trim_ends(views(ls@)).take(i as int));
        }
    }
    proof {
        assert(views(out@) =~= trim_ends(views(ls@)));
    }
    out
}


// ---------------------------------------------------------------------------
// Search ranges for the fuzzy search
// ---------------------------------------------------------------------------

/// An anchor line occurring more often than this is not used to narrow the search.
pub const MAX_ANCHOR_OCCURRENCES: usize = 5;
/// An anchor line shorter than this (in bytes, trimmed) is not used.
pub const MIN_ANCHOR_LEN: usize = 5;
/// The search radius is this factor times the hunk size...
pub const SEARCH_RADIUS_FACTOR: usize = 2;
/// ...but at least this many lines.
pub const MIN_SEARCH_RADIUS: usize = 15;

/// The indices below `k` of the lines of `tt` equal to `a`, ascending.
pub open spec fn occurrences_below(tt: Seq<Seq<char>>, a: Seq<char>, k: nat) -> Seq<usize>
    decreases k,
{
    if k == 0 {
        Seq::empty()
    } else {
        let prev = occurrences_below(tt, a, (k - 1) as nat);
        if tt[k - 1] == a {
            prev.push((k - 1) as usize)
        } else {
            prev
        }
    }
}

/// The indices of the lines of `tt` equal to `a`, ascending.
pub open spec fn occurrences(tt: Seq<Seq<char>>, a: Seq<char>) -> Seq<usize> {
    occurrences_below(tt, a, tt.len())
}

/// Whether line `c` of the trimmed match block is a usable anchor: long enough once
/// trimmed, and found in the trimmed target between once and `MAX_ANCHOR_OCCURRENCES` times.
pub open spec fn good_anchor(mt: Seq<Seq<char>>, tt: Seq<Seq<char>>, c: int) -> bool {
    &&& crate::text::utf8_len(crate::text::trim(mt[c])) >= MIN_ANCHOR_LEN
    &&& 1 <= occurrences(tt, mt[c]).len() <= MAX_ANCHOR_OCCURRENCES
}

/// The first usable anchor, trying the middle line of the match block first and then
/// lines ever farther from it, the later one before the earlier one at each distance.
pub open spec fn anchor_from(mt: Seq<Seq<char>>, tt: Seq<Seq<char>>, i: nat) -> Option<nat>
    decreases mt.len() / 2 + 1 - i,
{
    let mid = mt.len() / 2;
    if i > mid {
        None
    } else if mid + i < mt.len() && good_anchor(mt, tt, (mid + i) as int) {
        Some(mid + i)
    } else if i > 0 && good_anchor(mt, tt, mid - i) {
        Some((mid - i) as nat)
    } else {
        anchor_from(mt, tt, i + 1)
    }
}

pub open spec fn search_radius(m: nat) -> nat {
    if SEARCH_RADIUS_FACTOR * m > MIN_SEARCH_RADIUS {
        (SEARCH_RADIUS_FACTOR * m) as nat
    } else {
        MIN_SEARCH_RADIUS as nat
    }
}

/// The lines to search around an occurrence `o` of anchor line `c`, for a match block of
/// `m` lines in a target of `n` lines.
pub open spec fn range_around(o: usize, c: nat, m: nat, n: nat) -> (usize, usize) {
    let est: nat = if o >= c { (o - c) as nat } else { 0 };
    let r = search_radius(m);
    let start: nat = if est >= r { (est - r) as nat } else { 0 };
    let end: nat = if est + m + r <= n { est + m + r } else { n };
    (start as usize, end as usize)
}

/// The state of merging ranges after the first `k` of them.
pub open spec fn merge_state(rs: Seq<(usize, usize)>, k: nat) -> (Seq<(usize, usize)>, (usize, usize))
    decreases k,
{
    if k <= 1 {
        (Seq::empty(), rs[0])
    } else {
        let st = merge_state(rs, (k - 1) as nat);
        let next = rs[k - 1];
        if next.0 <= st.1.1 {
            (st.0, (st.1.0, if st.1.1 >= next.1 { st.1.1 } else { next.1 }))
        } else {
            (st.0.push(st.1), next)
        }
    }
}

/// Ranges already sorted by start, with overlapping or adjacent ones merged into one.
pub open spec fn merge_sorted(rs: Seq<(usize, usize)>) -> Seq<(usize, usize)> {
    if rs.len() == 0 {
        Seq::empty()
    } else {
        let st = merge_state(rs, rs.len());
        st.0.push(st.1)
    }
}

/// `x` put into `sorted` after every range that starts no later than it.
pub open spec fn insert_by_start(sorted: Seq<(usize, usize)>, x: (usize, usize)) -> Seq<(usize, usize)>
    decreases sorted.len(),
{
    if sorted.len() == 0 {
        seq![x]
    } else if x.0 < sorted[0].0 {
        seq![x] + sorted
    } else {
        seq![sorted[0]] + insert_by_start(sorted.drop_first(), x)
    }
}

/// The ranges sorted by start (ranges with the same start keep their order).
pub open spec fn sort_by_start(rs: Seq<(usize, usize)>) -> Seq<(usize, usize)>
    decreases rs.len(),
{
    if rs.len() == 0 {
        Seq::empty()
    } else {
        insert_by_start(sort_by_start(rs.drop_last()), rs.last())
    }
}

/// The ranges sorted by start, with overlapping or adjacent ones merged into one.
pub open spec fn merge(rs: Seq<(usize, usize)>) -> Seq<(usize, usize)> {
    merge_sorted(sort_by_start(rs))
}

/// Whether each range ends before the next one starts (so the ranges are disjoint, not
/// adjacent, and sorted by start).
pub open spec fn ordered_apart(rs: Seq<(usize, usize)>) -> bool {
    forall|i: int, j: int| 0 <= i < j < rs.len() ==> (#[trigger] rs[i]).1 < (#[trigger] rs[j]).0
}

/// Whether the ranges are sorted by start.
pub open spec fn sorted_by_start(rs: Seq<(usize, usize)>) -> bool {
    forall|i: int, j: int| 0 <= i < j < rs.len() ==> rs[i].0 <= rs[j].0
}

/// Whether every range lies within `0..n` with its start before its end.
pub open spec fn ranges_within(rs: Seq<(usize, usize)>, n: nat) -> bool {
    forall|i: int| 0 <= i < rs.len() ==> #[trigger] rs[i].0 <= rs[i].1 && rs[i].1 <= n
}

/// The ranges of the target to search: windows around the occurrences of the anchor
/// line, merged, or the whole target when there is no usable anchor.
pub open spec fn search_ranges(mt: Seq<Seq<char>>, tt: Seq<Seq<char>>) -> Seq<(usize, usize)> {
    let n = tt.len();
    if mt.len() == 0 {
        seq![(0usize, n as usize)]
    } else {
        match anchor_from(mt, tt, 0) {
            Some(c) => merge(
                occurrences(tt, mt[c as int]).map_values(
                    |o: usize| range_around(o, c, mt.len(), n),
                ),
            ),
            None => seq![(0usize, n as usize)],
        }
    }
}

// ---------------------------------------------------------------------------
// Fuzzy windows and their scores
// ---------------------------------------------------------------------------

/// How far window sizes may differ from the match block size.
pub open spec fn fuzz_distance(len: nat) -> nat {
    let q = len / 4;
    if q < 3 {
        3
    } else if q > 8 {
        8
    } else {
        q
    }
}

pub open spec fn min_window(len: nat) -> nat {
    let d = fuzz_distance(len);
    let x: nat = if len >= d { (len - d) as nat } else { 0 };
    if x < 1 {
        1
    } else {
        x
    }
}

pub open spec fn max_window(len: nat) -> nat {
    len + fuzz_distance(len)
}

/// The windows `(start, wl)` of one length `wl` within `rs..rs + avail`, by start.
pub open spec fn windows_of_len(rs: nat, avail: nat, wl: nat) -> Seq<(usize, usize)> {
    if wl <= avail {
        Seq::new((avail - wl + 1) as nat, |i: int| ((rs + i) as usize, wl as usize))
    } else {
        Seq::empty()
    }
}

/// The windows of lengths `lo..=hi` within `rs..rs + avail`, by length and then start.
pub open spec fn windows_up_to(rs: nat, avail: nat, lo: nat, hi: nat) -> Seq<(usize, usize)>
    decreases hi,
{
    if hi < lo || hi == 0 {
        Seq::empty()
    } else {
        windows_up_to(rs, avail, lo, (hi - 1) as nat) + windows_of_len(rs, avail, hi)
    }
}

/// The windows of lengths `lo..=hi` in each range, range by range.
pub open spec fn windows_in(ranges: Seq<(usize, usize)>, lo: nat, hi: nat) -> Seq<(usize, usize)>
    decreases ranges.len(),
{
    if ranges.len() == 0 {
        Seq::empty()
    } else {
        let r = ranges.last();
        windows_in(ranges.drop_last(), lo, hi) + windows_up_to(
            r.0 as nat,
            (r.1 - r.0) as nat,
            lo,
            hi,
        )
    }
}

/// The similarity of two line sequences, in billionths.
pub open spec fn line_similarity(w: Seq<Seq<char>>, mt: Seq<Seq<char>>) -> int {
    ratio_of(matched(line_diff(w, mt)), w.len() + mt.len())
}

/// The similarity of two texts compared word by word, in billionths.
pub open spec fn word_similarity(a: Seq<char>, b: Seq<char>) -> int {
    let d = word_diff(a, b);
    ratio_of(matched(d.0), (d.1 + d.2) as nat)
}

/// Six tenths of the line similarity plus four tenths of the word similarity.
pub open spec fn blended(line_sim: int, word_sim: int) -> int {
    (6 * line_sim + 4 * word_sim) / 10
}

/// The penalty for a window whose size differs from the match block's: two tenths of
/// the size difference relative to the larger size, in billionths.
pub open spec fn size_penalty(wl: nat, len: nat) -> int {
    let diff: int = if wl >= len { wl - len } else { len - wl };
    let mx: int = if wl >= len { wl as int } else { len as int };
    (200_000_000 * diff) / mx
}

/// The similarity of a window of the trimmed target to the trimmed match block.
pub open spec fn window_similarity(tt: Seq<Seq<char>>, mt: Seq<Seq<char>>, w: (usize, usize)) -> int {
    let win = tt.subrange(w.0 as int, w.0 + w.1);
    blended(line_similarity(win, mt), word_similarity(join(win, seq!['\n']), join(mt, seq!['\n'])))
}

/// The score of a window: its similarity less its size penalty.
pub open spec fn window_score(tt: Seq<Seq<char>>, mt: Seq<Seq<char>>, w: (usize, usize)) -> int {
    window_similarity(tt, mt, w) - size_penalty(w.1 as nat, mt.len())
}

/// The best windows found so far: the best score, the similarity that goes with it, and
/// the windows that share that score (and are equally near the match block size).
pub struct FuzzyBest {
    pub best_score: i64,
    pub best_ratio: i64,
    pub candidates: Vec<(usize, usize)>,
}

pub type FuzzyBestView = (int, int, Seq<(usize, usize)>);

impl View for FuzzyBest {
    type V = FuzzyBestView;

    open spec fn view(&self) -> FuzzyBestView {
        (self.best_score as int, self.best_ratio as int, self.candidates@)
    }
}

pub open spec fn size_distance(wl: usize, len: nat) -> int {
    if wl >= len {
        wl - len
    } else {
        len - wl
    }
}

/// Takes one scored window into account: a higher score replaces the best; an equal
/// score replaces it when the window size is nearer the match block size, and joins it
/// when equally near.
pub open spec fn consider(st: FuzzyBestView, w: (usize, usize), score: int, ratio: int, len: nat) -> FuzzyBestView {
    if score > st.0 {
        (score, ratio, seq![w])
    } else if score == st.0 {
        if st.2.len() == 0 {
            (st.0, st.1, seq![w])
        } else {
            let d_new = size_distance(w.1, len);
            let d_best = size_distance(st.2[0].1, len);
            if d_new < d_best {
                (st.0, ratio, seq![w])
            } else if d_new == d_best {
                (st.0, st.1, st.2.push(w))
            } else {
                st
            }
        }
    } else {
        st
    }
}

/// The state before any window: scores below any that a window can have.
pub open spec fn fuzzy_start() -> FuzzyBestView {
    (-(ONE as int), -(ONE as int), Seq::empty())
}

/// The state after taking the windows `ws` into account, starting from `st`.
pub open spec fn fold_windows(tt: Seq<Seq<char>>, mt: Seq<Seq<char>>, st: FuzzyBestView, ws: Seq<(usize, usize)>) -> FuzzyBestView
    decreases ws.len(),
{
    if ws.len() == 0 {
        st
    } else {
        let w = ws.last();
        consider(
            fold_windows(tt, mt, st, ws.drop_last()),
            w,
            window_score(tt, mt, w),
            window_similarity(tt, mt, w),
            mt.len(),
        )
    }
}

/// What the fuzzy search concludes from its best windows: a location when the best
/// similarity reaches the threshold and one window is best (or nearest the hint), the
/// ambiguity otherwise, the best location found when it falls short, and nothing when no
/// window was scored at all.
pub open spec fn fuzzy_verdict(st: FuzzyBestView, hint: Option<usize>, fuzz: u32) -> Option<Located> {
    let cands = st.2;
    if st.1 >= fuzz {
        if cands.len() == 1 {
            Some(Ok((HunkLocation { start_index: cands[0].0, length: cands[0].1 }, MatchType::Fuzzy { score: st.1 as u64 })))
        } else {
            let starts = cands.map_values(|w: (usize, usize)| w.0);
            match hint {
                Some(line) => if exists|k: int| nearest_at(starts, line, k) {
                    let k = choose|k: int| nearest_at(starts, line, k);
                    Some(Ok((HunkLocation { start_index: cands[k].0, length: cands[k].1 }, MatchType::Fuzzy { score: st.1 as u64 })))
                } else {
                    Some(Err(ApplyErrorView::AmbiguousFuzzyMatch(cands)))
                },
                None => Some(Err(ApplyErrorView::AmbiguousFuzzyMatch(cands))),
            }
        }
    } else if st.1 >= 0 {
        let loc = if cands.len() > 0 {
            HunkLocation { start_index: cands[0].0, length: cands[0].1 }
        } else {
            HunkLocation { start_index: 0, length: 0 }
        };
        Some(Err(ApplyErrorView::FuzzyMatchBelowThreshold { best_score: st.1 as u64, threshold: fuzz, location: loc }))
    } else {
        None
    }
}

/// The threshold of the end-of-file match: a tenth below the fuzz factor, but at least one half.
pub open spec fn eof_threshold(fuzz: u32) -> int {
    let t = fuzz - 100_000_000;
    if t > 500_000_000 {
        t
    } else {
        500_000_000
    }
}

/// The end-of-file match: a non-empty target shorter than the match block that is similar
/// enough to it as a whole is matched entirely; otherwise the context is not found.
pub open spec fn eof_or_not_found(tt: Seq<Seq<char>>, mt: Seq<Seq<char>>, fuzz: u32) -> Located {
    let sim = line_similarity(tt, mt);
    if tt.len() > 0 && tt.len() < mt.len() && fuzz > 0 && sim >= eof_threshold(fuzz) {
        Ok((HunkLocation { start_index: 0, length: tt.len() as usize }, MatchType::Fuzzy { score: sim as u64 }))
    } else {
        Err(ApplyErrorView::ContextNotFound)
    }
}

/// Where the match block `mb` goes in the target lines `tl`: exact match first, then
/// exact match ignoring trailing whitespace, then the fuzzy search when `fuzz > 0`, then
/// the end-of-file match. Line hints resolve ties.
pub open spec fn locate(mb: Seq<Seq<char>>, tl: Seq<Seq<char>>, hint: Option<usize>, fuzz: u32) -> Located {
    let m = mb.len();
    if m == 0 {
        if tl.len() == 0 {
            Ok((HunkLocation { start_index: 0, length: 0 }, MatchType::Exact))
        } else {
            Err(ApplyErrorView::ContextNotFound)
        }
    } else {
        match tie_break(exact_matches(tl, mb), hint) {
            Ok(Some(i)) => Ok((HunkLocation { start_index: i, length: m as usize }, MatchType::Exact)),
            Err(v) => Err(ApplyErrorView::AmbiguousExactMatch(v)),
            Ok(None) => {
                let tt = trim_ends(tl);
                let mt = trim_ends(mb);
                match tie_break(exact_matches(tt, mt), hint) {
                    Ok(Some(i)) => Ok((HunkLocation { start_index: i, length: m as usize }, MatchType::ExactIgnoringWhitespace)),
                    Err(v) => Err(ApplyErrorView::AmbiguousExactMatch(v)),
                    Ok(None) => {
                        let fz = if fuzz > 0 {
                            fuzzy_verdict(
                                fold_windows(tt, mt, fuzzy_start(), windows_in(search_ranges(mt, tt), min_window(m), max_window(m))),
                                hint,
                                fuzz,
                            )
                        } else {
                            None
                        };
                        match fz {
                            Some(r) => r,
                            None => eof_or_not_found(tt, mt, fuzz),
                        }
                    },
                }
            },
        }
    }
}


// ---------------------------------------------------------------------------
// Executable search ranges
// ---------------------------------------------------------------------------

/// The indices of the lines of `tt` equal to `a`, ascending.
fn find_occurrences(tt: &Vec<Vec<char>>, a: &Vec<char>) -> (r: Vec<usize>)
    ensures
        r@ == occurrences(views(tt@), a@),
        forall|j: int| 0 <= j < r@.len() ==> #[trigger] r@[j] < tt@.len(),
        forall|i: int, j: int| 0 <= i < j < r@.len() ==> r@[i] < r@[j],
{
    let mut out: Vec<usize> = Vec::new();
    let n = tt.len();
    let mut k: usize = 0;
    while k < n
        invariant
            n == tt@.len(),
            k <= n,
            out@ == occurrences_below(views(tt@), a@, k as nat),
            forall|j: int| 0 <= j < out@.len() ==> #[trigger] out@[j] < k,
            forall|i: int, j: int| 0 <= i < j < out@.len() ==> out@[i] < out@[j],
        decreases n - k,
    {
        if chars_eq(&tt[k], a) {
            out.push(k);
        }
        k += 1;
    }
    out
}

/// Whether line `c` of `mt` is a usable anchor.
fn is_good_anchor(mt: &Vec<Vec<char>>, tt: &Vec<Vec<char>>, c: usize) -> (r: bool)
    requires
        c < mt@.len(),
    ensures
        r == good_anchor(views(mt@), views(tt@), c as int),
{
    let t = crate::text::trimmed(&mt[c]);
    if crate::text::byte_len(&t) < MIN_ANCHOR_LEN as u128 {
        return false;
    }
    let occ = find_occurrences(tt, &mt[c]);
    1 <= occ.len() && occ.len() <= MAX_ANCHOR_OCCURRENCES
}

/// The first usable anchor line of `mt`, searching outwards from the middle.
fn find_anchor(mt: &Vec<Vec<char>>, tt: &Vec<Vec<char>>) -> (r: Option<usize>)
    ensures
        match r {
            Some(c) => anchor_from(views(mt@), views(tt@), 0) == Some(c as nat) && c < mt@.len(),
            None => anchor_from(views(mt@), views(tt@), 0) == None::<nat>,
        },
{
    let m = mt.len();
    let mid = m / 2;
    let mut i: usize = 0;
    while i <= mid
        invariant
            m == mt@.len(),
            mid == m / 2,
            anchor_from(views(mt@), views(tt@), 0) == anchor_from(views(mt@), views(tt@), i as nat),
        decreases mid + 1 - i,
    {
        if mid + i < m && is_good_anchor(mt, tt, mid + i) {
            return Some(mid + i);
        }
        if i > 0 && is_good_anchor(mt, tt, mid - i) {
            return Some(mid - i);
        }
        i += 1;
    }
    None
}

proof fn lemma_merge_state_within(rs: Seq<(usize, usize)>, k: nat, n: nat)
    requires
        1 <= k <= rs.len(),
        ranges_within(rs, n),
    ensures
        ranges_within(merge_state(rs, k).0, n),
        merge_state(rs, k).1.0 <= merge_state(rs, k).1.1 <= n,
        ordered_apart(merge_state(rs, k).0),
        forall|i: int| 0 <= i < merge_state(rs, k).0.len() ==> (#[trigger] merge_state(rs, k).0[i]).1 < merge_state(rs, k).1.0,
        merge_state(rs, k).0.len() < k,
    decreases k,
{
    if k <= 1 {
        assert(rs[0].0 <= rs[0].1 <= n);
        assert(merge_state(rs, k).0 =~= Seq::<(usize, usize)>::empty());
    } else {
        lemma_merge_state_within(rs, (k - 1) as nat, n);
        assert(rs[k - 1].0 <= rs[k - 1].1 <= n);
        let st = merge_state(rs, (k - 1) as nat);
        let next = rs[k - 1];
        if next.0 <= st.1.1 {
            assert(merge_state(rs, k).0 == st.0);
        } else {
            let p = st.0.push(st.1);
            assert(merge_state(rs, k).0 == p);
            assert forall|i: int| 0 <= i < p.len() implies #[trigger] p[i].0 <= p[i].1 && p[i].1 <= n by {
                if i < st.0.len() {
                    assert(p[i] == st.0[i]);
                }
            }
            assert forall|i: int, j: int| 0 <= i < j < p.len() implies (#[trigger] p[i]).1 < (#[trigger] p[j]).0 by {
                assert(p[i] == st.0[i]);
                if j < st.0.len() {
                    assert(p[j] == st.0[j]);
                }
            }
            assert forall|i: int| 0 <= i < p.len() implies (#[trigger] p[i]).1 < next.0 by {
                if i < st.0.len() {
                    assert(p[i] == st.0[i]);
                }
            }
        }
    }
}

/// Ranges merged after sorting are within `0..=n`, each ends before the next starts, there
/// are no more of them than given, and at least one when some were given.
pub(crate) proof fn lemma_merge_within(rs: Seq<(usize, usize)>, n: nat)
    requires
        ranges_within(rs, n),
    ensures
        ranges_within(merge(rs), n),
        ordered_apart(merge(rs)),
        merge(rs).len() <= rs.len(),
        rs.len() > 0 ==> merge(rs).len() > 0,
{
    let sr = sort_by_start(rs);
    lemma_sort_by_start(rs, n);
    if sr.len() > 0 {
        lemma_merge_state_within(sr, sr.len(), n);
        let st = merge_state(sr, sr.len());
        let p = st.0.push(st.1);
        assert forall|i: int| 0 <= i < p.len() implies #[trigger] p[i].0 <= p[i].1 && p[i].1 <= n by {
            if i < st.0.len() {
                assert(p[i] == st.0[i]);
            }
        }
        assert forall|i: int, j: int| 0 <= i < j < p.len() implies (#[trigger] p[i]).1 < (#[trigger] p[j]).0 by {
            assert(p[i] == st.0[i]);
            if j < st.0.len() {
                assert(p[j] == st.0[j]);
            }
        }
    }
}

proof fn lemma_insert_by_start(sorted: Seq<(usize, usize)>, x: (usize, usize), n: nat)
    requires
        ranges_within(sorted, n),
        x.0 <= x.1 <= n,
        sorted_by_start(sorted),
    ensures
        ranges_within(insert_by_start(sorted, x), n),
        sorted_by_start(insert_by_start(sorted, x)),
        insert_by_start(sorted, x).len() == sorted.len() + 1,
        forall|i: int|
            0 <= i < insert_by_start(sorted, x).len() ==> #[trigger] insert_by_start(sorted, x)[i] == x || sorted.contains(
                insert_by_start(sorted, x)[i],
            ),
        insert_by_start(sorted, x).contains(x),
        forall|y: (usize, usize)| sorted.contains(y) ==> #[trigger] insert_by_start(sorted, x).contains(y),
    decreases sorted.len(),
{
    let r = insert_by_start(sorted, x);
    if sorted.len() == 0 {
        assert(r[0] == x);
    } else if x.0 < sorted[0].0 {
        assert(r[0] == x);
        assert forall|y: (usize, usize)| sorted.contains(y) implies #[trigger] r.contains(y) by {
            let k = choose|k: int| 0 <= k < sorted.len() && sorted[k] == y;
            assert(r[k + 1] == y);
        }
        assert forall|i: int| 0 <= i < r.len() implies #[trigger] r[i] == x || sorted.contains(r[i]) by {
            if i > 0 {
                assert(r[i] == sorted[i - 1]);
            }
        }
        assert forall|i: int| 0 <= i < r.len() implies #[trigger] r[i].0 <= r[i].1 && r[i].1 <= n by {
            if i > 0 {
                assert(r[i] == sorted[i - 1]);
            }
        }
        assert forall|i: int, j: int| 0 <= i < j < r.len() implies r[i].0 <= r[j].0 by {
            assert(r[j] == sorted[j - 1]);
            if i > 0 {
                assert(r[i] == sorted[i - 1]);
            } else {
                assert(sorted[0].0 <= sorted[j - 1].0);
            }
        }
    } else {
        let rest = sorted.drop_first();
        assert(ranges_within(rest, n)) by {
            assert forall|i: int| 0 <= i < rest.len() implies #[trigger] rest[i].0 <= rest[i].1 && rest[i].1 <= n by {
                assert(rest[i] == sorted[i + 1]);
            }
        }
        assert(sorted_by_start(rest)) by {
            assert forall|i: int, j: int| 0 <= i < j < rest.len() implies rest[i].0 <= rest[j].0 by {
                assert(rest[i] == sorted[i + 1]);
                assert(rest[j] == sorted[j + 1]);
            }
        }
        lemma_insert_by_start(rest, x, n);
        let t = insert_by_start(rest, x);
        assert(r == seq![sorted[0]] + t);
        let kx = choose|k: int| 0 <= k < t.len() && t[k] == x;
        assert(r[kx + 1] == x);
        assert forall|y: (usize, usize)| sorted.contains(y) implies #[trigger] r.contains(y) by {
            let k = choose|k: int| 0 <= k < sorted.len() && sorted[k] == y;
            if k == 0 {
                assert(r[0] == y);
            } else {
                assert(rest[k - 1] == y);
                assert(rest.contains(y));
                assert(t.contains(y));
                let q = choose|q: int| 0 <= q < t.len() && t[q] == y;
                assert(r[q + 1] == y);
            }
        }
        assert forall|i: int| 0 <= i < r.len() implies #[trigger] r[i] == x || sorted.contains(r[i]) by {
            if i == 0 {
                assert(sorted[0] == r[0]);
            } else {
                assert(r[i] == t[i - 1]);
                if t[i - 1] != x {
                    let k = choose|k: int| 0 <= k < rest.len() && rest[k] == t[i - 1];
                    assert(sorted[k + 1] == rest[k]);
                }
            }
        }
        assert forall|i: int| 0 <= i < r.len() implies #[trigger] r[i].0 <= r[i].1 && r[i].1 <= n by {
            if i > 0 {
                assert(r[i] == t[i - 1]);
            }
        }
        assert forall|i: int, j: int| 0 <= i < j < r.len() implies r[i].0 <= r[j].0 by {
            assert(r[j] == t[j - 1]);
            if i > 0 {
                assert(r[i] == t[i - 1]);
            } else if t[j - 1] != x {
                let k = choose|k: int| 0 <= k < rest.len() && rest[k] == t[j - 1];
                assert(sorted[k + 1] == rest[k]);
            }
        }
    }
}

proof fn lemma_sort_by_start(rs: Seq<(usize, usize)>, n: nat)
    requires
        ranges_within(rs, n),
    ensures
        ranges_within(sort_by_start(rs), n),
        sorted_by_start(sort_by_start(rs)),
        sort_by_start(rs).len() == rs.len(),
        forall|y: (usize, usize)| #[trigger] sort_by_start(rs).contains(y) <==> rs.contains(y),
    decreases rs.len(),
{
    if rs.len() > 0 {
        assert(ranges_within(rs.drop_last(), n)) by {
            assert forall|i: int| 0 <= i < rs.drop_last().len() implies #[trigger] rs.drop_last()[i].0 <= rs.drop_last()[i].1
                && rs.drop_last()[i].1 <= n by {
                assert(rs.drop_last()[i] == rs[i]);
            }
        }
        lemma_sort_by_start(rs.drop_last(), n);
        assert(rs.last() == rs[rs.len() - 1]);
        lemma_insert_by_start(sort_by_start(rs.drop_last()), rs.last(), n);
        let s0 = sort_by_start(rs.drop_last());
        assert forall|y: (usize, usize)| #[trigger] sort_by_start(rs).contains(y) <==> rs.contains(y) by {
            if sort_by_start(rs).contains(y) {
                let k = choose|k: int| 0 <= k < sort_by_start(rs).len() && sort_by_start(rs)[k] == y;
                if y != rs.last() {
                    assert(s0.contains(y));
                    let q = choose|q: int| 0 <= q < rs.drop_last().len() && rs.drop_last()[q] == y;
                    assert(rs[q] == y);
                }
            }
            if rs.contains(y) {
                let q = choose|q: int| 0 <= q < rs.len() && rs[q] == y;
                if q < rs.len() - 1 {
                    assert(rs.drop_last()[q] == y);
                    assert(rs.drop_last().contains(y));
                }
            }
        }
    }
}

/// Whether line `p` lies in one of the ranges, each taken with both its ends.
pub open spec fn covered(rs: Seq<(usize, usize)>, p: int) -> bool {
    exists|i: int| 0 <= i < rs.len() && (#[trigger] rs[i]).0 <= p <= rs[i].1
}

proof fn lemma_merge_state_covers(rs: Seq<(usize, usize)>, k: nat, p: int)
    requires
        1 <= k <= rs.len(),
        sorted_by_start(rs),
        forall|i: int| 0 <= i < rs.len() ==> #[trigger] rs[i].0 <= rs[i].1,
    ensures
        covered(merge_state(rs, k).0.push(merge_state(rs, k).1), p) <==> covered(rs.take(k as int), p),
        merge_state(rs, k).1.0 <= rs[k - 1].0,
        merge_state(rs, k).1.0 <= merge_state(rs, k).1.1,
    decreases k,
{
    let st = merge_state(rs, k);
    let cur = st.0.push(st.1);
    let tk = rs.take(k as int);
    if k <= 1 {
        assert(st.0 =~= Seq::<(usize, usize)>::empty());
        if covered(cur, p) {
            assert(cur[0] == rs[0]);
            assert(tk[0] == rs[0]);
        }
        if covered(tk, p) {
            assert(cur[0] == rs[0]);
        }
    } else {
        lemma_merge_state_covers(rs, (k - 1) as nat, p);
        let pst = merge_state(rs, (k - 1) as nat);
        let prev = pst.0.push(pst.1);
        let ptk = rs.take(k - 1);
        let next = rs[k - 1];
        assert(rs[k - 2].0 <= next.0);
        assert(tk =~= ptk.push(next));
        assert(covered(tk, p) <==> covered(ptk, p) || (next.0 <= p <= next.1)) by {
            if covered(tk, p) {
                let i = choose|i: int| 0 <= i < tk.len() && (#[trigger] tk[i]).0 <= p <= tk[i].1;
                if i < k - 1 {
                    assert(ptk[i] == tk[i]);
                }
            }
            if covered(ptk, p) {
                let i = choose|i: int| 0 <= i < ptk.len() && (#[trigger] ptk[i]).0 <= p <= ptk[i].1;
                assert(tk[i] == ptk[i]);
            }
            if next.0 <= p <= next.1 {
                assert(tk[k - 1] == next);
            }
        }
        if next.0 <= pst.1.1 {
            assert(st.0 == pst.0);
            assert(covered(cur, p) <==> covered(prev, p) || (next.0 <= p <= next.1)) by {
                if covered(cur, p) {
                    let i = choose|i: int| 0 <= i < cur.len() && (#[trigger] cur[i]).0 <= p <= cur[i].1;
                    if i < pst.0.len() {
                        assert(prev[i] == cur[i]);
                    } else if p <= pst.1.1 {
                        assert(prev[i] == pst.1);
                    }
                }
                if covered(prev, p) {
                    let i = choose|i: int| 0 <= i < prev.len() && (#[trigger] prev[i]).0 <= p <= prev[i].1;
                    if i < pst.0.len() {
                        assert(cur[i] == prev[i]);
                    } else {
                        assert(cur[i] == st.1);
                    }
                }
                if next.0 <= p <= next.1 {
                    assert(cur[pst.0.len() as int] == st.1);
                }
            }
        } else {
            assert(st.0 == prev);
            assert(st.1 == next);
            assert(cur =~= prev.push(next));
            assert(covered(cur, p) <==> covered(prev, p) || (next.0 <= p <= next.1)) by {
                if covered(cur, p) {
                    let i = choose|i: int| 0 <= i < cur.len() && (#[trigger] cur[i]).0 <= p <= cur[i].1;
                    if i < prev.len() {
                        assert(prev[i] == cur[i]);
                    }
                }
                if covered(prev, p) {
                    let i = choose|i: int| 0 <= i < prev.len() && (#[trigger] prev[i]).0 <= p <= prev[i].1;
                    assert(cur[i] == prev[i]);
                }
                if next.0 <= p <= next.1 {
                    assert(cur[prev.len() as int] == next);
                }
            }
        }
    }
}

/// Merging keeps exactly the lines that the ranges cover, each range taken with both ends.
proof fn lemma_merge_covers(rs: Seq<(usize, usize)>, n: nat, p: int)
    requires
        ranges_within(rs, n),
    ensures
        covered(merge(rs), p) <==> covered(rs, p),
{
    let sr = sort_by_start(rs);
    lemma_sort_by_start(rs, n);
    assert(covered(sr, p) <==> covered(rs, p)) by {
        if covered(sr, p) {
            let i = choose|i: int| 0 <= i < sr.len() && (#[trigger] sr[i]).0 <= p <= sr[i].1;
            assert(sr.contains(sr[i]));
            assert(rs.contains(sr[i]));
            let j = choose|j: int| 0 <= j < rs.len() && rs[j] == sr[i];
        }
        if covered(rs, p) {
            let i = choose|i: int| 0 <= i < rs.len() && (#[trigger] rs[i]).0 <= p <= rs[i].1;
            assert(rs.contains(rs[i]));
            assert(sr.contains(rs[i]));
            let j = choose|j: int| 0 <= j < sr.len() && sr[j] == rs[i];
        }
    }
    if sr.len() > 0 {
        lemma_merge_state_covers(sr, sr.len(), p);
        assert(sr.take(sr.len() as int) =~= sr);
    }
}

proof fn lemma_insert_by_start_at(sorted: Seq<(usize, usize)>, x: (usize, usize), k: int)
    requires
        0 <= k <= sorted.len(),
        forall|j: int| 0 <= j < k ==> (#[trigger] sorted[j]).0 <= x.0,
        k < sorted.len() ==> x.0 < sorted[k].0,
    ensures
        insert_by_start(sorted, x) == sorted.insert(k, x),
    decreases k,
{
    if k == 0 {
        if sorted.len() == 0 {
            assert(sorted.insert(0, x) =~= seq![x]);
        } else {
            assert(sorted.insert(0, x) =~= seq![x] + sorted);
        }
    } else {
        let rest = sorted.drop_first();
        assert forall|j: int| 0 <= j < k - 1 implies (#[trigger] rest[j]).0 <= x.0 by {
            assert(rest[j] == sorted[j + 1]);
        }
        if k - 1 < rest.len() {
            assert(rest[k - 1] == sorted[k]);
        }
        assert(sorted[0].0 <= x.0);
        lemma_insert_by_start_at(rest, x, k - 1);
        assert(sorted.insert(k, x) =~= seq![sorted[0]] + rest.insert(k - 1, x));
    }
}

/// The ranges sorted by start (see `sort_by_start`).
fn sort_ranges(ranges: &Vec<(usize, usize)>) -> (r: Vec<(usize, usize)>)
    ensures
        r@ == sort_by_start(ranges@),
{
    let mut out: Vec<(usize, usize)> = Vec::new();
    let mut i: usize = 0;
    proof {
        assert(out@ =~= sort_by_start(ranges@.take(0)));
    }
    while i < ranges.len()
        invariant
            i <= ranges@.len(),
            out@ == sort_by_start(ranges@.take(i as int)),
        decreases ranges.len() - i,
    {
        proof {
            assert(ranges@.take(i + 1).drop_last() =~= ranges@.take(i as int));
        }
        let x = ranges[i];
        let mut k: usize = 0;
        while k < out.len() && out[k].0 <= x.0
            invariant
                k <= out@.len(),
                forall|j: int| 0 <= j < k ==> (#[trigger] out@[j]).0 <= x.0,
            decreases out.len() - k,
        {
            k += 1;
        }
        proof {
            lemma_insert_by_start_at(out@, x, k as int);
        }
        out.insert(k, x);
        i += 1;
    }
    proof {
        assert(ranges@.take(ranges@.len() as int) =~= ranges@);
    }
    out
}

/// Merges a list of overlapping or adjacent ranges into a minimal set of disjoint ranges:
/// they are sorted by start, then each range that starts no later than the current one
/// ends is merged into it.
fn merge_ranges(ranges: Vec<(usize, usize)>, Ghost(n): Ghost<nat>) -> (r: Vec<(usize, usize)>)
    requires
        ranges_within(ranges@, n),
    ensures
        r@ == merge(ranges@),
        ranges_within(r@, n),
        ordered_apart(r@),
        r@.len() <= ranges@.len(),
        ranges@.len() > 0 ==> r@.len() > 0,
        forall|p: int| covered(r@, p) <==> covered(ranges@, p),
{
    proof {
        lemma_merge_within(ranges@, n);
        assert forall|p: int| covered(merge(ranges@), p) <==> covered(ranges@, p) by {
            lemma_merge_covers(ranges@, n, p);
        }
    }
    if ranges.len() == 0 {
        return Vec::new();
    }
    let sorted = sort_ranges(&ranges);
    let mut merged: Vec<(usize, usize)> = Vec::new();
    let mut current = sorted[0];
    let mut i: usize = 1;
    while i < sorted.len()
        invariant
            1 <= i <= sorted@.len(),
            (merged@, current) == merge_state(sorted@, i as nat),
        decreases sorted.len() - i,
    {
        let (start, end) = sorted[i];
        if start <= current.1 {
            if end > current.1 {
                current.1 = end;
            }
        } else {
            merged.push(current);
            current = (start, end);
        }
        i += 1;
    }
    merged.push(current);
    merged
}

proof fn lemma_anchor_good(mt: Seq<Seq<char>>, tt: Seq<Seq<char>>, i: nat)
    ensures
        anchor_from(mt, tt, i) matches Some(c) ==> c < mt.len() && good_anchor(mt, tt, c as int),
    decreases mt.len() / 2 + 1 - i,
{
    let mid = mt.len() / 2;
    if i <= mid {
        lemma_anchor_good(mt, tt, i + 1);
    }
}

/// The ranges of the target in which to look for fuzzy windows.
fn find_search_ranges(mt: &Vec<Vec<char>>, tt: &Vec<Vec<char>>) -> (r: Vec<(usize, usize)>)
    requires
        tt@.len() + 3 * mt@.len() + MIN_SEARCH_RADIUS <= usize::MAX,
    ensures
        r@ == search_ranges(views(mt@), views(tt@)),
        ranges_within(r@, tt@.len()),
        ordered_apart(r@),
        r@.len() >= 1,
        mt@.len() == 0 ==> r@ == seq![(0usize, tt@.len() as usize)],
{
    let n = tt.len();
    let m = mt.len();
    if m == 0 {
        let mut v: Vec<(usize, usize)> = Vec::new();
        v.push((0, n));
        proof {
            assert(v@ =~= seq![(0usize, n)]);
        }
        return v;
    }
    match find_anchor(mt, tt) {
        None => {
            let mut v: Vec<(usize, usize)> = Vec::new();
            v.push((0, n));
            proof {
                assert(v@ =~= seq![(0usize, n)]);
            }
            v
        },
        Some(c) => {
            let occ = find_occurrences(tt, &mt[c]);
            proof {
                lemma_anchor_good(views(mt@), views(tt@), 0);
                assert(views(mt@)[c as int] == mt@[c as int]@);
            }
            let radius = if SEARCH_RADIUS_FACTOR * m > MIN_SEARCH_RADIUS {
                SEARCH_RADIUS_FACTOR * m
            } else {
                MIN_SEARCH_RADIUS
            };
            let ghost target = occ@.map_values(|o: usize| range_around(o, c as nat, m as nat, n as nat));
            let mut ranges: Vec<(usize, usize)> = Vec::new();
            let mut j: usize = 0;
            while j < occ.len()
                invariant
                    n == tt@.len(),
                    m == mt@.len(),
                    n + 3 * m + MIN_SEARCH_RADIUS <= usize::MAX,
                    radius == search_radius(m as nat),
                    forall|q: int| 0 <= q < occ@.len() ==> #[trigger] occ@[q] < n,
                    target == occ@.map_values(|o: usize| range_around(o, c as nat, m as nat, n as nat)),
                    j <= occ@.len(),
                    ranges@ == target.take(j as int),
                    ranges_within(ranges@, n as nat),
                decreases occ.len() - j,
            {
                let o = occ[j];
                let est = if o >= c { o - c } else { 0 };
                let start = if est >= radius { est - radius } else { 0 };
                let end = if est + m + radius <= n { est + m + radius } else { n };
                let ghost before = ranges@;
                ranges.push((start, end));
                j += 1;
                proof {
                    assert(ranges@ =~= target.take(j as int));
                    assert forall|q: int| 0 <= q < ranges@.len() implies #[trigger] ranges@[q].0 <= ranges@[q].1
                        && ranges@[q].1 <= n by {
                        if q < before.len() {
                            assert(ranges@[q] == before[q]);
                        }
                    }
                }
            }
            proof {
                assert(ranges@ =~= target);
            }
            merge_ranges(ranges, Ghost(n as nat))
        },
    }
}

// ---------------------------------------------------------------------------
// Executable fuzzy scoring
// ---------------------------------------------------------------------------

/// The blended similarity of a window and its score after the size penalty, from the
/// line and word similarities (in billionths) of the window to the match block.
pub fn score_window(line_sim: u64, word_sim: u64, window_len: usize, match_len: usize) -> (r: (i64, i64))
    requires
        line_sim <= ONE,
        word_sim <= ONE,
        window_len > 0,
    ensures
        r.1 == blended(line_sim as int, word_sim as int),
        r.0 == r.1 - size_penalty(window_len as nat, match_len as nat),
        0 <= r.1 <= ONE,
        -(200_000_000 as int) <= r.0 <= ONE,
{
    let ratio = (6 * line_sim + 4 * word_sim) / 10;
    let diff: u64 = if window_len >= match_len {
        (window_len - match_len) as u64
    } else {
        (match_len - window_len) as u64
    };
    let mx: u64 = if window_len >= match_len { window_len as u64 } else { match_len as u64 };
    proof {
        assert(diff <= mx);
        assert(200_000_000 * (diff as int) <= 200_000_000 * (mx as int)) by (nonlinear_arith)
            requires
                diff <= mx,
        ;
        assert((200_000_000 * (diff as int)) / (mx as int) <= 200_000_000) by (nonlinear_arith)
            requires
                200_000_000 * (diff as int) <= 200_000_000 * (mx as int),
                mx > 0,
        ;
        assert(0 <= (200_000_000 * (diff as int)) / (mx as int)) by (nonlinear_arith)
            requires
                diff >= 0,
                mx > 0,
        ;
    }
    let penalty = ((200_000_000u128 * diff as u128) / mx as u128) as u64;
    (ratio as i64 - penalty as i64, ratio as i64)
}

proof fn lemma_deep_view_subrange(v: &Vec<String>, a: int, b: int, w: &[String])
    requires
        0 <= a <= b <= v@.len(),
        w@ == v@.subrange(a, b),
    ensures
        w.deep_view() == v.deep_view().subrange(a, b),
{
    assert(w.deep_view() =~= v.deep_view().subrange(a, b));
}

/// The score and similarity of the window `start..start + wl` of the trimmed target.
fn score_at(tts: &Vec<String>, mts: &Vec<String>, mcontent: &String, start: usize, wl: usize) -> (r: (i64, i64))
    requires
        start + wl <= tts@.len(),
        wl > 0,
        mts@.len() > 0,
        mcontent@ == join(mts.deep_view(), seq!['\n']),
    ensures
        r.0 == window_score(tts.deep_view(), mts.deep_view(), (start, wl)),
        r.1 == window_similarity(tts.deep_view(), mts.deep_view(), (start, wl)),
        0 <= r.1 <= ONE,
        -(200_000_000 as int) <= r.0 <= ONE,
{
    let total = tts.len();
    let win = &tts.as_slice()[start..start + wl];
    proof {
        lemma_deep_view_subrange(tts, start as int, start + wl, win);
    }
    let win_refs = crate::diffing::str_refs(win);
    let mts_refs = crate::diffing::str_refs(mts.as_slice());
    let lops = diff_line_seqs(win_refs.as_slice(), mts_refs.as_slice());
    let lm = count_matched(lops.as_slice());
    let lsim = similarity(lm, wl as u128 + mts.len() as u128);
    let content = crate::text::join_lines(win);
    let (wops, a, b) = diff_word_texts(content.as_str(), mcontent.as_str());
    let wm = count_matched(wops.as_slice());
    let wsim = similarity(wm, a as u128 + b as u128);
    score_window(lsim, wsim, wl, mts.len())
}

/// Whether a best-so-far state stays within a target of `n` lines and the score bounds.
pub open spec fn fuzzy_bounded(st: FuzzyBestView, n: nat) -> bool {
    &&& -(ONE as int) <= st.0 <= ONE
    &&& -(ONE as int) <= st.1 <= ONE
    &&& forall|i: int| 0 <= i < st.2.len() ==> #[trigger] st.2[i].0 + st.2[i].1 <= n && st.2[i].1 >= 1
}

impl FuzzyBest {
    /// The state before any window has been scored.
    pub fn new() -> (r: FuzzyBest)
        ensures
            r@ == fuzzy_start(),
    {
        FuzzyBest { best_score: -(ONE as i64), best_ratio: -(ONE as i64), candidates: Vec::new() }
    }

    /// Takes the window `(start, wl)` with the given score and similarity into account.
    pub fn consider(&mut self, start: usize, wl: usize, score: i64, ratio: i64, match_len: usize)
        ensures
            final(self)@ == consider(old(self)@, (start, wl), score as int, ratio as int, match_len as nat),
    {
        if score > self.best_score {
            self.best_score = score;
            self.best_ratio = ratio;
            let mut v: Vec<(usize, usize)> = Vec::new();
            v.push((start, wl));
            self.candidates = v;
            proof {
                assert(self.candidates@ =~= seq![(start, wl)]);
            }
        } else if score == self.best_score {
            if self.candidates.len() == 0 {
                let mut v: Vec<(usize, usize)> = Vec::new();
                v.push((start, wl));
                self.candidates = v;
                proof {
                    assert(self.candidates@ =~= seq![(start, wl)]);
                }
            } else {
                let best_len = self.candidates[0].1;
                let d_new = if wl >= match_len { wl - match_len } else { match_len - wl };
                let d_best = if best_len >= match_len { best_len - match_len } else { match_len - best_len };
                if d_new < d_best {
                    self.best_ratio = ratio;
                    let mut v: Vec<(usize, usize)> = Vec::new();
                    v.push((start, wl));
                    self.candidates = v;
                    proof {
                        assert(self.candidates@ =~= seq![(start, wl)]);
                    }
                } else if d_new == d_best {
                    self.candidates.push((start, wl));
                }
            }
        }
    }
}

/// What the fuzzy search concludes from its best windows (see `fuzzy_verdict`).
pub fn conclude_fuzzy(best: &FuzzyBest, hint: Option<usize>, fuzz: u32) -> (r: Option<
    Result<(HunkLocation, MatchType), HunkApplyError>,
>)
    requires
        best.best_ratio <= ONE,
        forall|i: int| 0 <= i < best.candidates@.len() ==> #[trigger] best.candidates@[i].0 < usize::MAX,
    ensures
        r matches Some(Ok((loc, _))) ==> exists|i: int|
            0 <= i < best.candidates@.len() && #[trigger] best.candidates@[i] == (loc.start_index, loc.length),
        match r {
            Some(x) => fuzzy_verdict(best@, hint, fuzz) == Some(located_view(x)),
            None => fuzzy_verdict(best@, hint, fuzz) == None::<Located>,
        },
{
    let cands = &best.candidates;
    if best.best_ratio >= fuzz as i64 {
        let score = best.best_ratio as u64;
        if cands.len() == 1 {
            proof {
                assert(best.candidates@[0] == (cands@[0].0, cands@[0].1));
            }
            return Some(Ok((HunkLocation { start_index: cands[0].0, length: cands[0].1 }, MatchType::Fuzzy { score })));
        }
        let ghost starts_spec = cands@.map_values(|w: (usize, usize)| w.0);
        let mut starts: Vec<usize> = Vec::new();
        let mut i: usize = 0;
        while i < cands.len()
            invariant
                i <= cands@.len(),
                starts@ == starts_spec.take(i as int),
                starts_spec == cands@.map_values(|w: (usize, usize)| w.0),
            decreases cands.len() - i,
        {
            starts.push(cands[i].0);
            i += 1;
            proof {
                assert(starts@ =~= starts_spec.take(i as int));
            }
        }
        proof {
            assert(starts@ =~= starts_spec);
        }
        match hint {
            Some(line) => {
                if starts.len() > 0 {
                    match nearest_index(&starts, line) {
                        Some(k) => {
                            proof {
                                let kk = choose|kk: int| nearest_at(starts@, line, kk);
                                if kk != k as int {
                                    assert(hint_distance(starts@[kk], line) < hint_distance(starts@[k as int], line));
                                    assert(hint_distance(starts@[k as int], line) < hint_distance(starts@[kk], line));
                                }
                            }
                            proof {
                                assert(best.candidates@[k as int] == (cands@[k as int].0, cands@[k as int].1));
                            }
                            return Some(Ok((HunkLocation { start_index: cands[k].0, length: cands[k].1 }, MatchType::Fuzzy { score })));
                        },
                        None => {},
                    }
                }
                Some(Err(HunkApplyError::AmbiguousFuzzyMatch(copy_pairs(cands))))
            },
            None => Some(Err(HunkApplyError::AmbiguousFuzzyMatch(copy_pairs(cands)))),
        }
    } else if best.best_ratio >= 0 {
        let location = if cands.len() > 0 {
            HunkLocation { start_index: cands[0].0, length: cands[0].1 }
        } else {
            HunkLocation { start_index: 0, length: 0 }
        };
        Some(Err(HunkApplyError::FuzzyMatchBelowThreshold { best_score: best.best_ratio as u64, threshold: fuzz, location }))
    } else {
        None
    }
}

fn copy_pairs(v: &Vec<(usize, usize)>) -> (r: Vec<(usize, usize)>)
    ensures
        r@ == v@,
{
    let mut w: Vec<(usize, usize)> = Vec::new();
    let mut i: usize = 0;
    while i < v.len()
        invariant
            i <= v@.len(),
            w@ == v@.take(i as int),
        decreases v.len() - i,
    {
        w.push(v[i]);
        i += 1;
        proof {
            assert(w@ =~= v@.take(i as int));
        }
    }
    proof {
        assert(w@ =~= v@);
    }
    w
}


// ---------------------------------------------------------------------------
// Executable window scan and the whole search
// ---------------------------------------------------------------------------

proof fn lemma_fold_append(
    tt: Seq<Seq<char>>,
    mt: Seq<Seq<char>>,
    st: FuzzyBestView,
    a: Seq<(usize, usize)>,
    b: Seq<(usize, usize)>,
)
    ensures
        fold_windows(tt, mt, st, a + b) == fold_windows(tt, mt, fold_windows(tt, mt, st, a), b),
    decreases b.len(),
{
    if b.len() == 0 {
        assert(a + b =~= a);
    } else {
        lemma_fold_append(tt, mt, st, a, b.drop_last());
        assert((a + b).drop_last() =~= a + b.drop_last());
    }
}

pub(crate) proof fn lemma_consider_bounded(st: FuzzyBestView, w: (usize, usize), score: int, ratio: int, len: nat, n: nat)
    requires
        fuzzy_bounded(st, n),
        -(ONE as int) <= score <= ONE,
        -(ONE as int) <= ratio <= ONE,
        w.0 + w.1 <= n,
        w.1 >= 1,
    ensures
        fuzzy_bounded(consider(st, w, score, ratio, len), n),
{
    let r = consider(st, w, score, ratio, len);
    if r.2 == st.2.push(w) {
        assert forall|i: int| 0 <= i < r.2.len() implies #[trigger] r.2[i].0 + r.2[i].1 <= n && r.2[i].1 >= 1 by {
            if i < st.2.len() {
                assert(r.2[i] == st.2[i]);
            }
        }
    }
}

/// Scores every window of length `wl` within `rs..rs + avail`, by start.
fn scan_windows_of_len(
    tts: &Vec<String>,
    mts: &Vec<String>,
    mcontent: &String,
    rs: usize,
    avail: usize,
    wl: usize,
    best: &mut FuzzyBest,
)
    requires
        1 <= wl <= avail,
        rs + avail <= tts@.len(),
        mts@.len() > 0,
        mcontent@ == join(mts.deep_view(), seq!['\n']),
        fuzzy_bounded(old(best)@, tts@.len()),
    ensures
        final(best)@ == fold_windows(tts.deep_view(), mts.deep_view(), old(best)@, windows_of_len(rs as nat, avail as nat, wl as nat)),
        fuzzy_bounded(final(best)@, tts@.len()),
{
    let ghost tt = tts.deep_view();
    let ghost mt = mts.deep_view();
    let ghost st0 = best@;
    let ghost ws = windows_of_len(rs as nat, avail as nat, wl as nat);
    let last = avail - wl;
    let total = tts.len();
    let mut i: usize = 0;
    proof {
        assert(ws.take(0) =~= Seq::<(usize, usize)>::empty());
    }
    while i <= last
        invariant
            1 <= wl <= avail,
            last == avail - wl,
            total == tts@.len(),
            rs + avail <= tts@.len(),
            mts@.len() > 0,
            mcontent@ == join(mts.deep_view(), seq!['\n']),
            tt == tts.deep_view(),
            mt == mts.deep_view(),
            ws == windows_of_len(rs as nat, avail as nat, wl as nat),
            ws.len() == last + 1,
            i <= last + 1,
            best@ == fold_windows(tt, mt, st0, ws.take(i as int)),
            fuzzy_bounded(best@, tts@.len()),
        decreases last + 1 - i,
    {
        let (score, ratio) = score_at(tts, mts, mcontent, rs + i, wl);
        proof {
            lemma_consider_bounded(best@, ((rs + i) as usize, wl), score as int, ratio as int, mt.len(), tts@.len() as nat);
            assert(ws.take(i + 1).drop_last() =~= ws.take(i as int));
            assert(ws.take(i + 1).last() == ((rs + i) as usize, wl));
        }
        best.consider(rs + i, wl, score, ratio, mts.len());
        i += 1;
    }
    proof {
        assert(ws.take(i as int) =~= ws);
    }
}

/// Scores the windows of every length in `lo..=hi` within `rs..rs + avail`.
fn scan_range(
    tts: &Vec<String>,
    mts: &Vec<String>,
    mcontent: &String,
    rs: usize,
    avail: usize,
    lo: usize,
    hi: usize,
    best: &mut FuzzyBest,
)
    requires
        1 <= lo <= hi + 1,
        hi < usize::MAX,
        rs + avail <= tts@.len(),
        mts@.len() > 0,
        mcontent@ == join(mts.deep_view(), seq!['\n']),
        fuzzy_bounded(old(best)@, tts@.len()),
    ensures
        final(best)@ == fold_windows(tts.deep_view(), mts.deep_view(), old(best)@, windows_up_to(rs as nat, avail as nat, lo as nat, hi as nat)),
        fuzzy_bounded(final(best)@, tts@.len()),
{
    let ghost tt = tts.deep_view();
    let ghost mt = mts.deep_view();
    let ghost st0 = best@;
    let mut wl = lo;
    proof {
        assert(windows_up_to(rs as nat, avail as nat, lo as nat, (lo - 1) as nat) =~= Seq::<(usize, usize)>::empty());
    }
    while wl <= hi
        invariant
            1 <= lo <= wl,
            wl <= hi + 1,
            hi < usize::MAX,
            rs + avail <= tts@.len(),
            mts@.len() > 0,
            mcontent@ == join(mts.deep_view(), seq!['\n']),
            tt == tts.deep_view(),
            mt == mts.deep_view(),
            best@ == fold_windows(tt, mt, st0, windows_up_to(rs as nat, avail as nat, lo as nat, (wl - 1) as nat)),
            fuzzy_bounded(best@, tts@.len()),
        decreases hi + 1 - wl,
    {
        let ghost before = windows_up_to(rs as nat, avail as nat, lo as nat, (wl - 1) as nat);
        let ghost seg = windows_of_len(rs as nat, avail as nat, wl as nat);
        proof {
            assert(windows_up_to(rs as nat, avail as nat, lo as nat, wl as nat) == before + seg);
            lemma_fold_append(tt, mt, st0, before, seg);
        }
        if wl <= avail {
            scan_windows_of_len(tts, mts, mcontent, rs, avail, wl, best);
        } else {
            proof {
                assert(seg =~= Seq::<(usize, usize)>::empty());
            }
        }
        wl += 1;
    }
}

/// Scores the windows in every search range, range by range.
fn scan_ranges(
    tts: &Vec<String>,
    mts: &Vec<String>,
    mcontent: &String,
    ranges: &Vec<(usize, usize)>,
    lo: usize,
    hi: usize,
    best: &mut FuzzyBest,
)
    requires
        1 <= lo <= hi + 1,
        hi < usize::MAX,
        ranges_within(ranges@, tts@.len()),
        mts@.len() > 0,
        mcontent@ == join(mts.deep_view(), seq!['\n']),
        fuzzy_bounded(old(best)@, tts@.len()),
    ensures
        final(best)@ == fold_windows(tts.deep_view(), mts.deep_view(), old(best)@, windows_in(ranges@, lo as nat, hi as nat)),
        fuzzy_bounded(final(best)@, tts@.len()),
{
    let ghost tt = tts.deep_view();
    let ghost mt = mts.deep_view();
    let ghost st0 = best@;
    let mut j: usize = 0;
    proof {
        assert(ranges@.take(0) =~= Seq::<(usize, usize)>::empty());
    }
    while j < ranges.len()
        invariant
            1 <= lo <= hi + 1,
            hi < usize::MAX,
            j <= ranges@.len(),
            ranges_within(ranges@, tts@.len()),
            mts@.len() > 0,
            mcontent@ == join(mts.deep_view(), seq!['\n']),
            tt == tts.deep_view(),
            mt == mts.deep_view(),
            best@ == fold_windows(tt, mt, st0, windows_in(ranges@.take(j as int), lo as nat, hi as nat)),
            fuzzy_bounded(best@, tts@.len()),
        decreases ranges.len() - j,
    {
        let (rs, re) = ranges[j];
        proof {
            assert(ranges@[j as int].0 <= ranges@[j as int].1 && ranges@[j as int].1 <= tts@.len());
            let before = windows_in(ranges@.take(j as int), lo as nat, hi as nat);
            let seg = windows_up_to(rs as nat, (re - rs) as nat, lo as nat, hi as nat);
            assert(ranges@.take(j + 1).drop_last() =~= ranges@.take(j as int));
            assert(windows_in(ranges@.take(j + 1), lo as nat, hi as nat) == before + seg);
            lemma_fold_append(tt, mt, st0, before, seg);
        }
        scan_range(tts, mts, mcontent, rs, re - rs, lo, hi, best);
        j += 1;
    }
    proof {
        assert(ranges@.take(ranges@.len() as int) =~= ranges@);
    }
}

/// Finds where the match block `mb` goes in the target lines `tl` (see `locate`).
pub(crate) fn locate_lines(mb: &Vec<Vec<char>>, tl: &Vec<Vec<char>>, hint: Option<usize>, fuzz: u32) -> (r: Result<
    (HunkLocation, MatchType),
    HunkApplyError,
>)
    requires
        tl@.len() + 3 * mb@.len() + MIN_SEARCH_RADIUS <= usize::MAX,
    ensures
        located_view(r) == locate(views(mb@), views(tl@), hint, fuzz),
        r matches Ok((loc, _)) ==> loc.start_index + loc.length <= tl@.len(),
        r matches Ok((loc, MatchType::Fuzzy { .. })) ==> loc.length >= 1,
        r matches Err(HunkApplyError::FuzzyMatchBelowThreshold { location, .. }) ==> location.start_index
            + location.length <= tl@.len(),
{
    let m = mb.len();
    let n = tl.len();
    if m == 0 {
        if n == 0 {
            return Ok((HunkLocation { start_index: 0, length: 0 }, MatchType::Exact));
        } else {
            return Err(HunkApplyError::ContextNotFound);
        }
    }
    let exact = find_exact_matches(tl, mb);
    match tie_break_with_line_number(exact, hint) {
        Ok(Some(i)) => {
            return Ok((HunkLocation { start_index: i, length: m }, MatchType::Exact));
        },
        Err(v) => {
            return Err(HunkApplyError::AmbiguousExactMatch(v));
        },
        Ok(None) => {},
    }
    let ttc = trim_all_ends(tl);
    let mtc = trim_all_ends(mb);
    let stripped = find_exact_matches(&ttc, &mtc);
    match tie_break_with_line_number(stripped, hint) {
        Ok(Some(i)) => {
            return Ok((HunkLocation { start_index: i, length: m }, MatchType::ExactIgnoringWhitespace));
        },
        Err(v) => {
            return Err(HunkApplyError::AmbiguousExactMatch(v));
        },
        Ok(None) => {},
    }
    if fuzz > 0 {
        let tts = strings_of(&ttc);
        let mts = strings_of(&mtc);
        let mcontent = crate::text::join_lines(mts.as_slice());
        let fd = if m / 4 < 3 {
            3
        } else if m / 4 > 8 {
            8
        } else {
            m / 4
        };
        let lo = if m >= fd && m - fd >= 1 { m - fd } else { 1 };
        let hi = m + fd;
        let ranges = find_search_ranges(&mtc, &ttc);
        let mut best = FuzzyBest::new();
        scan_ranges(&tts, &mts, &mcontent, &ranges, lo, hi, &mut best);
        proof {
            assert forall|i: int| 0 <= i < best.candidates@.len() implies #[trigger] best.candidates@[i].0 < usize::MAX by {
                assert(best@.2[i].0 + best@.2[i].1 <= n && best@.2[i].1 >= 1);
            }
        }
        match conclude_fuzzy(&best, hint, fuzz) {
            Some(r) => {
                proof {
                    if r is Ok {
                        let loc = r->Ok_0.0;
                        let i = choose|i: int| 0 <= i < best.candidates@.len() && #[trigger] best.candidates@[i] == (loc.start_index, loc.length);
                        assert(best@.2[i].0 + best@.2[i].1 <= n && best@.2[i].1 >= 1);
                    }
                    if best@.2.len() > 0 {
                        assert(best@.2[0].0 + best@.2[0].1 <= n);
                    }
                }
                return r;
            },
            None => {},
        }
        if n > 0 && n < m {
            let tts_refs = crate::diffing::str_refs(tts.as_slice());
            let mts_refs = crate::diffing::str_refs(mts.as_slice());
            let lops = diff_line_seqs(tts_refs.as_slice(), mts_refs.as_slice());
            let lm = count_matched(lops.as_slice());
            let sim = similarity(lm, n as u128 + m as u128);
            let threshold: i64 = if fuzz as i64 - 100_000_000 > 500_000_000 {
                fuzz as i64 - 100_000_000
            } else {
                500_000_000
            };
            if sim as i64 >= threshold {
                return Ok((HunkLocation { start_index: 0, length: n }, MatchType::Fuzzy { score: sim }));
            }
        }
    }
    Err(HunkApplyError::ContextNotFound)
}

// ---------------------------------------------------------------------------
// Public search API
// ---------------------------------------------------------------------------

/// Whether `n` target lines and a hunk of `h` lines are small enough for the search's
/// arithmetic on line counts (every target that fits in memory is).
pub open spec fn search_fits(n: nat, h: nat) -> bool {
    n + 3 * h + MIN_SEARCH_RADIUS <= usize::MAX
}

/// A strategy for finding the location to apply a hunk to a slice of lines.
pub trait HunkFinder {
    /// Finds the location to apply `hunk` to `target_lines`: `Ok((location, match type))`
    /// on success, or the reason no suitable location was found.
    fn find_location<T: LineText>(&self, hunk: &Hunk, target_lines: &[T]) -> (r: Result<
        (HunkLocation, MatchType),
        HunkApplyError,
    >)
        requires
            hunk.well_formed(),
            search_fits(target_lines@.len(), hunk.lines@.len()),
    ;
}

/// The default, built-in strategy for finding hunk locations: exact match, exact match
/// ignoring trailing whitespace, then a flexible fuzzy match; line number hints from
/// the patch resolve ambiguities.
#[derive(Debug)]
pub struct DefaultHunkFinder<'a> {
    options: &'a ApplyOptions,
}

impl<'a> DefaultHunkFinder<'a> {
    /// The options this finder searches with.
    pub closed spec fn options(&self) -> ApplyOptions {
        *self.options
    }

    /// Creates a new finder with the given options.
    pub fn new(options: &'a ApplyOptions) -> (r: Self)
        ensures
            r.options() == *options,
    {
        DefaultHunkFinder { options }
    }
}

impl<'a> HunkFinder for DefaultHunkFinder<'a> {
    fn find_location<T: LineText>(&self, hunk: &Hunk, target_lines: &[T]) -> (r: Result<
        (HunkLocation, MatchType),
        HunkApplyError,
    >)
        ensures
            located_view(r) == locate(
                match_block(hunk.text()),
                texts(target_lines@),
                hunk.old_start_line,
                self.options().fuzz_factor,
            ),
            r matches Ok((loc, _)) ==> loc.start_index + loc.length <= target_lines@.len(),
            r matches Ok((loc, MatchType::Fuzzy { .. })) ==> loc.length >= 1,
            r matches Err(HunkApplyError::FuzzyMatchBelowThreshold { location, .. }) ==> location.start_index
                + location.length <= target_lines@.len(),
    {
        let block = hunk.get_match_block();
        let mb = line_chars(block.as_slice());
        proof {
            assert(views(mb@) =~= match_block(hunk.text()));
            lemma_stripped_where_len(hunk.text(), |l: Seq<char>| !starts_with_char(l, '+'));
        }
        let tl = line_chars(target_lines);
        locate_lines(&mb, &tl, hunk.old_start_line, self.options.fuzz_factor)
    }
}

/// Finds the location to apply a hunk to a slice of lines without modifying it.
pub fn find_hunk_location_in_lines<T: LineText>(hunk: &Hunk, target_lines: &[T], options: &ApplyOptions) -> (r: Result<
    (HunkLocation, MatchType),
    HunkApplyError,
>)
    requires
        hunk.well_formed(),
        search_fits(target_lines@.len(), hunk.lines@.len()),
    ensures
        located_view(r) == locate(match_block(hunk.text()), texts(target_lines@), hunk.old_start_line, options.fuzz_factor),
        r matches Ok((loc, _)) ==> loc.start_index + loc.length <= target_lines@.len(),
        r matches Ok((loc, MatchType::Fuzzy { .. })) ==> loc.length >= 1,
        r matches Err(HunkApplyError::FuzzyMatchBelowThreshold { location, .. }) ==> location.start_index
            + location.length <= target_lines@.len(),
{
    let finder = DefaultHunkFinder::new(options);
    finder.find_location(hunk, target_lines)
}

/// Finds the location to apply a hunk to a text without modifying it; the text is
/// split into lines as `str::lines` splits it.
pub fn find_hunk_location(hunk: &Hunk, target_content: &str, options: &ApplyOptions) -> (r: Result<
    (HunkLocation, MatchType),
    HunkApplyError,
>)
    requires
        hunk.well_formed(),
        search_fits(lines(target_content@).len(), hunk.lines@.len()),
    ensures
        located_view(r) == locate(match_block(hunk.text()), lines(target_content@), hunk.old_start_line, options.fuzz_factor),
        r matches Ok((loc, _)) ==> loc.start_index + loc.length <= lines(target_content@).len(),
        r matches Ok((loc, MatchType::Fuzzy { .. })) ==> loc.length >= 1,
        r matches Err(HunkApplyError::FuzzyMatchBelowThreshold { location, .. }) ==> location.start_index
            + location.length <= lines(target_content@).len(),
{
    let chars = chars_of(target_content);
    let tl = split_lines(&chars);
    let block = hunk.get_match_block();
    let mb = line_chars(block.as_slice());
    proof {
        assert(views(mb@) =~= match_block(hunk.text()));
        lemma_stripped_where_len(hunk.text(), |l: Seq<char>| !starts_with_char(l, '+'));
    }
    locate_lines(&mb, &tl, hunk.old_start_line, options.fuzz_factor)
}

} // verus!
