//! Applying hunks to lines: one hunk in place, a patch step by step, and a
//! patch to whole contents.
use crate::finder::{find_hunk_location_in_lines, locate, search_fits, MIN_SEARCH_RADIUS};
use crate::hunk::{changes_in, lemma_stripped_where_len, match_block, replace_block, Hunk};
use crate::options::ApplyOptions;
use crate::outcome::{HunkApplyError, HunkLocation, MatchType};
use crate::patch::Patch;
use crate::report::{status_views, ApplyResult, HunkApplyStatus, InMemoryResult, StatusView};
use crate::text::{chars_of, join, join_lines, lines, split_lines, starts_with_char, texts, views, LineText};
use vstd::prelude::*;

verus! {

/// Whether applying `h` cannot panic: a hunk with changes must have well-formed lines.
pub open spec fn appliable(h: Hunk) -> bool {
    changes_in(h.text()) ==> h.well_formed()
}

/// The status of applying `h` to `target`, and the lines afterwards: a hunk without
/// changes is skipped; otherwise its match block is located and the located lines are
/// replaced by its replace block; when it cannot be located, the lines stay as they are.
pub open spec fn apply_hunk(h: Hunk, target: Seq<Seq<char>>, fuzz: u32) -> (StatusView, Seq<Seq<char>>) {
    if !changes_in(h.text()) {
        (StatusView::SkippedNoChanges, target)
    } else {
        match locate(match_block(h.text()), target, h.old_start_line, fuzz) {
            Ok((loc, mt)) => {
                let s = loc.start_index as int;
                let e = s + loc.length;
                (
                    StatusView::Applied { location: loc, match_type: mt, replaced_lines: target.subrange(s, e) },
                    target.subrange(0, s) + replace_block(h.text()) + target.subrange(e, target.len() as int),
                )
            },
            Err(e) => (StatusView::Failed(e), target),
        }
    }
}

/// The statuses of applying the hunks `hs` one after the other to `target`, and the
/// lines afterwards.
pub open spec fn apply_hunks(hs: Seq<Hunk>, target: Seq<Seq<char>>, fuzz: u32) -> (Seq<StatusView>, Seq<Seq<char>>)
    decreases hs.len(),
{
    if hs.len() == 0 {
        (Seq::empty(), target)
    } else {
        let before = apply_hunks(hs.drop_last(), target, fuzz);
        let step = apply_hunk(hs.last(), before.1, fuzz);
        (before.0.push(step.0), step.1)
    }
}

/// The content made of `ls` joined by newlines, with a final newline when
/// `ends_with_newline` holds and the content is not empty.
pub open spec fn render(ls: Seq<Seq<char>>, ends_with_newline: bool) -> Seq<char> {
    let c = join(ls, seq!['\n']);
    if ends_with_newline && c.len() > 0 {
        c.push('\n')
    } else {
        c
    }
}

/// The number of lines of all the hunks in `hs`.
pub open spec fn total_lines(hs: Seq<Hunk>) -> nat
    decreases hs.len(),
{
    if hs.len() == 0 {
        0
    } else {
        hs[0].lines@.len() + total_lines(hs.drop_first())
    }
}

/// Whether every hunk of `hs` can be applied without panicking.
pub open spec fn all_appliable(hs: Seq<Hunk>) -> bool {
    forall|i: int| 0 <= i < hs.len() ==> appliable(#[trigger] hs[i])
}

/// Whether `n` lines and the hunks `hs` are small enough for the line arithmetic of
/// applying them all (every content that fits in memory is).
pub open spec fn patch_fits(n: nat, hs: Seq<Hunk>) -> bool {
    n + 4 * total_lines(hs) + MIN_SEARCH_RADIUS <= usize::MAX
}

proof fn lemma_texts_deep_view(v: &Vec<String>)
    ensures
        texts(v@) == v.deep_view(),
{
    assert(texts(v@) =~= v.deep_view());
}

/// Applies a single hunk to a vector of lines in place, and reports how.
#[verifier::rlimit(40)]
pub fn apply_hunk_to_lines(hunk: &Hunk, target_lines: &mut Vec<String>, options: &ApplyOptions) -> (r: HunkApplyStatus)
    requires
        appliable(*hunk),
        search_fits(old(target_lines)@.len(), hunk.lines@.len()),
    ensures
        (r@, final(target_lines).deep_view()) == apply_hunk(*hunk, old(target_lines).deep_view(), options.fuzz_factor),
        final(target_lines)@.len() <= old(target_lines)@.len() + hunk.lines@.len(),
        r matches HunkApplyStatus::Applied { location, replaced_lines, .. } ==> ({
            let s = location.start_index as int;
            let k = replace_block(hunk.text()).len() as int;
            let after = final(target_lines).deep_view();
            &&& s + k <= after.len()
            &&& after.subrange(s, s + k) == replace_block(hunk.text())
            &&& after.subrange(0, s) + replaced_lines.deep_view() + after.subrange(s + k, after.len() as int)
                == old(target_lines).deep_view()
        }),
{
    if !hunk.has_changes() {
        return HunkApplyStatus::SkippedNoChanges;
    }
    proof {
        lemma_texts_deep_view(target_lines);
    }
    match find_hunk_location_in_lines(hunk, target_lines.as_slice(), options) {
        Ok((location, match_type)) => {
            let replace = hunk.get_replace_block();
            proof {
                lemma_stripped_where_len(hunk.text(), |l: Seq<char>| !starts_with_char(l, '-'));
            }
            let ghost old_lines = target_lines.deep_view();
            let ghost old_seq = target_lines@;
            let s = location.start_index;
            let len = location.length;
            let mut middle = target_lines.split_off(s);
            let mut rest = middle.split_off(len);
            let mut i: usize = 0;
            while i < replace.len()
                invariant
                    i <= replace@.len(),
                    target_lines@ == old_seq.subrange(0, s as int) + target_lines@.subrange(s as int, s + i),
                    target_lines@.len() == s + i,
                    target_lines.deep_view().subrange(s as int, s + i) == replace.deep_view().take(i as int),
                    target_lines.deep_view().subrange(0, s as int) == old_lines.subrange(0, s as int),
                decreases replace.len() - i,
            {
                let line = String::from_str(replace[i]);
                let ghost before = target_lines.deep_view();
                target_lines.push(line);
                i += 1;
                proof {
                    assert(target_lines.deep_view() =~= before.push(line@));
                    assert(target_lines.deep_view().subrange(s as int, s + i) =~= replace.deep_view().take(i as int));
                    assert(target_lines.deep_view().subrange(0, s as int) =~= old_lines.subrange(0, s as int));
                    assert(target_lines@ =~= old_seq.subrange(0, s as int) + target_lines@.subrange(s as int, s + i));
                }
            }
            let ghost mid = target_lines.deep_view();
            let ghost rest_view = rest.deep_view();
            target_lines.append(&mut rest);
            proof {
                assert(rest_view =~= old_lines.subrange(s + len, old_lines.len() as int));
                assert(mid =~= old_lines.subrange(0, s as int) + replace_block(hunk.text())) by {
                    assert(replace.deep_view().take(replace@.len() as int) =~= replace.deep_view());
                    assert(mid =~= mid.subrange(0, s as int) + mid.subrange(s as int, mid.len() as int));
                }
                assert(target_lines.deep_view() =~= mid + rest_view);
                assert(middle.deep_view() =~= old_lines.subrange(s as int, s + len));
            }
            proof {
                let k = replace_block(hunk.text()).len() as int;
                let after = target_lines.deep_view();
                assert(after.subrange(s as int, s + k) =~= replace_block(hunk.text()));
                assert(after.subrange(0, s as int) + middle.deep_view() + after.subrange(s + k, after.len() as int)
                    =~= old_lines);
            }
            HunkApplyStatus::Applied { location, match_type, replaced_lines: middle }
        },
        Err(error) => HunkApplyStatus::Failed(error),
    }
}

/// Applies the hunks of a patch one by one, keeping the lines as they stand after
/// each step so that they can be inspected between steps.
#[derive(Debug)]
pub struct HunkApplier<'a> {
    hunks: &'a [Hunk],
    next_hunk: usize,
    current_lines: Vec<String>,
    options: &'a ApplyOptions,
    patch_ends_with_newline: bool,
}

pub(crate) proof fn lemma_total_lines_skip(hs: Seq<Hunk>, k: int)
    requires
        0 <= k < hs.len(),
    ensures
        total_lines(hs.skip(k)) == hs[k].lines@.len() + total_lines(hs.skip(k + 1)),
{
    assert(hs.skip(k).drop_first() =~= hs.skip(k + 1));
}

proof fn lemma_apply_hunks_take(hs: Seq<Hunk>, target: Seq<Seq<char>>, fuzz: u32, k: int)
    requires
        0 <= k < hs.len(),
    ensures
        apply_hunks(hs.take(k + 1), target, fuzz) == ({
            let before = apply_hunks(hs.take(k), target, fuzz);
            let step = apply_hunk(hs[k], before.1, fuzz);
            (before.0.push(step.0), step.1)
        }),
{
    assert(hs.take(k + 1).drop_last() =~= hs.take(k));
}

impl<'a> HunkApplier<'a> {
    /// The hunks this applier goes through.
    pub closed spec fn hunks(&self) -> Seq<Hunk> {
        self.hunks@
    }

    /// How many hunks have been applied (or tried) so far.
    pub closed spec fn position(&self) -> nat {
        self.next_hunk as nat
    }

    /// The lines as they stand now.
    pub closed spec fn lines(&self) -> Seq<Seq<char>> {
        self.current_lines.deep_view()
    }

    /// The fuzz factor the hunks are located with.
    pub closed spec fn fuzz(&self) -> u32 {
        self.options.fuzz_factor
    }

    /// Whether the final content ends with a newline.
    pub closed spec fn ends_with_newline(&self) -> bool {
        self.patch_ends_with_newline
    }

    /// Whether the remaining hunks can be applied: none of them can panic, and the
    /// lines stay within the bounds of the line arithmetic.
    pub open spec fn ready(&self) -> bool {
        &&& self.position() <= self.hunks().len()
        &&& all_appliable(self.hunks().skip(self.position() as int))
        &&& patch_fits(self.lines().len(), self.hunks().skip(self.position() as int))
    }

    /// Creates a new `HunkApplier` to begin a step-by-step patch operation on the given
    /// lines (`None` for a file that does not exist yet).
    pub fn new<T: LineText>(patch: &'a Patch, original_lines: Option<&'a [T]>, options: &'a ApplyOptions) -> (r: Self)
        requires
            all_appliable(patch.hunks@),
            patch_fits(
                match original_lines {
                    Some(ls) => ls@.len(),
                    None => 0,
                },
                patch.hunks@,
            ),
        ensures
            r.hunks() == patch.hunks@,
            r.position() == 0,
            r.lines() == match original_lines {
                Some(ls) => texts(ls@),
                None => Seq::<Seq<char>>::empty(),
            },
            r.fuzz() == options.fuzz_factor,
            r.ends_with_newline() == patch.ends_with_newline,
            r.ready(),
    {
        let mut current_lines: Vec<String> = Vec::new();
        match original_lines {
            Some(ls) => {
                let mut i: usize = 0;
                while i < ls.len()
                    invariant
                        i <= ls@.len(),
                        current_lines.deep_view() == texts(ls@).take(i as int),
                    decreases ls.len() - i,
                {
                    let s = String::from_str(ls[i].as_text());
                    let ghost before = current_lines.deep_view();
                    current_lines.push(s);
                    i += 1;
                    proof {
                        assert(current_lines.deep_view() =~= before.push(s@));
                        assert(current_lines.deep_view() =~= texts(ls@).take(i as int));
                    }
                }
                proof {
                    assert(current_lines.deep_view() =~= texts(ls@));
                }
            },
            None => {
                proof {
                    assert(current_lines.deep_view() =~= Seq::<Seq<char>>::empty());
                }
            },
        }
        let r = HunkApplier {
            hunks: patch.hunks.as_slice(),
            next_hunk: 0,
            current_lines,
            options,
            patch_ends_with_newline: patch.ends_with_newline,
        };
        proof {
            assert(r.hunks().skip(0) =~= r.hunks());
        }
        r
    }

    /// Returns the current lines, reflecting all hunks applied so far.
    pub fn current_lines(&self) -> (r: &[String])
        ensures
            r.deep_view() == self.lines(),
    {
        let r = self.current_lines.as_slice();
        proof {
            assert(r.deep_view() =~= self.current_lines.deep_view());
        }
        r
    }

    /// Consumes the applier and returns the final vector of lines.
    pub fn into_lines(self) -> (r: Vec<String>)
        ensures
            r.deep_view() == self.lines(),
    {
        self.current_lines
    }

    /// Consumes the applier and returns the final content: the lines joined by newlines,
    /// with a final newline when the patch says the file ends with one.
    pub fn into_content(self) -> (r: String)
        ensures
            r@ == render(self.lines(), self.ends_with_newline()),
    {
        let mut new_content = join_lines(self.current_lines.as_slice());
        if self.patch_ends_with_newline && new_content.as_str().unicode_len() > 0 {
            new_content.append("\n");
            proof {
                reveal_strlit("\n");
            }
        }
        new_content
    }

    /// Applies the next hunk and reports how, or returns `None` when every hunk has been
    /// applied.
    pub fn next(&mut self) -> (r: Option<HunkApplyStatus>)
        requires
            old(self).ready(),
        ensures
            final(self).ready(),
            final(self).hunks() == old(self).hunks(),
            final(self).fuzz() == old(self).fuzz(),
            final(self).ends_with_newline() == old(self).ends_with_newline(),
            old(self).position() == old(self).hunks().len() ==> r is None && *final(self) == *old(self),
            old(self).position() < old(self).hunks().len() ==> {
                &&& r matches Some(st)
                &&& final(self).position() == old(self).position() + 1
                &&& (st@, final(self).lines()) == apply_hunk(
                    old(self).hunks()[old(self).position() as int],
                    old(self).lines(),
                    old(self).fuzz(),
                )
            },
    {
        if self.next_hunk >= self.hunks.len() {
            return None;
        }
        let k = self.next_hunk;
        proof {
            let rest = self.hunks@.skip(k as int);
            assert(rest[0] == self.hunks@[k as int]);
            assert(appliable(rest[0]));
            lemma_total_lines_skip(self.hunks@, k as int);
        }
        let hunk = &self.hunks[k];
        let status = apply_hunk_to_lines(hunk, &mut self.current_lines, self.options);
        self.next_hunk = k + 1;
        proof {
            assert forall|i: int| 0 <= i < self.hunks@.skip(k + 1).len() implies appliable(
                #[trigger] self.hunks@.skip(k + 1)[i],
            ) by {
                assert(self.hunks@.skip(k + 1)[i] == self.hunks@.skip(k as int)[i + 1]);
            }
        }
        Some(status)
    }
}

/// Applies a patch to a slice of lines (`None` for a file that does not exist yet) and
/// returns the new content with a report of every hunk.
pub fn apply_patch_to_lines<T: LineText>(patch: &Patch, original_lines: Option<&[T]>, options: &ApplyOptions) -> (r: InMemoryResult)
    requires
        all_appliable(patch.hunks@),
        patch_fits(
            match original_lines {
                Some(ls) => ls@.len(),
                None => 0,
            },
            patch.hunks@,
        ),
    ensures
        ({
            let start = match original_lines {
                Some(ls) => texts(ls@),
                None => Seq::<Seq<char>>::empty(),
            };
            let done = apply_hunks(patch.hunks@, start, options.fuzz_factor);
            &&& r.report.statuses() == done.0
            &&& r.new_content@ == render(done.1, patch.ends_with_newline)
        }),
{
    let ghost start = match original_lines {
        Some(ls) => texts(ls@),
        None => Seq::<Seq<char>>::empty(),
    };
    let mut applier = HunkApplier::new(patch, original_lines, options);
    let mut hunk_results: Vec<HunkApplyStatus> = Vec::new();
    let total = patch.hunks.len();
    proof {
        assert(patch.hunks@.take(0) =~= Seq::<Hunk>::empty());
        assert(status_views(hunk_results@) =~= Seq::<StatusView>::empty());
    }
    while hunk_results.len() < total
        invariant
            total == patch.hunks@.len(),
            applier.ready(),
            applier.hunks() == patch.hunks@,
            applier.fuzz() == options.fuzz_factor,
            applier.ends_with_newline() == patch.ends_with_newline,
            applier.position() == hunk_results@.len(),
            hunk_results@.len() <= total,
            status_views(hunk_results@) == apply_hunks(patch.hunks@.take(hunk_results@.len() as int), start, options.fuzz_factor).0,
            applier.lines() == apply_hunks(patch.hunks@.take(hunk_results@.len() as int), start, options.fuzz_factor).1,
        decreases total - hunk_results.len(),
    {
        let k = hunk_results.len();
        proof {
            lemma_apply_hunks_take(patch.hunks@, start, options.fuzz_factor, k as int);
        }
        let status = applier.next();
        match status {
            Some(st) => {
                let ghost before = status_views(hunk_results@);
                hunk_results.push(st);
                proof {
                    assert(status_views(hunk_results@) =~= before.push(st@));
                }
            },
            None => {
                proof {
                    assert(false);
                }
                return InMemoryResult { new_content: String::new(), report: ApplyResult { hunk_results } };
            },
        }
    }
    proof {
        assert(patch.hunks@.take(total as int) =~= patch.hunks@);
    }
    let new_content = applier.into_content();
    InMemoryResult { new_content, report: ApplyResult { hunk_results } }
}

/// Applies a patch to a text (`None` for a file that does not exist yet), split into
/// lines as `str::lines` splits it.
pub fn apply_patch_to_content(patch: &Patch, original_content: Option<&str>, options: &ApplyOptions) -> (r: InMemoryResult)
    requires
        all_appliable(patch.hunks@),
        patch_fits(
            match original_content {
                Some(c) => lines(c@).len(),
                None => 0,
            },
            patch.hunks@,
        ),
    ensures
        ({
            let start = match original_content {
                Some(c) => lines(c@),
                None => Seq::<Seq<char>>::empty(),
            };
            let done = apply_hunks(patch.hunks@, start, options.fuzz_factor);
            &&& r.report.statuses() == done.0
            &&& r.new_content@ == render(done.1, patch.ends_with_newline)
        }),
{
    match original_content {
        Some(c) => {
            let chars = chars_of(c);
            let ls = split_lines(&chars);
            let mut strings: Vec<String> = Vec::new();
            let mut i: usize = 0;
            while i < ls.len()
                invariant
                    i <= ls@.len(),
                    strings.deep_view() == views(ls@).take(i as int),
                decreases ls.len() - i,
            {
                let s = crate::text::string_of(&ls[i]);
                let ghost before = strings.deep_view();
                strings.push(s);
                i += 1;
                proof {
                    assert(strings.deep_view() =~= before.push(s@));
                    assert(strings.deep_view() =~= views(ls@).take(i as int));
                }
            }
            proof {
                assert(views(ls@).take(ls@.len() as int) =~= views(ls@));
                assert(texts(strings@) =~= strings.deep_view());
                assert(texts(strings@) =~= lines(c@));
            }
            apply_patch_to_lines(patch, Some(strings.as_slice()), options)
        },
        None => apply_patch_to_lines::<String>(patch, None, options),
    }
}

} // verus!
