//! Sequence diffs from the `similar` crate, and the similarity ratios that the
//! fuzzy search derives from them in exact integer arithmetic.
use crate::text::texts;
use similar::{DiffOp, TextDiff};
use vstd::prelude::*;

verus! {

/// One operation of a diff between an old and a new sequence, as `similar::DiffOp` reports it.
#[derive(Debug, Clone, Copy, PartialEq, Eq)]
pub enum DiffStep {
    Equal(usize, usize, usize),
    Delete(usize, usize, usize),
    Insert(usize, usize, usize),
    Replace(usize, usize, usize, usize),
}

/// The number of elements that the `Equal` steps of `ops` cover.
pub open spec fn matched(ops: Seq<DiffStep>) -> nat
    decreases ops.len(),
{
    if ops.len() == 0 {
        0
    } else {
        matched(ops.drop_last()) + match ops.last() {
            DiffStep::Equal(_, _, len) => len as nat,
            _ => 0nat,
        }
    }
}

/// One, in the billionths in which similarities, scores and thresholds are counted.
pub const ONE: u64 = 1_000_000_000;

/// The similarity `2 * matches / total` of two sequences, in billionths and rounded down;
/// one when both sequences are empty (as `similar::get_diff_ratio`). A ratio lies in
/// `0..=1` (the matched elements are counted in both sequences), so it is one whenever
/// the matches cover the total.
pub open spec fn ratio_of(matches: nat, total: nat) -> int {
    if total == 0 || 2 * matches >= total {
        ONE as int
    } else {
        (2 * (ONE as int) * matches) / (total as int)
    }
}

/// The diff steps that `similar::TextDiff::from_slices` finds between two line sequences.
pub uninterp spec fn line_diff(old: Seq<Seq<char>>, new: Seq<Seq<char>>) -> Seq<DiffStep>;

/// The diff steps that `similar::TextDiff::from_words` finds between two texts, with the
/// numbers of word and whitespace tokens of the old and the new text.
pub uninterp spec fn word_diff(old: Seq<char>, new: Seq<char>) -> (Seq<DiffStep>, usize, usize);

/// The text that `similar`'s `UnifiedDiff` of a line diff writes, with the given
/// context radius and file headers.
pub uninterp spec fn text_unified_diff(
    old: Seq<char>,
    new: Seq<char>,
    context: usize,
    old_header: Seq<char>,
    new_header: Seq<char>,
) -> Seq<char>;

/// The text that `similar::udiff::unified_diff` writes for two texts with the default
/// algorithm, the given context radius and file headers.
pub uninterp spec fn quick_unified_diff(
    old: Seq<char>,
    new: Seq<char>,
    context: usize,
    old_header: Seq<char>,
    new_header: Seq<char>,
) -> Seq<char>;

/// `similar::TextDiff::from_slices(old, new).ops()`, each op converted to a `DiffStep`.
/// Claimed: the steps are the named result of the two line sequences, and the similarity
/// that they give lies in `0..=1`, as `similar` documents for `ratio`.
#[verifier::external_body]
pub(crate) fn diff_line_seqs(old: &[&str], new: &[&str]) -> (r: Vec<DiffStep>)
    ensures
        r@ == line_diff(texts(old@), texts(new@)),
        2 * matched(r@) <= old@.len() + new@.len(),
{
    TextDiff::from_slices(old, new).ops().iter().map(|op| match *op {
        DiffOp::Equal { old_index: o, new_index: n, len: l } => DiffStep::Equal(o, n, l),
        DiffOp::Delete { old_index: o, old_len: l, new_index: n } => DiffStep::Delete(o, l, n),
        DiffOp::Insert { old_index: o, new_index: n, new_len: l } => DiffStep::Insert(o, n, l),
        DiffOp::Replace { old_index: o, old_len: l, new_index: n, new_len: m } => DiffStep::Replace(o, l, n, m),
    }).collect()
}

/// `similar::TextDiff::from_words(old, new)`: its ops, each converted to a `DiffStep`, and the
/// numbers of old and new tokens. Claimed: these are the named result of the two texts, and
/// the similarity that they give lies in `0..=1`, as `similar` documents for `ratio`.
#[verifier::external_body]
pub(crate) fn diff_word_texts(old: &str, new: &str) -> (r: (Vec<DiffStep>, usize, usize))
    ensures
        (r.0@, r.1, r.2) == word_diff(old@, new@),
        2 * matched(r.0@) <= r.1 + r.2,
{
    let d = TextDiff::from_words(old, new);
    let ops = d.ops().iter().map(|op| match *op {
        DiffOp::Equal { old_index: o, new_index: n, len: l } => DiffStep::Equal(o, n, l),
        DiffOp::Delete { old_index: o, old_len: l, new_index: n } => DiffStep::Delete(o, l, n),
        DiffOp::Insert { old_index: o, new_index: n, new_len: l } => DiffStep::Insert(o, n, l),
        DiffOp::Replace { old_index: o, old_len: l, new_index: n, new_len: m } => DiffStep::Replace(o, l, n, m),
    }).collect();
    (ops, d.old_slices().len(), d.new_slices().len())
}

/// `TextDiff::from_lines(old, new).unified_diff()` with `context_radius(context)` and
/// `header(old_header, new_header)`, formatted. Claimed: the text is the named result.
#[verifier::external_body]
pub(crate) fn unified_diff_text(
    old: &str,
    new: &str,
    context: usize,
    old_header: &str,
    new_header: &str,
) -> (r: String)
    ensures
        r@ == text_unified_diff(old@, new@, context, old_header@, new_header@),
{
    format!(
        "{}",
        TextDiff::from_lines(old, new).unified_diff().context_radius(context).header(old_header, new_header)
    )
}

/// `similar::udiff::unified_diff(Algorithm::default(), old, new, context, Some((old_header,
/// new_header)))`. Claimed: the text is the named result.
#[verifier::external_body]
pub(crate) fn quick_unified_diff_text(
    old: &str,
    new: &str,
    context: usize,
    old_header: &str,
    new_header: &str,
) -> (r: String)
    ensures
        r@ == quick_unified_diff(old@, new@, context, old_header@, new_header@),
{
    similar::udiff::unified_diff(similar::Algorithm::default(), old, new, context, Some((old_header, new_header)))
}

/// The number of elements that the `Equal` steps of `ops` cover.
pub fn count_matched(ops: &[DiffStep]) -> (r: u128)
    ensures
        r == matched(ops@),
{
    let mut total: u128 = 0;
    let mut i: usize = 0;
    while i < ops.len()
        invariant
            i <= ops@.len(),
            total == matched(ops@.take(i as int)),
            total <= i * (usize::MAX as int),
        decreases ops.len() - i,
    {
        proof {
            assert(ops@.take(i + 1).drop_last() =~= ops@.take(i as int));
        }
        proof {
            assert((i as int) * (usize::MAX as int) + (usize::MAX as int) <= u128::MAX) by (nonlinear_arith)
                requires
                    i < usize::MAX,
            ;
        }
        match ops[i] {
            DiffStep::Equal(_, _, len) => {
                total = total + len as u128;
            },
            _ => {},
        }
        i += 1;
        proof {
            assert(total <= i * (usize::MAX as int)) by (nonlinear_arith)
                requires
                    total <= (i - 1) * (usize::MAX as int) + usize::MAX,
            ;
        }
    }
    proof {
        assert(ops@.take(ops@.len() as int) =~= ops@);
    }
    total
}

/// `2 * matches / total` in billionths, rounded down, for a diff whose similarity lies in `0..=1`.
pub fn similarity(matches: u128, total: u128) -> (r: u64)
    requires
        2 * matches <= total,
        total <= 2 * (usize::MAX as int),
    ensures
        r == ratio_of(matches as nat, total as nat),
        r <= ONE,
{
    if total == 0 {
        ONE
    } else {
        proof {
            assert(2 * (ONE as int) * matches <= (ONE as int) * total) by (nonlinear_arith)
                requires
                    2 * matches <= total,
            ;
            assert((ONE as int) * total <= (ONE as int) * 2 * (usize::MAX as int)) by (nonlinear_arith)
                requires
                    total <= 2 * (usize::MAX as int),
            ;
            assert((2 * (ONE as int) * matches) / (total as int) <= ONE) by (nonlinear_arith)
                requires
                    2 * (ONE as int) * matches <= (ONE as int) * total,
                    total > 0,
            ;
            if 2 * matches == total {
                assert((2 * (ONE as int) * matches) / (total as int) == ONE) by (nonlinear_arith)
                    requires
                        2 * matches == total,
                        total > 0,
                ;
            }
        }
        ((2 * (ONE as u128) * matches) / total) as u64
    }
}

/// The lines as string slices.
pub(crate) fn str_refs(v: &[String]) -> (r: Vec<&str>)
    ensures
        texts(r@) == v.deep_view(),
        r@.len() == v@.len(),
{
    let mut out: Vec<&str> = Vec::new();
    let mut i: usize = 0;
    while i < v.len()
        invariant
            i <= v@.len(),
            texts(out@) == v.deep_view().take(i as int),
        decreases v.len() - i,
    {
        let ghost before = texts(out@);
        let s = v[i].as_str();
        out.push(s);
        i += 1;
        proof {
            assert(texts(out@) =~= before.push(s@));
            assert(texts(out@) =~= v.deep_view().take(i as int));
        }
    }
    proof {
        assert(v.deep_view().take(v@.len() as int) =~= v.deep_view());
    }
    out
}

} // verus!
