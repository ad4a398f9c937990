//! Normalized patch text for the discrepancy check: only the removed and added lines
//! count, lines both removed and added cancel out, and each side is sorted.
use crate::hunk::{stripped_where, Hunk};
use crate::patch::Patch;
use crate::text::{chars_eq, chars_of, push_all, starts_with_char};
use vstd::prelude::*;

verus! {

/// The removed lines of the hunks, without their prefix, hunk after hunk.
pub open spec fn removed_of(hs: Seq<Hunk>) -> Seq<Seq<char>>
    decreases hs.len(),
{
    if hs.len() == 0 {
        Seq::empty()
    } else {
        removed_of(hs.drop_last()) + stripped_where(hs.last().text(), |l: Seq<char>| starts_with_char(l, '-'))
    }
}

/// The added lines of the hunks, without their prefix, hunk after hunk.
pub open spec fn added_of(hs: Seq<Hunk>) -> Seq<Seq<char>>
    decreases hs.len(),
{
    if hs.len() == 0 {
        Seq::empty()
    } else {
        added_of(hs.drop_last()) + stripped_where(hs.last().text(), |l: Seq<char>| starts_with_char(l, '+'))
    }
}

/// The first position of `x` in `s`, if any.
pub open spec fn first_index(s: Seq<Seq<char>>, x: Seq<char>) -> Option<int>
    decreases s.len(),
{
    if s.len() == 0 {
        None
    } else if s[0] == x {
        Some(0)
    } else {
        match first_index(s.drop_first(), x) {
            Some(i) => Some(i + 1),
            None => None,
        }
    }
}

/// Removed and added lines with self-replacements taken out: each removed line, in
/// order, cancels the first equal added line still there.
pub open spec fn cancel(rem: Seq<Seq<char>>, add: Seq<Seq<char>>) -> (Seq<Seq<char>>, Seq<Seq<char>>)
    decreases rem.len(),
{
    if rem.len() == 0 {
        (rem, add)
    } else {
        match first_index(add, rem[0]) {
            Some(j) => cancel(rem.drop_first(), add.remove(j)),
            None => {
                let r = cancel(rem.drop_first(), add);
                (seq![rem[0]] + r.0, r.1)
            },
        }
    }
}

/// Whether `a` comes before `b` or equals it, comparing characters in order (the order
/// of `String`).
pub open spec fn lex_le(a: Seq<char>, b: Seq<char>) -> bool
    decreases a.len(),
{
    if a.len() == 0 {
        true
    } else if b.len() == 0 {
        false
    } else if a[0] < b[0] {
        true
    } else if a[0] == b[0] {
        lex_le(a.drop_first(), b.drop_first())
    } else {
        false
    }
}

/// `x` put into `s` before the first line that it does not come after.
pub open spec fn insert_sorted(s: Seq<Seq<char>>, x: Seq<char>) -> Seq<Seq<char>>
    decreases s.len(),
{
    if s.len() == 0 {
        seq![x]
    } else if lex_le(x, s[0]) {
        seq![x] + s
    } else {
        seq![s[0]] + insert_sorted(s.drop_first(), x)
    }
}

/// The lines in ascending order.
pub open spec fn sort_lines(s: Seq<Seq<char>>) -> Seq<Seq<char>>
    decreases s.len(),
{
    if s.len() == 0 {
        Seq::empty()
    } else {
        insert_sorted(sort_lines(s.drop_last()), s.last())
    }
}

/// Each line after the character `c`, and followed by a newline.
pub open spec fn prefixed_lines(ls: Seq<Seq<char>>, c: char) -> Seq<char>
    decreases ls.len(),
{
    if ls.len() == 0 {
        Seq::empty()
    } else {
        prefixed_lines(ls.drop_last(), c) + seq![c] + ls.last() + seq!['\n']
    }
}

pub open spec fn no_newline_marker() -> Seq<char> {
    seq![
        '\\', ' ', 'N', 'o', ' ', 'n', 'e', 'w', 'l', 'i', 'n', 'e', ' ', 'a', 't', ' ', 'e', 'n', 'd', ' ', 'o', 'f',
        ' ', 'f', 'i', 'l', 'e',
    ]
}

/// The normalized text of a patch: its removed lines, then its added lines, after
/// cancelling self-replacements and sorting each side, each line with its prefix and a
/// newline; then the missing-newline marker when the patch ends without one.
pub open spec fn normalized_text(patch: Patch) -> Seq<char> {
    let c = cancel(removed_of(patch.hunks@), added_of(patch.hunks@));
    let body = prefixed_lines(sort_lines(c.0), '-') + prefixed_lines(sort_lines(c.1), '+');
    if patch.ends_with_newline {
        body
    } else {
        body + no_newline_marker()
    }
}

/// The removed and added lines of the hunks.
fn collect_changes(hs: &Vec<Hunk>) -> (r: (Vec<Vec<char>>, Vec<Vec<char>>))
    ensures
        crate::text::views(r.0@) == removed_of(hs@),
        crate::text::views(r.1@) == added_of(hs@),
{
    let mut rem: Vec<Vec<char>> = Vec::new();
    let mut add: Vec<Vec<char>> = Vec::new();
    let mut i: usize = 0;
    proof {
        assert(hs@.take(0) =~= Seq::<Hunk>::empty());
        assert(crate::text::views(rem@) =~= Seq::<Seq<char>>::empty());
        assert(crate::text::views(add@) =~= Seq::<Seq<char>>::empty());
    }
    while i < hs.len()
        invariant
            i <= hs@.len(),
            crate::text::views(rem@) == removed_of(hs@.take(i as int)),
            crate::text::views(add@) == added_of(hs@.take(i as int)),
        decreases hs.len() - i,
    {
        proof {
            assert(hs@.take(i + 1).drop_last() =~= hs@.take(i as int));
        }
        let removed = hs[i].removed_lines();
        let added = hs[i].added_lines();
        let mut k: usize = 0;
        let ghost r0 = crate::text::views(rem@);
        while k < removed.len()
            invariant
                k <= removed@.len(),
                crate::text::views(rem@) == r0 + removed.deep_view().take(k as int),
            decreases removed.len() - k,
        {
            let ghost before = crate::text::views(rem@);
            let c = chars_of(removed[k]);
            rem.push(c);
            proof {
                assert(crate::text::views(rem@) =~= before.push(c@));
                assert(removed.deep_view()[k as int] == c@);
            }
            k += 1;
            proof {
                assert(crate::text::views(rem@) =~= r0 + removed.deep_view().take(k as int));
            }
        }
        proof {
            assert(removed.deep_view().take(removed@.len() as int) =~= removed.deep_view());
        }
        let mut k: usize = 0;
        let ghost a0 = crate::text::views(add@);
        while k < added.len()
            invariant
                k <= added@.len(),
                crate::text::views(add@) == a0 + added.deep_view().take(k as int),
            decreases added.len() - k,
        {
            let ghost before = crate::text::views(add@);
            let c = chars_of(added[k]);
            add.push(c);
            proof {
                assert(crate::text::views(add@) =~= before.push(c@));
                assert(added.deep_view()[k as int] == c@);
            }
            k += 1;
            proof {
                assert(crate::text::views(add@) =~= a0 + added.deep_view().take(k as int));
            }
        }
        proof {
            assert(added.deep_view().take(added@.len() as int) =~= added.deep_view());
        }
        i += 1;
    }
    proof {
        assert(hs@.take(hs@.len() as int) =~= hs@);
    }
    (rem, add)
}

proof fn lemma_first_index(s: Seq<Seq<char>>, x: Seq<char>, j: int)
    requires
        0 <= j <= s.len(),
        forall|q: int| 0 <= q < j ==> #[trigger] s[q] != x,
    ensures
        j < s.len() && s[j] == x ==> first_index(s, x) == Some(j),
        j == s.len() ==> first_index(s, x) == None::<int>,
    decreases j,
{
    if j > 0 {
        assert forall|q: int| 0 <= q < j - 1 implies #[trigger] s.drop_first()[q] != x by {
            assert(s.drop_first()[q] == s[q + 1]);
        }
        lemma_first_index(s.drop_first(), x, j - 1);
    }
}

/// The position of the first line of `s` equal to `x`.
fn find_line(s: &Vec<Vec<char>>, x: &Vec<char>) -> (r: Option<usize>)
    ensures
        match r {
            Some(j) => first_index(crate::text::views(s@), x@) == Some(j as int) && j < s@.len(),
            None => first_index(crate::text::views(s@), x@) == None::<int>,
        },
{
    let ghost sv = crate::text::views(s@);
    let mut j: usize = 0;
    while j < s.len()
        invariant
            j <= s@.len(),
            sv == crate::text::views(s@),
            forall|q: int| 0 <= q < j ==> #[trigger] sv[q] != x@,
        decreases s.len() - j,
    {
        if chars_eq(&s[j], x) {
            proof {
                lemma_first_index(sv, x@, j as int);
            }
            return Some(j);
        }
        j += 1;
    }
    proof {
        lemma_first_index(sv, x@, j as int);
    }
    None
}

/// Takes self-replacements out (see `cancel`).
fn cancel_lines(rem: Vec<Vec<char>>, add: Vec<Vec<char>>) -> (r: (Vec<Vec<char>>, Vec<Vec<char>>))
    ensures
        (crate::text::views(r.0@), crate::text::views(r.1@)) == cancel(crate::text::views(rem@), crate::text::views(add@)),
{
    let ghost goal = cancel(crate::text::views(rem@), crate::text::views(add@));
    let mut rem = rem;
    let mut add = add;
    let mut i: usize = 0;
    proof {
        let rv = crate::text::views(rem@);
        assert(rv.take(0) =~= Seq::<Seq<char>>::empty());
        assert(rv.skip(0) =~= rv);
        assert(Seq::<Seq<char>>::empty() + goal.0 =~= goal.0);
    }
    while i < rem.len()
        invariant
            i <= rem@.len(),
            goal == ({
                let rv = crate::text::views(rem@);
                let c = cancel(rv.skip(i as int), crate::text::views(add@));
                (rv.take(i as int) + c.0, c.1)
            }),
        decreases rem.len() - i,
    {
        let ghost rv = crate::text::views(rem@);
        let ghost av = crate::text::views(add@);
        proof {
            assert(rv.skip(i as int)[0] == rem@[i as int]@);
            assert(rv.skip(i as int).drop_first() =~= rv.skip(i + 1));
        }
        match find_line(&add, &rem[i]) {
            Some(j) => {
                add.remove(j);
                rem.remove(i);
                proof {
                    assert(crate::text::views(add@) =~= av.remove(j as int));
                    assert(crate::text::views(rem@).take(i as int) =~= rv.take(i as int));
                    assert(crate::text::views(rem@).skip(i as int) =~= rv.skip(i + 1));
                }
            },
            None => {
                proof {
                    let c = cancel(rv.skip(i + 1), av);
                    assert(rv.take(i + 1) =~= rv.take(i as int).push(rv[i as int]));
                    assert(rv.take(i as int) + (seq![rv[i as int]] + c.0) =~= rv.take(i + 1) + c.0);
                }
                i += 1;
            },
        }
    }
    proof {
        let rv = crate::text::views(rem@);
        assert(rv.skip(i as int) =~= Seq::<Seq<char>>::empty());
        assert(rv.take(i as int) =~= rv);
        assert(rv + Seq::<Seq<char>>::empty() =~= rv);
    }
    (rem, add)
}

proof fn lemma_lex_le_skip(a: Seq<char>, b: Seq<char>, i: int)
    requires
        0 <= i <= a.len(),
        i <= b.len(),
        forall|k: int| 0 <= k < i ==> a[k] == b[k],
    ensures
        lex_le(a, b) == lex_le(a.skip(i), b.skip(i)),
    decreases i,
{
    if i > 0 {
        assert forall|k: int| 0 <= k < i - 1 implies a.drop_first()[k] == b.drop_first()[k] by {
            assert(a.drop_first()[k] == a[k + 1]);
            assert(b.drop_first()[k] == b[k + 1]);
        }
        lemma_lex_le_skip(a.drop_first(), b.drop_first(), i - 1);
        assert(a.drop_first().skip(i - 1) =~= a.skip(i));
        assert(b.drop_first().skip(i - 1) =~= b.skip(i));
    } else {
        assert(a.skip(0) =~= a);
        assert(b.skip(0) =~= b);
    }
}

/// Whether `a` comes before `b` or equals it (see `lex_le`).
fn chars_le(a: &Vec<char>, b: &Vec<char>) -> (r: bool)
    ensures
        r == lex_le(a@, b@),
{
    let mut i: usize = 0;
    while i < a.len() && i < b.len() && a[i] == b[i]
        invariant
            i <= a@.len(),
            i <= b@.len(),
            forall|k: int| 0 <= k < i ==> a@[k] == b@[k],
        decreases a.len() - i,
    {
        i += 1;
    }
    proof {
        lemma_lex_le_skip(a@, b@, i as int);
        if i < a@.len() && i < b@.len() {
            assert(a@.skip(i as int)[0] == a@[i as int]);
            assert(b@.skip(i as int)[0] == b@[i as int]);
        }
    }
    if i == a.len() {
        true
    } else if i == b.len() {
        false
    } else {
        a[i] < b[i]
    }
}

proof fn lemma_insert_sorted_at(s: Seq<Seq<char>>, x: Seq<char>, k: int)
    requires
        0 <= k <= s.len(),
        forall|j: int| 0 <= j < k ==> !lex_le(x, #[trigger] s[j]),
        k < s.len() ==> lex_le(x, s[k]),
    ensures
        insert_sorted(s, x) == s.insert(k, x),
    decreases k,
{
    if k == 0 {
        if s.len() == 0 {
            assert(s.insert(0, x) =~= seq![x]);
        } else {
            assert(s.insert(0, x) =~= seq![x] + s);
        }
    } else {
        let rest = s.drop_first();
        assert forall|j: int| 0 <= j < k - 1 implies !lex_le(x, #[trigger] rest[j]) by {
            assert(rest[j] == s[j + 1]);
        }
        if k - 1 < rest.len() {
            assert(rest[k - 1] == s[k]);
        }
        lemma_insert_sorted_at(rest, x, k - 1);
        assert(s.insert(k, x) =~= seq![s[0]] + rest.insert(k - 1, x));
    }
}

/// The lines in ascending order (see `sort_lines`).
fn sort_line_vec(ls: Vec<Vec<char>>) -> (r: Vec<Vec<char>>)
    ensures
        crate::text::views(r@) == sort_lines(crate::text::views(ls@)),
{
    let ghost lv = crate::text::views(ls@);
    let mut out: Vec<Vec<char>> = Vec::new();
    let mut i: usize = 0;
    proof {
        assert(crate::text::views(out@) =~= sort_lines(lv.take(0)));
    }
    while i < ls.len()
        invariant
            i <= ls@.len(),
            lv == crate::text::views(ls@),
            crate::text::views(out@) == sort_lines(lv.take(i as int)),
        decreases ls.len() - i,
    {
        proof {
            assert(lv.take(i + 1).drop_last() =~= lv.take(i as int));
            assert(lv.take(i + 1).last() == ls@[i as int]@);
        }
        let x = crate::text::slice_chars(&ls[i], 0, ls[i].len());
        proof {
            assert(x@ =~= ls@[i as int]@);
        }
        let ghost ov = crate::text::views(out@);
        let mut k: usize = 0;
        while k < out.len() && !chars_le(&x, &out[k])
            invariant
                k <= out@.len(),
                ov == crate::text::views(out@),
                forall|j: int| 0 <= j < k ==> !lex_le(x@, #[trigger] ov[j]),
            decreases out.len() - k,
        {
            k += 1;
        }
        proof {
            lemma_insert_sorted_at(ov, x@, k as int);
        }
        let ghost xv = x@;
        out.insert(k, x);
        proof {
            assert(crate::text::views(out@) =~= ov.insert(k as int, xv));
        }
        i += 1;
    }
    proof {
        assert(lv.take(ls@.len() as int) =~= lv);
    }
    out
}

/// Appends each line after `c` and followed by a newline.
fn push_prefixed(out: &mut String, ls: &Vec<Vec<char>>, c: char)
    ensures
        final(out)@ == old(out)@ + prefixed_lines(crate::text::views(ls@), c),
{
    let ghost start = out@;
    let ghost lv = crate::text::views(ls@);
    let mut i: usize = 0;
    proof {
        assert(start + prefixed_lines(lv.take(0), c) =~= start);
    }
    while i < ls.len()
        invariant
            i <= ls@.len(),
            lv == crate::text::views(ls@),
            out@ == start + prefixed_lines(lv.take(i as int), c),
        decreases ls.len() - i,
    {
        proof {
            assert(lv.take(i + 1).drop_last() =~= lv.take(i as int));
            assert(lv.take(i + 1).last() == ls@[i as int]@);
        }
        let head = vec![c];
        push_all(out, &head);
        push_all(out, &ls[i]);
        let nl = vec!['\n'];
        push_all(out, &nl);
        i += 1;
        proof {
            assert(out@ =~= start + prefixed_lines(lv.take(i as int), c));
        }
    }
    proof {
        assert(lv.take(ls@.len() as int) =~= lv);
    }
}

/// Formats a patch into a normalized string for robust discrepancy checking: context
/// lines are left out, lines both removed and added cancel out, and the removed and the
/// added lines are each sorted, so that neither their interleaving nor the order of the
/// hunks matters.
pub fn format_normalized_patch(patch: &Patch) -> (r: String)
    ensures
        r@ == normalized_text(*patch),
{
    let (rem, add) = collect_changes(&patch.hunks);
    let (rem, add) = cancel_lines(rem, add);
    let rem = sort_line_vec(rem);
    let add = sort_line_vec(add);
    let mut output = String::new();
    proof {
        assert(output@ =~= Seq::<char>::empty());
    }
    push_prefixed(&mut output, &rem, '-');
    push_prefixed(&mut output, &add, '+');
    proof {
        assert(Seq::<char>::empty() + prefixed_lines(crate::text::views(rem@), '-') =~= prefixed_lines(
            crate::text::views(rem@),
            '-',
        ));
    }
    if !patch.ends_with_newline {
        output.append("\\ No newline at end of file");
        proof {
            reveal_strlit("\\ No newline at end of file");
            assert("\\ No newline at end of file"@ =~= no_newline_marker());
        }
    }
    output
}

/// Compares two patches for semantic equivalence, focusing on the actual line changes:
/// whether their normalized texts are equal.
pub fn compare_patches(original: &Patch, recreated: &Patch) -> (r: bool)
    ensures
        r == (normalized_text(*original) == normalized_text(*recreated)),
{
    let a = format_normalized_patch(original);
    let b = format_normalized_patch(recreated);
    let ac = chars_of(a.as_str());
    let bc = chars_of(b.as_str());
    chars_eq(&ac, &bc)
}

/// Each line followed by a newline.
pub open spec fn lines_text(ls: Seq<Seq<char>>) -> Seq<char>
    decreases ls.len(),
{
    if ls.len() == 0 {
        Seq::empty()
    } else {
        lines_text(ls.drop_last()) + ls.last() + seq!['\n']
    }
}

/// A hunk header line such as `@@ -3 +4 @@`, a missing line hint written as `0`.
pub open spec fn hunk_header_text(h: Hunk) -> Seq<char> {
    let o: nat = match h.old_start_line {
        Some(n) => n as nat,
        None => 0,
    };
    let n: nat = match h.new_start_line {
        Some(k) => k as nat,
        None => 0,
    };
    seq!['@', '@', ' ', '-'] + crate::text::decimal(o) + seq![' ', '+'] + crate::text::decimal(n) + seq![' ', '@', '@', '\n']
}

/// The hunks, each as its header line and then its lines.
pub open spec fn hunks_text(hs: Seq<Hunk>) -> Seq<char>
    decreases hs.len(),
{
    if hs.len() == 0 {
        Seq::empty()
    } else {
        hunks_text(hs.drop_last()) + hunk_header_text(hs.last()) + lines_text(hs.last().text())
    }
}

/// A patch written as a unified diff: the `--- a/` and `+++ b/` headers, its hunks, and
/// the missing-newline marker line when the patch ends without a newline.
pub open spec fn patch_diff_text(p: Patch) -> Seq<char> {
    let body = seq!['-', '-', '-', ' ', 'a', '/'] + p.file_path@ + seq!['\n', '+', '+', '+', ' ', 'b', '/'] + p.file_path@
        + seq!['\n'] + hunks_text(p.hunks@);
    if p.ends_with_newline {
        body
    } else {
        body + no_newline_marker() + seq!['\n']
    }
}

/// Writes a patch as a unified diff (see `patch_diff_text`), for showing it in a report.
pub fn patch_text(patch: &Patch) -> (r: String)
    ensures
        r@ == patch_diff_text(*patch),
{
    let mut out = String::from_str("--- a/");
    out.append(patch.file_path.as_str());
    out.append("\n+++ b/");
    out.append(patch.file_path.as_str());
    out.append("\n");
    proof {
        reveal_strlit("--- a/");
        reveal_strlit("\n+++ b/");
        reveal_strlit("\n");
    }
    let ghost head = out@;
    let mut i: usize = 0;
    proof {
        assert(patch.hunks@.take(0) =~= Seq::<Hunk>::empty());
        assert(head + hunks_text(patch.hunks@.take(0)) =~= head);
    }
    while i < patch.hunks.len()
        invariant
            i <= patch.hunks@.len(),
            out@ == head + hunks_text(patch.hunks@.take(i as int)),
        decreases patch.hunks.len() - i,
    {
        proof {
            assert(patch.hunks@.take(i + 1).drop_last() =~= patch.hunks@.take(i as int));
        }
        let h = &patch.hunks[i];
        let ghost before = out@;
        let o: usize = match h.old_start_line {
            Some(n) => n,
            None => 0,
        };
        let n: usize = match h.new_start_line {
            Some(k) => k,
            None => 0,
        };
        let od = crate::text::format_decimal(o);
        let nd = crate::text::format_decimal(n);
        out.append("@@ -");
        push_all(&mut out, &od);
        out.append(" +");
        push_all(&mut out, &nd);
        out.append(" @@\n");
        proof {
            reveal_strlit("@@ -");
            reveal_strlit(" +");
            reveal_strlit(" @@\n");
            assert(out@ =~= before + hunk_header_text(*h));
        }
        let ghost mid = out@;
        let mut k: usize = 0;
        proof {
            assert(h.text().take(0) =~= Seq::<Seq<char>>::empty());
            assert(mid + lines_text(h.text().take(0)) =~= mid);
        }
        while k < h.lines.len()
            invariant
                k <= h.lines@.len(),
                out@ == mid + lines_text(h.text().take(k as int)),
            decreases h.lines.len() - k,
        {
            let ghost prev = out@;
            let ghost line = h.lines@[k as int]@;
            proof {
                assert(h.text().take(k + 1).drop_last() =~= h.text().take(k as int));
                assert(h.text().take(k + 1).last() == line);
                assert(lines_text(h.text().take(k + 1)) == lines_text(h.text().take(k as int)) + line + seq!['\n']);
            }
            out.append(h.lines[k].as_str());
            out.append("\n");
            proof {
                reveal_strlit("\n");
                assert(out@ =~= prev + line + seq!['\n']);
            }
            k += 1;
            proof {
                assert(out@ =~= mid + lines_text(h.text().take(k as int)));
            }
        }
        proof {
            assert(h.text().take(h.lines@.len() as int) =~= h.text());
        }
        i += 1;
        proof {
            assert(out@ =~= head + hunks_text(patch.hunks@.take(i as int)));
        }
    }
    proof {
        assert(patch.hunks@.take(patch.hunks@.len() as int) =~= patch.hunks@);
    }
    if !patch.ends_with_newline {
        out.append("\\ No newline at end of file\n");
        proof {
            reveal_strlit("\\ No newline at end of file\n");
            assert("\\ No newline at end of file\n"@ =~= no_newline_marker() + seq!['\n']);
        }
    }
    proof {
        assert(out@ =~= patch_diff_text(*patch));
    }
    out
}

} // verus!
