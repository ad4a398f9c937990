//! Reading patches out of markdown: ` ```diff ` (or `patch`) code blocks holding
//! unified diffs for one or more files.
use crate::hunk::Hunk;
use crate::patch::Patch;
use crate::text::{
    before_char, chars_eq, chars_of, has_prefix, is_whitespace, is_ws, lines, parse_usize,
    split_lines, split_words, starts_with, starts_with_char, string_of, trim, trimmed, views,
    words,
};
use vstd::prelude::*;

verus! {

/// Represents errors that can occur during the parsing of a diff file.
#[derive(Debug, Clone, Copy, PartialEq, Eq, Structural)]
pub enum ParseError {
    /// A ` ```diff` block was found, but it was missing the `--- a/path/to/file`
    /// header required to identify the target file.
    MissingFileHeader {
        /// The line number where the diff block started.
        line: usize,
    },
}

/// Whether two paths are equal as `std::path::Path` compares them: component by
/// component, in the path syntax of the platform the library is built for.
pub uninterp spec fn same_path(a: Seq<char>, b: Seq<char>) -> bool;

/// `Path::new(a) == Path::new(b)`. Claimed: the result is the named comparison of the two
/// strings; it depends on nothing else (the path syntax is fixed when the library is built).
#[verifier::external_body]
pub(crate) fn paths_equal(a: &str, b: &str) -> (r: bool)
    ensures
        r == same_path(a@, b@),
{
    std::path::Path::new(a) == std::path::Path::new(b)
}

/// A hunk seen as its lines and its two line hints.
pub type HunkView = (Seq<Seq<char>>, Option<usize>, Option<usize>);

/// A patch seen as its path, its hunks and its newline flag.
pub type PatchView = (Seq<char>, Seq<HunkView>, bool);

pub open spec fn hunk_view(h: Hunk) -> HunkView {
    (h.text(), h.old_start_line, h.new_start_line)
}

pub open spec fn hunk_views(hs: Seq<Hunk>) -> Seq<HunkView> {
    Seq::new(hs.len(), |i: int| hunk_view(hs[i]))
}

pub open spec fn patch_view(p: Patch) -> PatchView {
    (p.file_path@, hunk_views(p.hunks@), p.ends_with_newline)
}

pub open spec fn patch_views(ps: Seq<Patch>) -> Seq<PatchView> {
    Seq::new(ps.len(), |i: int| patch_view(ps[i]))
}

// ---------------------------------------------------------------------------
// Fences
// ---------------------------------------------------------------------------

/// A separator between the tags of a fence's info string: a comma or whitespace.
pub open spec fn is_tag_sep(c: char) -> bool {
    c == ',' || is_ws(c)
}

pub open spec fn tags_step(st: (Seq<Seq<char>>, Seq<char>), c: char) -> (Seq<Seq<char>>, Seq<char>) {
    if is_tag_sep(c) {
        if st.1.len() > 0 {
            (st.0.push(st.1), Seq::empty())
        } else {
            st
        }
    } else {
        (st.0, st.1.push(c))
    }
}

pub open spec fn tags_fold(s: Seq<char>) -> (Seq<Seq<char>>, Seq<char>)
    decreases s.len(),
{
    if s.len() == 0 {
        (Seq::empty(), Seq::empty())
    } else {
        tags_step(tags_fold(s.drop_last()), s.last())
    }
}

/// The words of an info string: its maximal runs of characters that are neither commas
/// nor whitespace (the words of each comma-separated part).
pub open spec fn tags(s: Seq<char>) -> Seq<Seq<char>> {
    let st = tags_fold(s);
    if st.1.len() > 0 {
        st.0.push(st.1)
    } else {
        st.0
    }
}

pub open spec fn fence() -> Seq<char> {
    seq!['`', '`', '`']
}

/// Whether a line opens a diff block: three backticks at its very start, followed by an
/// info string one of whose words is `diff` or `patch`.
pub open spec fn is_diff_fence(l: Seq<char>) -> bool {
    starts_with(l, fence()) && exists|k: int|
        0 <= k < tags(l.skip(3)).len() && (#[trigger] tags(l.skip(3))[k] == seq!['d', 'i', 'f', 'f']
            || tags(l.skip(3))[k] == seq!['p', 'a', 't', 'c', 'h'])
}

// ---------------------------------------------------------------------------
// Hunk headers
// ---------------------------------------------------------------------------

/// The number after `sign` in a word such as `-12,3`: what comes after the sign and
/// before the first comma, read as a `usize`.
pub open spec fn signed_start(w: Seq<char>, sign: char) -> Option<usize> {
    if starts_with_char(w, sign) {
        parse_usize(before_char(w.drop_first(), ','))
    } else {
        None
    }
}

/// The old and new start lines of a hunk header such as `@@ -21,8 +21,8 @@`, read from its
/// second and third whitespace-separated words.
pub open spec fn hunk_header(l: Seq<char>) -> (Option<usize>, Option<usize>) {
    let parts = words(l);
    if parts.len() < 3 {
        (None, None)
    } else {
        (signed_start(parts[1], '-'), signed_start(parts[2], '+'))
    }
}

// ---------------------------------------------------------------------------
// The block state machine
// ---------------------------------------------------------------------------

/// What the parser holds while reading the lines of one diff block.
pub struct BlockView {
    /// The 1-based line on which the block started.
    pub start: usize,
    /// The file sections finished so far.
    pub sections: Seq<PatchView>,
    /// The file of the section being read, once known.
    pub file: Option<Seq<char>>,
    /// The hunks of the section being read.
    pub hunks: Seq<HunkView>,
    /// The lines of the hunk being read.
    pub cur: Seq<Seq<char>>,
    pub old: Option<usize>,
    pub new: Option<usize>,
    pub ends_nl: bool,
}

pub open spec fn fresh_block(start: usize) -> BlockView {
    BlockView {
        start,
        sections: Seq::empty(),
        file: None,
        hunks: Seq::empty(),
        cur: Seq::empty(),
        old: None,
        new: None,
        ends_nl: true,
    }
}

/// The hunks with the hunk being read added, when it has lines.
pub open spec fn closed_hunks(b: BlockView) -> Seq<HunkView> {
    if b.cur.len() > 0 {
        b.hunks.push((b.cur, b.old, b.new))
    } else {
        b.hunks
    }
}

pub open spec fn minus_header() -> Seq<char> {
    seq!['-', '-', '-', ' ']
}

pub open spec fn plus_header() -> Seq<char> {
    seq!['+', '+', '+', ' ']
}

/// The file named after `---`: none for `/dev/null` (or `a/dev/null`), otherwise the path
/// without an `a/` prefix, trimmed.
pub open spec fn old_file(stripped: Seq<char>) -> Option<Seq<char>> {
    let p = trim(stripped);
    if p == seq!['/', 'd', 'e', 'v', '/', 'n', 'u', 'l', 'l'] || p == seq!['a', '/', 'd', 'e', 'v', '/', 'n', 'u', 'l', 'l'] {
        None
    } else if starts_with(p, seq!['a', '/']) {
        Some(trim(p.skip(2)))
    } else {
        Some(trim(p))
    }
}

/// The file named after `+++`: the path without a `b/` prefix, trimmed.
pub open spec fn new_file(stripped: Seq<char>) -> Seq<char> {
    let p = trim(stripped);
    if starts_with(p, seq!['b', '/']) {
        trim(p.skip(2))
    } else {
        trim(p)
    }
}

/// Reads one line of a diff block (other than the closing fence).
pub open spec fn block_step(b: BlockView, l: Seq<char>) -> BlockView {
    if starts_with(l, minus_header()) {
        let sections = match b.file {
            Some(f) => {
                let hs = closed_hunks(b);
                if hs.len() > 0 {
                    b.sections.push((f, hs, b.ends_nl))
                } else {
                    b.sections
                }
            },
            None => b.sections,
        };
        let hunks = match b.file {
            Some(f) => Seq::empty(),
            None => b.hunks,
        };
        BlockView {
            start: b.start,
            sections,
            file: old_file(l.skip(4)),
            hunks,
            cur: Seq::empty(),
            old: None,
            new: None,
            ends_nl: true,
        }
    } else if starts_with(l, plus_header()) {
        if b.file is None {
            BlockView { file: Some(new_file(l.skip(4))), ..b }
        } else {
            b
        }
    } else if starts_with(l, seq!['@', '@']) {
        let hh = hunk_header(l);
        BlockView { hunks: closed_hunks(b), cur: Seq::empty(), old: hh.0, new: hh.1, ..b }
    } else if starts_with_char(l, '+') || starts_with_char(l, '-') || starts_with_char(l, ' ') {
        BlockView { cur: b.cur.push(l), ..b }
    } else if starts_with_char(l, '\\') {
        BlockView { ends_nl: false, ..b }
    } else {
        b
    }
}

/// The position of the first patch in `ps` whose path is the same as `path`.
pub open spec fn first_same_path(ps: Seq<PatchView>, path: Seq<char>) -> Option<int>
    decreases ps.len(),
{
    if ps.len() == 0 {
        None
    } else if same_path(ps[0].0, path) {
        Some(0)
    } else {
        match first_same_path(ps.drop_first(), path) {
            Some(i) => Some(i + 1),
            None => None,
        }
    }
}

/// Sections merged by file: a section for a file already seen adds its hunks to that
/// file's patch, and its newline flag replaces the earlier one; otherwise it is a new patch.
pub open spec fn merge_sections(secs: Seq<PatchView>) -> Seq<PatchView>
    decreases secs.len(),
{
    if secs.len() == 0 {
        Seq::empty()
    } else {
        let merged = merge_sections(secs.drop_last());
        let sec = secs.last();
        match first_same_path(merged, sec.0) {
            Some(i) => merged.update(i, (merged[i].0, merged[i].1 + sec.1, sec.2)),
            None => merged.push(sec),
        }
    }
}

/// Closes a block: its sections merged, or the 1-based start line of the block when it
/// holds hunks but never named a file.
pub open spec fn close_block(b: BlockView) -> Result<Seq<PatchView>, usize> {
    let hs = closed_hunks(b);
    match b.file {
        Some(f) => Ok(merge_sections(if hs.len() > 0 { b.sections.push((f, hs, b.ends_nl)) } else { b.sections })),
        None => if hs.len() > 0 {
            Err(b.start)
        } else {
            Ok(merge_sections(b.sections))
        },
    }
}

/// The parser: the patches found so far, the block being read if any, and the error
/// once one is found.
pub struct ParserView {
    pub patches: Seq<PatchView>,
    pub block: Option<BlockView>,
    pub error: Option<usize>,
}

pub open spec fn parser_start() -> ParserView {
    ParserView { patches: Seq::empty(), block: None, error: None }
}

/// Reads the line with 0-based index `idx`.
pub open spec fn parser_step(st: ParserView, idx: int, l: Seq<char>) -> ParserView {
    if st.error is Some {
        st
    } else {
        match st.block {
            None => if is_diff_fence(l) {
                ParserView { block: Some(fresh_block((idx + 1) as usize)), ..st }
            } else {
                st
            },
            Some(b) => if l == fence() {
                match close_block(b) {
                    Ok(ps) => ParserView { patches: st.patches + ps, block: None, error: None },
                    Err(line) => ParserView { error: Some(line), ..st },
                }
            } else {
                ParserView { block: Some(block_step(b, l)), ..st }
            },
        }
    }
}

pub open spec fn parser_run(ls: Seq<Seq<char>>) -> ParserView
    decreases ls.len(),
{
    if ls.len() == 0 {
        parser_start()
    } else {
        parser_step(parser_run(ls.drop_last()), ls.len() - 1, ls.last())
    }
}

/// The patches in `content`, or the start line of the first block that holds hunks
/// without a file header. A block still open at the end of the content is closed there.
pub open spec fn parse(content: Seq<char>) -> Result<Seq<PatchView>, usize> {
    let st = parser_run(lines(content));
    match st.error {
        Some(line) => Err(line),
        None => match st.block {
            Some(b) => match close_block(b) {
                Ok(ps) => Ok(st.patches + ps),
                Err(line) => Err(line),
            },
            None => Ok(st.patches),
        },
    }
}

// ---------------------------------------------------------------------------
// Executable parser
// ---------------------------------------------------------------------------

proof fn lemma_tags_fold_take(s: Seq<char>, i: int)
    requires
        0 <= i < s.len(),
    ensures
        tags_fold(s.take(i + 1)) == tags_step(tags_fold(s.take(i)), s[i]),
{
    assert(s.take(i + 1).drop_last() =~= s.take(i));
}

/// The words of a fence's info string.
fn split_tags(s: &[char]) -> (r: Vec<Vec<char>>)
    ensures
        views(r@) == tags(s@),
{
    let mut done: Vec<Vec<char>> = Vec::new();
    let mut cur: Vec<char> = Vec::new();
    let mut i: usize = 0;
    while i < s.len()
        invariant
            i <= s@.len(),
            (views(done@), cur@) == tags_fold(s@.take(i as int)),
        decreases s.len() - i,
    {
        proof {
            lemma_tags_fold_take(s@, i as int);
        }
        let c = s[i];
        if c == ',' || is_whitespace(c) {
            if cur.len() > 0 {
                let ghost old_done = views(done@);
                let word = cur;
                done.push(word);
                proof {
                    assert(views(done@) =~= old_done.push(word@));
                }
                cur = Vec::new();
            }
        } else {
            cur.push(c);
        }
        i += 1;
    }
    proof {
        assert(s@.take(s@.len() as int) =~= s@);
    }
    if cur.len() > 0 {
        let ghost old_done = views(done@);
        let ghost cv = cur@;
        done.push(cur);
        proof {
            assert(views(done@) =~= old_done.push(cv));
        }
    }
    done
}

/// Whether the line opens a diff block.
fn is_fence_line(l: &Vec<char>) -> (r: bool)
    ensures
        r == is_diff_fence(l@),
{
    let f = vec!['`', '`', '`'];
    proof {
        assert(f@ =~= fence());
    }
    if !has_prefix(l, &f) {
        return false;
    }
    let info = crate::text::slice_chars(l, 3, l.len());
    proof {
        assert(info@ =~= l@.skip(3));
    }
    let ts = split_tags(&info);
    let diff = vec!['d', 'i', 'f', 'f'];
    let patch = vec!['p', 'a', 't', 'c', 'h'];
    let mut k: usize = 0;
    while k < ts.len()
        invariant
            k <= ts@.len(),
            starts_with(l@, fence()),
            views(ts@) == tags(l@.skip(3)),
            diff@ == seq!['d', 'i', 'f', 'f'],
            patch@ == seq!['p', 'a', 't', 'c', 'h'],
            forall|j: int|
                0 <= j < k ==> !(#[trigger] tags(l@.skip(3))[j] == seq!['d', 'i', 'f', 'f'] || tags(l@.skip(3))[j]
                    == seq!['p', 'a', 't', 'c', 'h']),
        decreases ts.len() - k,
    {
        if chars_eq(&ts[k], &diff) || chars_eq(&ts[k], &patch) {
            proof {
                assert(tags(l@.skip(3))[k as int] == ts@[k as int]@);
            }
            return true;
        }
        proof {
            assert(tags(l@.skip(3))[k as int] == ts@[k as int]@);
        }
        k += 1;
    }
    false
}

/// The number after `sign` in a header word (see `signed_start`).
fn signed_start_of(w: &Vec<char>, sign: char) -> (r: Option<usize>)
    ensures
        r == signed_start(w@, sign),
{
    if w.len() == 0 || w[0] != sign {
        return None;
    }
    let rest = crate::text::slice_chars(w, 1, w.len());
    proof {
        assert(rest@ =~= w@.drop_first());
    }
    let num = crate::text::prefix_before(&rest, ',');
    crate::text::parse_decimal(&num)
}

/// Parses a hunk header line (e.g. `@@ -1,3 +1,3 @@`) to extract the old and new
/// starting line numbers.
fn parse_hunk_header(line: &[char]) -> (r: (Option<usize>, Option<usize>))
    ensures
        r == hunk_header(line@),
{
    let parts = split_words(line);
    if parts.len() < 3 {
        return (None, None);
    }
    proof {
        assert(views(parts@)[1] == parts@[1]@);
        assert(views(parts@)[2] == parts@[2]@);
    }
    let old_line = signed_start_of(&parts[1], '-');
    let new_line = signed_start_of(&parts[2], '+');
    (old_line, new_line)
}

/// The file named after `---` (see `old_file`).
fn old_file_of(stripped: &[char]) -> (r: Option<Vec<char>>)
    ensures
        match r {
            Some(v) => old_file(stripped@) == Some(v@),
            None => old_file(stripped@) == None::<Seq<char>>,
        },
{
    let p = trimmed(stripped);
    let null1 = vec!['/', 'd', 'e', 'v', '/', 'n', 'u', 'l', 'l'];
    let null2 = vec!['a', '/', 'd', 'e', 'v', '/', 'n', 'u', 'l', 'l'];
    if chars_eq(&p, &null1) || chars_eq(&p, &null2) {
        return None;
    }
    let a = vec!['a', '/'];
    if has_prefix(&p, &a) {
        let rest = crate::text::slice_chars(&p, 2, p.len());
        proof {
            assert(rest@ =~= p@.skip(2));
        }
        Some(trimmed(&rest))
    } else {
        Some(trimmed(&p))
    }
}

/// The file named after `+++` (see `new_file`).
fn new_file_of(stripped: &[char]) -> (r: Vec<char>)
    ensures
        r@ == new_file(stripped@),
{
    let p = trimmed(stripped);
    let b = vec!['b', '/'];
    if has_prefix(&p, &b) {
        let rest = crate::text::slice_chars(&p, 2, p.len());
        proof {
            assert(rest@ =~= p@.skip(2));
        }
        trimmed(&rest)
    } else {
        trimmed(&p)
    }
}

/// The executable state of a diff block being read (see `BlockView`).
struct BlockBuilder {
    start: usize,
    sections: Vec<Patch>,
    file: Option<Vec<char>>,
    hunks: Vec<Hunk>,
    cur: Vec<Vec<char>>,
    old: Option<usize>,
    new: Option<usize>,
    ends_nl: bool,
}

impl View for BlockBuilder {
    type V = BlockView;

    closed spec fn view(&self) -> BlockView {
        BlockView {
            start: self.start,
            sections: patch_views(self.sections@),
            file: match self.file {
                Some(f) => Some(f@),
                None => None,
            },
            hunks: hunk_views(self.hunks@),
            cur: views(self.cur@),
            old: self.old,
            new: self.new,
            ends_nl: self.ends_nl,
        }
    }
}

impl BlockBuilder {
    fn new(start: usize) -> (r: BlockBuilder)
        ensures
            r@ == fresh_block(start),
    {
        let r = BlockBuilder {
            start,
            sections: Vec::new(),
            file: None,
            hunks: Vec::new(),
            cur: Vec::new(),
            old: None,
            new: None,
            ends_nl: true,
        };
        proof {
            assert(r@.sections =~= Seq::<PatchView>::empty());
            assert(r@.hunks =~= Seq::<HunkView>::empty());
            assert(r@.cur =~= Seq::<Seq<char>>::empty());
        }
        r
    }

    /// Moves the hunk being read, if it has lines, to the hunks of the section.
    fn close_hunk(&mut self)
        ensures
            final(self)@ == (BlockView { hunks: closed_hunks(old(self)@), cur: Seq::empty(), ..old(self)@ }),
    {
        if self.cur.len() > 0 {
            let lines = crate::text::strings_of(&self.cur);
            let h = Hunk { lines, old_start_line: self.old, new_start_line: self.new };
            let ghost before = hunk_views(self.hunks@);
            self.hunks.push(h);
            proof {
                assert(hunk_views(self.hunks@) =~= before.push(hunk_view(h)));
            }
        }
        self.cur = Vec::new();
        proof {
            assert(views(self.cur@) =~= Seq::<Seq<char>>::empty());
        }
    }

    /// Reads one line of the block (other than the closing fence).
    fn step(&mut self, l: &Vec<char>)
        ensures
            final(self)@ == block_step(old(self)@, l@),
    {
        let minus = vec!['-', '-', '-', ' '];
        let plus = vec!['+', '+', '+', ' '];
        let at = vec!['@', '@'];
        proof {
            assert(minus@ =~= minus_header());
            assert(plus@ =~= plus_header());
            assert(at@ =~= seq!['@', '@']);
        }
        if has_prefix(l, &minus) {
            let ghost b = self@;
            let stripped = crate::text::slice_chars(l, 4, l.len());
            proof {
                assert(stripped@ =~= l@.skip(4));
            }
            match &self.file {
                Some(f) => {
                    let fpath = string_of(f);
                    self.close_hunk();
                    if self.hunks.len() > 0 {
                        let mut hs: Vec<Hunk> = Vec::new();
                        std::mem::swap(&mut hs, &mut self.hunks);
                        let sec = Patch { file_path: fpath, hunks: hs, ends_with_newline: self.ends_nl };
                        let ghost before = patch_views(self.sections@);
                        self.sections.push(sec);
                        proof {
                            assert(patch_views(self.sections@) =~= before.push(patch_view(sec)));
                        }
                    }
                    self.hunks = Vec::new();
                    proof {
                        assert(hunk_views(self.hunks@) =~= Seq::<HunkView>::empty());
                    }
                },
                None => {},
            }
            self.file = old_file_of(&stripped);
            self.cur = Vec::new();
            self.old = None;
            self.new = None;
            self.ends_nl = true;
            proof {
                assert(views(self.cur@) =~= Seq::<Seq<char>>::empty());
                assert(self@ =~= block_step(b, l@));
            }
        } else if has_prefix(l, &plus) {
            if self.file.is_none() {
                let stripped = crate::text::slice_chars(l, 4, l.len());
                proof {
                    assert(stripped@ =~= l@.skip(4));
                }
                self.file = Some(new_file_of(&stripped));
            }
        } else if has_prefix(l, &at) {
            self.close_hunk();
            let (o, n) = parse_hunk_header(l);
            self.old = o;
            self.new = n;
        } else if l.len() > 0 && (l[0] == '+' || l[0] == '-' || l[0] == ' ') {
            let copy = crate::text::slice_chars(l, 0, l.len());
            proof {
                assert(copy@ =~= l@);
            }
            let ghost before = views(self.cur@);
            self.cur.push(copy);
            proof {
                assert(views(self.cur@) =~= before.push(l@));
            }
        } else if l.len() > 0 && l[0] == '\\' {
            self.ends_nl = false;
        }
    }

    /// Closes the block (see `close_block`).
    fn close(self) -> (r: Result<Vec<Patch>, usize>)
        ensures
            match r {
                Ok(ps) => close_block(self@) == Ok::<Seq<PatchView>, usize>(patch_views(ps@)),
                Err(line) => close_block(self@) == Err::<Seq<PatchView>, usize>(line),
            },
    {
        let mut b = self;
        let ghost b0 = b@;
        b.close_hunk();
        match b.file {
            Some(f) => {
                let mut sections = b.sections;
                if b.hunks.len() > 0 {
                    let sec = Patch { file_path: string_of(&f), hunks: b.hunks, ends_with_newline: b.ends_nl };
                    let ghost before = patch_views(sections@);
                    sections.push(sec);
                    proof {
                        assert(patch_views(sections@) =~= before.push(patch_view(sec)));
                    }
                }
                Ok(merge_patch_sections(sections))
            },
            None => {
                if b.hunks.len() > 0 {
                    Err(b.start)
                } else {
                    Ok(merge_patch_sections(b.sections))
                }
            },
        }
    }
}

proof fn lemma_first_same_path(ps: Seq<PatchView>, path: Seq<char>, j: int)
    requires
        0 <= j <= ps.len(),
        forall|q: int| 0 <= q < j ==> !same_path(#[trigger] ps[q].0, path),
    ensures
        j < ps.len() && same_path(ps[j].0, path) ==> first_same_path(ps, path) == Some(j),
        j == ps.len() ==> first_same_path(ps, path) == None::<int>,
    decreases j,
{
    if j > 0 {
        assert forall|q: int| 0 <= q < j - 1 implies !same_path(#[trigger] ps.drop_first()[q].0, path) by {
            assert(ps.drop_first()[q] == ps[q + 1]);
        }
        lemma_first_same_path(ps.drop_first(), path, j - 1);
    } else if ps.len() == 0 {
    }
}

/// The position of the first patch whose path is the same as `path`.
fn find_same_path(ps: &Vec<Patch>, path: &String) -> (r: Option<usize>)
    ensures
        match r {
            Some(k) => first_same_path(patch_views(ps@), path@) == Some(k as int) && k < ps@.len(),
            None => first_same_path(patch_views(ps@), path@) == None::<int>,
        },
{
    let ghost pv = patch_views(ps@);
    let mut j: usize = 0;
    while j < ps.len()
        invariant
            j <= ps@.len(),
            pv == patch_views(ps@),
            forall|q: int| 0 <= q < j ==> !same_path(#[trigger] pv[q].0, path@),
        decreases ps.len() - j,
    {
        if paths_equal(ps[j].file_path.as_str(), path.as_str()) {
            proof {
                lemma_first_same_path(pv, path@, j as int);
            }
            return Some(j);
        }
        j += 1;
    }
    proof {
        lemma_first_same_path(pv, path@, j as int);
    }
    None
}

/// Merges sections for the same file (see `merge_sections`).
fn merge_patch_sections(secs: Vec<Patch>) -> (r: Vec<Patch>)
    ensures
        patch_views(r@) == merge_sections(patch_views(secs@)),
{
    let ghost orig = patch_views(secs@);
    let mut rest = secs;
    let mut merged: Vec<Patch> = Vec::new();
    let total = rest.len();
    proof {
        assert(orig.take(0) =~= Seq::<PatchView>::empty());
        assert(patch_views(merged@) =~= Seq::<PatchView>::empty());
        assert(patch_views(rest@) =~= orig.skip(0));
    }
    while rest.len() > 0
        invariant
            total == orig.len(),
            rest@.len() <= total,
            patch_views(rest@) == orig.skip(total - rest@.len()),
            patch_views(merged@) == merge_sections(orig.take(total - rest@.len())),
        decreases rest.len(),
    {
        let i = total - rest.len();
        let ghost old_rest = rest@;
        let sec = rest.remove(0);
        proof {
            assert(sec == old_rest[0]);
            assert(patch_views(old_rest)[0] == orig.skip(i as int)[0]);
            assert(patch_view(sec) == orig[i as int]);
            assert forall|q: int| 0 <= q < rest@.len() implies #[trigger] patch_views(rest@)[q] == orig.skip(i + 1)[q] by {
                assert(rest@[q] == old_rest[q + 1]);
                assert(patch_views(old_rest)[q + 1] == orig.skip(i as int)[q + 1]);
            }
            assert(patch_views(rest@) =~= orig.skip(i + 1));
            assert(orig.take(i + 1).drop_last() =~= orig.take(i as int));
        }
        let ghost mv = patch_views(merged@);
        match find_same_path(&merged, &sec.file_path) {
            Some(k) => {
                let mut p = merged.remove(k);
                let mut hs = sec.hunks;
                let ghost ph = hunk_views(p.hunks@);
                let ghost sh = hunk_views(hs@);
                p.hunks.append(&mut hs);
                p.ends_with_newline = sec.ends_with_newline;
                proof {
                    assert(hunk_views(p.hunks@) =~= ph + sh);
                }
                merged.insert(k, p);
                proof {
                    assert(patch_views(merged@) =~= mv.update(k as int, (mv[k as int].0, mv[k as int].1 + patch_view(sec).1, patch_view(sec).2)));
                }
            },
            None => {
                merged.push(sec);
                proof {
                    assert(patch_views(merged@) =~= mv.push(patch_view(sec)));
                }
            },
        }
    }
    proof {
        assert(orig.take(total as int) =~= orig);
    }
    merged
}

proof fn lemma_error_persists(ls: Seq<Seq<char>>, k: int, line: usize)
    requires
        0 <= k <= ls.len(),
        parser_run(ls.take(k)).error == Some(line),
    ensures
        parser_run(ls).error == Some(line),
    decreases ls.len() - k,
{
    if k < ls.len() {
        assert(ls.take(k + 1).drop_last() =~= ls.take(k));
        lemma_error_persists(ls, k + 1, line);
    } else {
        assert(ls.take(k) =~= ls);
    }
}

/// Parses a string containing one or more markdown diff blocks into patches.
///
/// Blocks open with three backticks and an info string holding the word `diff` or
/// `patch`, and close with a line that is exactly three backticks. Within a block,
/// `--- ` lines start file sections, `+++ ` lines name the file when `---` did not,
/// `@@` lines start hunks, lines starting with `+`, `-` or a space are hunk lines, and a
/// line starting with `\` marks a missing final newline. Sections for the same file in
/// one block are merged. A block with hunks but no file path is an error.
pub fn parse_diffs(content: &str) -> (r: Result<Vec<Patch>, ParseError>)
    ensures
        match r {
            Ok(ps) => parse(content@) == Ok::<Seq<PatchView>, usize>(patch_views(ps@)),
            Err(ParseError::MissingFileHeader { line }) => parse(content@) == Err::<Seq<PatchView>, usize>(line),
        },
        r matches Ok(ps) ==> forall|i: int, j: int|
            0 <= i < ps@.len() && 0 <= j < ps@[i].hunks@.len() ==> (#[trigger] ps@[i].hunks@[j]).well_formed()
                && ps@[i].hunks@[j].lines@.len() >= 1,
        r matches Ok(ps) ==> forall|i: int| 0 <= i < ps@.len() ==> (#[trigger] ps@[i]).hunks@.len() >= 1,
{
    proof {
        crate::laws::law_parsed_hunk_lines(content@);
    }
    let chars = chars_of(content);
    let ls = split_lines(&chars);
    let ghost lv = views(ls@);
    let mut patches: Vec<Patch> = Vec::new();
    let mut block: Option<BlockBuilder> = None;
    let mut i: usize = 0;
    proof {
        assert(lv.take(0) =~= Seq::<Seq<char>>::empty());
        assert(patch_views(patches@) =~= Seq::<PatchView>::empty());
    }
    while i < ls.len()
        invariant
            i <= ls@.len(),
            lv == views(ls@),
            lv == lines(content@),
            parser_run(lv.take(i as int)) == (ParserView {
                patches: patch_views(patches@),
                block: match block {
                    Some(b) => Some(b@),
                    None => None,
                },
                error: None,
            }),
        decreases ls.len() - i,
    {
        proof {
            assert(lv.take(i + 1).drop_last() =~= lv.take(i as int));
            assert(lv[i as int] == ls@[i as int]@);
        }
        let line = &ls[i];
        let taken = block;
        block = None;
        match taken {
            None => {
                if is_fence_line(line) {
                    block = Some(BlockBuilder::new(i + 1));
                }
            },
            Some(mut b) => {
                let f = vec!['`', '`', '`'];
                proof {
                    assert(f@ =~= fence());
                }
                if chars_eq(line, &f) {
                    match b.close() {
                        Ok(mut ps) => {
                            let ghost before = patch_views(patches@);
                            let ghost added = patch_views(ps@);
                            patches.append(&mut ps);
                            proof {
                                assert(patch_views(patches@) =~= before + added);
                            }
                        },
                        Err(line_no) => {
                            proof {
                                lemma_error_persists(lv, i + 1, line_no);
                            }
                            return Err(ParseError::MissingFileHeader { line: line_no });
                        },
                    }
                } else {
                    b.step(line);
                    block = Some(b);
                }
            },
        }
        i += 1;
    }
    proof {
        assert(lv.take(ls@.len() as int) =~= lv);
    }
    match block {
        Some(b) => match b.close() {
            Ok(mut ps) => {
                let ghost before = patch_views(patches@);
                let ghost added = patch_views(ps@);
                patches.append(&mut ps);
                proof {
                    assert(patch_views(patches@) =~= before + added);
                    crate::laws::lemma_hunk_lines_well_formed(patches@);
                }
                Ok(patches)
            },
            Err(line_no) => Err(ParseError::MissingFileHeader { line: line_no }),
        },
        None => {
            proof {
                crate::laws::lemma_hunk_lines_well_formed(patches@);
            }
            Ok(patches)
        },
    }
}

/// The text of a markdown diff block holding `t`.
pub open spec fn fenced_diff(t: Seq<char>) -> Seq<char> {
    seq!['`', '`', '`', 'd', 'i', 'f', 'f', '\n'] + t + seq!['\n', '`', '`', '`']
}

/// Whether a text ends with a newline or is empty.
pub open spec fn ends_with_newline_or_empty(t: Seq<char>) -> bool {
    t.len() == 0 || t.last() == '\n'
}

/// The patch read from a unified diff `t` of a file `path` whose new text is `new`: the
/// patch parsed from `t` fenced as a diff block, or a patch without hunks when `t` is blank
/// or yields no patch.
pub open spec fn patch_of_diff(path: Seq<char>, new: Seq<char>, t: Seq<char>) -> Result<PatchView, usize> {
    let empty = (path, Seq::<HunkView>::empty(), ends_with_newline_or_empty(new));
    if trim(t).len() == 0 {
        Ok(empty)
    } else {
        match parse(fenced_diff(t)) {
            Err(line) => Err(line),
            Ok(ps) => if ps.len() > 0 {
                Ok(ps[0])
            } else {
                Ok(empty)
            },
        }
    }
}

/// The patch that `Patch::from_texts` gives: the patch read from the unified diff of the
/// two texts (with headers `a/<path>` and `b/<path>`).
pub open spec fn patch_from_texts(path: Seq<char>, old: Seq<char>, new: Seq<char>, context: usize) -> Result<PatchView, usize> {
    patch_of_diff(
        path,
        new,
        crate::diffing::text_unified_diff(old, new, context, seq!['a', '/'] + path, seq!['b', '/'] + path),
    )
}

impl Patch {
    /// Creates a new `Patch` by comparing two texts: the unified diff between them, with
    /// `context_len` lines of context, is generated and parsed.
    pub fn from_texts(file_path: &str, old_text: &str, new_text: &str, context_len: usize) -> (r: Result<Patch, ParseError>)
        ensures
            match r {
                Ok(p) => patch_from_texts(file_path@, old_text@, new_text@, context_len) == Ok::<PatchView, usize>(patch_view(p)),
                Err(ParseError::MissingFileHeader { line }) => patch_from_texts(file_path@, old_text@, new_text@, context_len)
                    == Err::<PatchView, usize>(line),
            },
    {
        let mut old_header = String::from_str("a/");
        old_header.append(file_path);
        let mut new_header = String::from_str("b/");
        new_header.append(file_path);
        proof {
            reveal_strlit("a/");
            reveal_strlit("b/");
            assert(old_header@ =~= seq!['a', '/'] + file_path@);
            assert(new_header@ =~= seq!['b', '/'] + file_path@);
        }
        let diff_text = crate::diffing::unified_diff_text(old_text, new_text, context_len, old_header.as_str(), new_header.as_str());
        Patch::from_diff_text(file_path, new_text, diff_text.as_str())
    }

    /// Reads the patch of a file `file_path`, whose new text is `new_text`, from the
    /// unified diff `diff_text` of its change: a patch without hunks when the diff is blank,
    /// otherwise the first patch parsed from the diff fenced as a diff block (a patch
    /// without hunks if there is none).
    pub fn from_diff_text(file_path: &str, new_text: &str, diff_text: &str) -> (r: Result<Patch, ParseError>)
        ensures
            match r {
                Ok(p) => patch_of_diff(file_path@, new_text@, diff_text@) == Ok::<PatchView, usize>(patch_view(p)),
                Err(ParseError::MissingFileHeader { line }) => patch_of_diff(file_path@, new_text@, diff_text@)
                    == Err::<PatchView, usize>(line),
            },
    {
        let new_chars = chars_of(new_text);
        let ends = new_chars.len() == 0 || new_chars[new_chars.len() - 1] == '\n';
        proof {
            assert(ends == ends_with_newline_or_empty(new_text@));
        }
        let diff_chars = chars_of(diff_text);
        if trimmed(&diff_chars).len() == 0 {
            let r = Patch { file_path: String::from_str(file_path), hunks: Vec::new(), ends_with_newline: ends };
            proof {
                assert(hunk_views(r.hunks@) =~= Seq::<HunkView>::empty());
            }
            return Ok(r);
        }
        let mut full = String::from_str("```diff\n");
        full.append(diff_text);
        full.append("\n```");
        proof {
            reveal_strlit("```diff\n");
            reveal_strlit("\n```");
            assert(full@ =~= fenced_diff(diff_text@));
        }
        match parse_diffs(full.as_str()) {
            Err(e) => Err(e),
            Ok(mut patches) => {
                if patches.len() > 0 {
                    let p = patches.remove(0);
                    Ok(p)
                } else {
                    let r = Patch { file_path: String::from_str(file_path), hunks: Vec::new(), ends_with_newline: ends };
                    proof {
                        assert(hunk_views(r.hunks@) =~= Seq::<HunkView>::empty());
                    }
                    Ok(r)
                }
            },
        }
    }
}

} // verus!
