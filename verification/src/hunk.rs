//! A hunk of a unified diff and the blocks of lines derived from it.
use crate::text::starts_with_char;
use vstd::prelude::*;

verus! {

/// Represents a single hunk of changes within a patch.
///
/// A hunk corresponds to a block of lines starting with `@@ ... @@` in a
/// unified diff. It contains the context, added, and removed lines.
#[derive(Debug, Clone, PartialEq, Eq)]
pub struct Hunk {
    /// The raw lines of the hunk, each prefixed with ' ', '+', or '-'.
    pub lines: Vec<String>,
    /// The original starting line number from the `@@ -l,s ...` header.
    /// This is used as a hint to resolve ambiguity if multiple exact matches are found.
    pub old_start_line: Option<usize>,
    /// The new starting line number from the `@@ ..., +l,s @@` header.
    pub new_start_line: Option<usize>,
}

/// Whether the first character of `l` can be cut off: `l` is not empty and its first
/// character takes one byte.
pub open spec fn sliceable(l: Seq<char>) -> bool {
    l.len() > 0 && (l[0] as u32) < 0x80
}

/// The lines of `ls` that `keep` selects, each without its first character.
pub open spec fn stripped_where(ls: Seq<Seq<char>>, keep: spec_fn(Seq<char>) -> bool) -> Seq<Seq<char>>
    decreases ls.len(),
{
    if ls.len() == 0 {
        Seq::empty()
    } else {
        let prev = stripped_where(ls.drop_last(), keep);
        if keep(ls.last()) {
            prev.push(ls.last().drop_first())
        } else {
            prev
        }
    }
}

/// Context and deletion lines, without their prefix: what must be found in the target.
pub open spec fn match_block(ls: Seq<Seq<char>>) -> Seq<Seq<char>> {
    stripped_where(ls, |l: Seq<char>| !starts_with_char(l, '+'))
}

/// Context and addition lines, without their prefix: what replaces the match.
pub open spec fn replace_block(ls: Seq<Seq<char>>) -> Seq<Seq<char>> {
    stripped_where(ls, |l: Seq<char>| !starts_with_char(l, '-'))
}

/// The line with its `+` and `-` prefix swapped; any other line unchanged.
pub open spec fn inverted_line(l: Seq<char>) -> Seq<char> {
    if starts_with_char(l, '+') {
        seq!['-'] + l.drop_first()
    } else if starts_with_char(l, '-') {
        seq!['+'] + l.drop_first()
    } else {
        l
    }
}

/// Whether some line adds or removes content.
pub open spec fn changes_in(ls: Seq<Seq<char>>) -> bool {
    exists|i: int| 0 <= i < ls.len() && (starts_with_char(#[trigger] ls[i], '+') || starts_with_char(ls[i], '-'))
}

pub proof fn lemma_stripped_where_len(ls: Seq<Seq<char>>, keep: spec_fn(Seq<char>) -> bool)
    ensures
        stripped_where(ls, keep).len() <= ls.len(),
    decreases ls.len(),
{
    if ls.len() > 0 {
        lemma_stripped_where_len(ls.drop_last(), keep);
    }
}

impl Hunk {
    /// The lines of the hunk as character sequences.
    pub open spec fn text(&self) -> Seq<Seq<char>> {
        self.lines.deep_view()
    }

    /// Whether every line of the hunk is non-empty and starts with a one-byte character,
    /// so that its prefix can be cut off.
    pub open spec fn well_formed(&self) -> bool {
        forall|i: int| 0 <= i < self.lines@.len() ==> sliceable(#[trigger] self.lines@[i]@)
    }

    /// Creates a new `Hunk` that reverses the changes in this one.
    ///
    /// Additions become deletions, and deletions become additions. Context lines
    /// remain unchanged. The old and new line number hints are swapped.
    pub fn invert(&self) -> (r: Hunk)
        ensures
            r.text() == self.text().map_values(|l: Seq<char>| inverted_line(l)),
            r.old_start_line == self.new_start_line,
            r.new_start_line == self.old_start_line,
    {
        let mut lines: Vec<String> = Vec::new();
        let mut i: usize = 0;
        while i < self.lines.len()
            invariant
                i <= self.lines@.len(),
                lines.deep_view() == self.text().map_values(|l: Seq<char>| inverted_line(l)).take(i as int),
            decreases self.lines.len() - i,
        {
            let line = &self.lines[i];
            let c = first_char(line.as_str());
            let inverted = if c == Some('+') || c == Some('-') {
                let mut s = if c == Some('+') {
                    String::from_str("-")
                } else {
                    String::from_str("+")
                };
                proof {
                    reveal_strlit("-");
                    reveal_strlit("+");
                }
                let n = line.as_str().unicode_len();
                let rest = line.as_str().substring_char(1, n);
                let ghost s0 = s@;
                s.append(rest);
                proof {
                    assert(rest@ =~= line@.drop_first());
                    if c == Some('+') {
                        assert(s0 =~= seq!['-']);
                    } else {
                        assert(s0 =~= seq!['+']);
                    }
                }
                s
            } else {
                line.clone()
            };
            proof {
                assert(inverted@ =~= inverted_line(line@));
            }
            let ghost before = lines.deep_view();
            lines.push(inverted);
            i += 1;
            proof {
                assert(lines.deep_view() =~= before.push(inverted@));
                assert(lines.deep_view() =~= self.text().map_values(|l: Seq<char>| inverted_line(l)).take(i as int));
            }
        }
        proof {
            assert(lines.deep_view() =~= self.text().map_values(|l: Seq<char>| inverted_line(l)));
        }
        Hunk { lines, old_start_line: self.new_start_line, new_start_line: self.old_start_line }
    }

    /// Extracts the lines that need to be matched in the target file: context lines
    /// (starting with ' ') and deletion lines (starting with '-'), without that prefix.
    pub fn get_match_block(&self) -> (r: Vec<&str>)
        requires
            self.well_formed(),
        ensures
            r.deep_view() == match_block(self.text()),
    {
        self.stripped_lines(2)
    }

    /// Extracts the lines that will replace the matched block in the target file:
    /// context lines (starting with ' ') and addition lines (starting with '+'),
    /// without that prefix.
    pub fn get_replace_block(&self) -> (r: Vec<&str>)
        requires
            self.well_formed(),
        ensures
            r.deep_view() == replace_block(self.text()),
    {
        self.stripped_lines(3)
    }

    /// Extracts the context lines (those starting with ' '), without the prefix.
    pub fn context_lines(&self) -> (r: Vec<&str>)
        ensures
            r.deep_view() == stripped_where(self.text(), |l: Seq<char>| starts_with_char(l, ' ')),
    {
        self.stripped_lines(0)
    }

    /// Extracts the added lines (those starting with '+'), without the prefix.
    pub fn added_lines(&self) -> (r: Vec<&str>)
        ensures
            r.deep_view() == stripped_where(self.text(), |l: Seq<char>| starts_with_char(l, '+')),
    {
        self.stripped_lines(1)
    }

    /// Extracts the removed lines (those starting with '-'), without the prefix.
    pub fn removed_lines(&self) -> (r: Vec<&str>)
        ensures
            r.deep_view() == stripped_where(self.text(), |l: Seq<char>| starts_with_char(l, '-')),
    {
        self.stripped_lines(4)
    }

    /// Checks if the hunk contains any effective changes (additions or deletions).
    /// A hunk with only context lines has no changes and can be skipped.
    pub fn has_changes(&self) -> (r: bool)
        ensures
            r == changes_in(self.text()),
    {
        let mut i: usize = 0;
        while i < self.lines.len()
            invariant
                i <= self.lines@.len(),
                forall|j: int|
                    0 <= j < i ==> !(starts_with_char(#[trigger] self.text()[j], '+') || starts_with_char(
                        self.text()[j],
                        '-',
                    )),
            decreases self.lines.len() - i,
        {
            let c = first_char(self.lines[i].as_str());
            if c == Some('+') || c == Some('-') {
                proof {
                    assert(self.text()[i as int] == self.lines@[i as int]@);
                }
                return true;
            }
            i += 1;
        }
        false
    }

    /// The lines that one of the five selections keeps, each without its first character:
    /// 0 context, 1 added, 4 removed, 2 all but added, 3 all but removed.
    fn stripped_lines(&self, which: u8) -> (r: Vec<&str>)
        requires
            which <= 4,
            which == 2 || which == 3 ==> self.well_formed(),
        ensures
            r.deep_view() == stripped_where(self.text(), selector(which)),
    {
        let ghost keep = selector(which);
        let mut out: Vec<&str> = Vec::new();
        let mut i: usize = 0;
        while i < self.lines.len()
            invariant
                i <= self.lines@.len(),
                which <= 4,
                which == 2 || which == 3 ==> self.well_formed(),
                keep == selector(which),
                out.deep_view() == stripped_where(self.text().take(i as int), keep),
            decreases self.lines.len() - i,
        {
            let line = self.lines[i].as_str();
            let c = first_char(line);
            let take = match which {
                0 => c == Some(' '),
                1 => c == Some('+'),
                2 => c != Some('+'),
                3 => c != Some('-'),
                _ => c == Some('-'),
            };
            proof {
                assert(self.text().take(i + 1).drop_last() =~= self.text().take(i as int));
                assert(self.text()[i as int] == line@);
                assert(take == keep(line@));
            }
            if take {
                proof {
                    if which == 2 || which == 3 {
                        assert(sliceable(self.lines@[i as int]@));
                    }
                }
                let n = line.unicode_len();
                let rest = line.substring_char(1, n);
                let ghost before = out.deep_view();
                out.push(rest);
                proof {
                    assert(out.deep_view() =~= before.push(rest@));
                    assert(rest@ =~= line@.drop_first());
                }
            }
            i += 1;
        }
        proof {
            assert(self.text().take(self.lines@.len() as int) =~= self.text());
        }
        out
    }
}

/// The selection that `Hunk::stripped_lines` makes for each code.
pub open spec fn selector(which: u8) -> spec_fn(Seq<char>) -> bool {
    if which == 0 {
        |l: Seq<char>| starts_with_char(l, ' ')
    } else if which == 1 {
        |l: Seq<char>| starts_with_char(l, '+')
    } else if which == 2 {
        |l: Seq<char>| !starts_with_char(l, '+')
    } else if which == 3 {
        |l: Seq<char>| !starts_with_char(l, '-')
    } else {
        |l: Seq<char>| starts_with_char(l, '-')
    }
}

/// The first character of `s`, if any.
pub fn first_char(s: &str) -> (r: Option<char>)
    ensures
        r == (if s@.len() > 0 { Some(s@[0]) } else { None }),
{
    if s.is_empty() {
        None
    } else {
        Some(s.get_char(0))
    }
}

} // verus!
