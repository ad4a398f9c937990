//! A patch: the hunks to apply to one file.
use crate::hunk::{inverted_line, match_block, replace_block, Hunk};
use vstd::prelude::*;

verus! {

/// Represents all the changes to be applied to a single file.
///
/// A `Patch` is derived from a `--- a/path/to/file` section within a ` ```diff`
/// block and contains one or more [`Hunk`]s.
#[derive(Debug, Clone, PartialEq, Eq)]
pub struct Patch {
    /// The relative path of the file to be patched, from the target directory.
    pub file_path: String,
    /// A list of hunks to be applied to the file.
    pub hunks: Vec<Hunk>,
    /// Indicates whether the file should end with a newline.
    /// This is determined by the presence of `\ No newline at end of file` in the diff.
    pub ends_with_newline: bool,
}

/// Whether `h2` is the inversion of `h1`.
pub open spec fn is_inversion(h1: Hunk, h2: Hunk) -> bool {
    &&& h2.text() == h1.text().map_values(|l: Seq<char>| inverted_line(l))
    &&& h2.old_start_line == h1.new_start_line
    &&& h2.new_start_line == h1.old_start_line
}

impl Patch {
    /// Whether the hunks before the `i`-th all have an empty replace block.
    pub open spec fn replace_empty_before(&self, i: int) -> bool {
        forall|j: int| 0 <= j < i ==> replace_block((#[trigger] self.hunks@[j]).text()).len() == 0
    }

    /// Creates a new `Patch` that reverses the changes in this one: each hunk is
    /// inverted. The newline status of the reversed patch defaults to `true`.
    pub fn invert(&self) -> (r: Patch)
        ensures
            r.file_path@ == self.file_path@,
            r.hunks@.len() == self.hunks@.len(),
            forall|i: int| 0 <= i < r.hunks@.len() ==> is_inversion(self.hunks@[i], #[trigger] r.hunks@[i]),
            r.ends_with_newline,
    {
        let mut hunks: Vec<Hunk> = Vec::new();
        let mut i: usize = 0;
        while i < self.hunks.len()
            invariant
                i <= self.hunks@.len(),
                hunks@.len() == i,
                forall|j: int| 0 <= j < i ==> is_inversion(self.hunks@[j], #[trigger] hunks@[j]),
            decreases self.hunks.len() - i,
        {
            let h = self.hunks[i].invert();
            hunks.push(h);
            i += 1;
        }
        Patch { file_path: self.file_path.clone(), hunks, ends_with_newline: true }
    }

    /// Checks if the patch represents a file creation: its first hunk has an empty
    /// match block, i.e. it applies to an empty file.
    pub fn is_creation(&self) -> (r: bool)
        requires
            self.hunks@.len() > 0 ==> self.hunks@[0].well_formed(),
        ensures
            r == (self.hunks@.len() > 0 && match_block(self.hunks@[0].text()).len() == 0),
    {
        if self.hunks.len() == 0 {
            false
        } else {
            self.hunks[0].get_match_block().len() == 0
        }
    }

    /// Checks if the patch represents a full file deletion: it has at least one hunk and
    /// every hunk has an empty replace block.
    pub fn is_deletion(&self) -> (r: bool)
        requires
            forall|i: int|
                0 <= i < self.hunks@.len() && self.replace_empty_before(i) ==> (#[trigger] self.hunks@[i]).well_formed(),
        ensures
            r == (self.hunks@.len() > 0 && self.replace_empty_before(self.hunks@.len() as int)),
    {
        if self.hunks.len() == 0 {
            return false;
        }
        let mut i: usize = 0;
        while i < self.hunks.len()
            invariant
                i <= self.hunks@.len(),
                self.replace_empty_before(i as int),
                forall|k: int|
                    0 <= k < self.hunks@.len() && self.replace_empty_before(k) ==> (#[trigger] self.hunks@[k]).well_formed(),
            decreases self.hunks.len() - i,
        {
            if self.hunks[i].get_replace_block().len() != 0 {
                return false;
            }
            i += 1;
            proof {
                assert forall|j: int| 0 <= j < i implies replace_block((#[trigger] self.hunks@[j]).text()).len() == 0 by {
                    if j < i - 1 {
                        assert(self.replace_empty_before(i - 1));
                    }
                }
            }
        }
        true
    }
}

} // verus!
