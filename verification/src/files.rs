//! Patching files: the errors of file operations, the decisions taken between reading
//! a target and writing it back, and the results of a batch of patches.
use crate::apply::{all_appliable, appliable, apply_hunks, apply_patch_to_content, patch_fits, render, total_lines};
use crate::diffing::{quick_unified_diff, quick_unified_diff_text};
use crate::hunk::{changes_in, match_block, sliceable, Hunk};
use crate::options::ApplyOptions;
use crate::patch::Patch;
use crate::report::{PatchResult, StatusView};
use crate::text::{chars_of, lines, split_lines};
use vstd::prelude::*;

verus! {

#[verifier::external_type_specification]
#[verifier::external_body]
pub struct ExIoError(std::io::Error);

/// Represents the possible errors that can occur during patch operations.
#[derive(Debug)]
pub enum PatchError {
    /// The patch attempted to access a path outside the target directory.
    /// This is a security measure to prevent malicious patches from modifying
    /// unintended files (e.g., `--- a/../../etc/passwd`).
    PathTraversal(String),
    /// The target file for a patch could not be found, and the patch did not
    /// appear to be for file creation (i.e., its first hunk was not an addition-only hunk).
    TargetNotFound(String),
    /// The user does not have permission to read or write to the specified path.
    PermissionDenied { path: String },
    /// The target path for a patch exists but is a directory, not a file.
    TargetIsDirectory { path: String },
    /// An I/O error occurred while reading or writing a file.
    /// This is a "hard" error that stops the entire process.
    Io { path: String, source: std::io::Error },
}

impl PatchError {
    /// The path that the error is about.
    pub open spec fn path(&self) -> Seq<char> {
        match self {
            PatchError::PathTraversal(p) => p@,
            PatchError::TargetNotFound(p) => p@,
            PatchError::PermissionDenied { path } => path@,
            PatchError::TargetIsDirectory { path } => path@,
            PatchError::Io { path, .. } => path@,
        }
    }
}

/// The kinds of I/O failure that patching reports apart from the others.
#[derive(Debug, Clone, Copy, PartialEq, Eq, Structural)]
pub enum IoKind {
    PermissionDenied,
    IsADirectory,
    Other,
}

/// `std::io::Error::kind`, told apart as far as `IoKind` goes. Nothing is claimed of
/// the result: the kind of an I/O error comes from the system, not from plain values.
#[verifier::external_body]
fn io_error_kind(e: &std::io::Error) -> (r: IoKind) {
    match e.kind() {
        std::io::ErrorKind::PermissionDenied => IoKind::PermissionDenied,
        std::io::ErrorKind::IsADirectory => IoKind::IsADirectory,
        _ => IoKind::Other,
    }
}

/// The error for an I/O failure of kind `kind` on `path`: a permission or directory
/// failure gets its own variant, any other keeps the I/O error as its source.
pub fn error_for_kind(path: String, kind: IoKind, source: std::io::Error) -> (r: PatchError)
    ensures
        r.path() == path@,
        kind == IoKind::PermissionDenied ==> r is PermissionDenied,
        kind == IoKind::IsADirectory ==> r is TargetIsDirectory,
        kind == IoKind::Other ==> r == (PatchError::Io { path, source }),
{
    match kind {
        IoKind::PermissionDenied => PatchError::PermissionDenied { path },
        IoKind::IsADirectory => PatchError::TargetIsDirectory { path },
        IoKind::Other => PatchError::Io { path, source },
    }
}

/// Converts a `std::io::Error` met on `path` into a more specific `PatchError`.
pub fn map_io_error(path: String, e: std::io::Error) -> (r: PatchError)
    ensures
        r.path() == path@,
        r is PermissionDenied || r is TargetIsDirectory || r is Io,
{
    let kind = io_error_kind(&e);
    error_for_kind(path, kind, e)
}

/// Whether `p` begins with the path `base`, as `std::path::Path::starts_with` compares them:
/// whole components, in the path syntax of the platform the library is built for.
pub uninterp spec fn path_begins_with(p: Seq<char>, base: Seq<char>) -> bool;

/// `Path::new(p).starts_with(base)`. Claimed: the result is the named comparison of the
/// two strings; it depends on nothing else (the path syntax is fixed when the library is built).
#[verifier::external_body]
fn path_starts_with(p: &str, base: &str) -> (r: bool)
    ensures
        r == path_begins_with(p@, base@),
{
    std::path::Path::new(p).starts_with(base)
}

/// The path-traversal check: a patch for `relative_path` whose target resolves to the
/// canonical path `resolved` may only be applied when `resolved` lies inside the
/// canonical base directory `base`; otherwise the patch is refused with `PathTraversal`.
pub fn check_path_within(relative_path: &str, resolved: &str, base: &str) -> (r: Result<(), PatchError>)
    ensures
        r is Ok <==> path_begins_with(resolved@, base@),
        r matches Err(e) ==> (e matches PatchError::PathTraversal(p) && p@ == relative_path@),
{
    if path_starts_with(resolved, base) {
        Ok(())
    } else {
        Err(PatchError::PathTraversal(String::from_str(relative_path)))
    }
}

/// Whether a patch can be applied to a file without panicking: to an existing file with
/// `line_count` lines, or to a missing one (`None`), whose first hunk must then be
/// well-formed to be tested for file creation.
pub open spec fn file_patchable(patch: Patch, line_count: Option<nat>) -> bool {
    &&& all_appliable(patch.hunks@)
    &&& patch_fits(
        match line_count {
            Some(n) => n,
            None => 0,
        },
        patch.hunks@,
    )
    &&& (line_count is None && patch.hunks@.len() > 0 ==> patch.hunks@[0].well_formed())
}

/// Whether the patch is a file creation: its first hunk has an empty match block.
pub open spec fn creates_file(patch: Patch) -> bool {
    patch.hunks@.len() > 0 && match_block(patch.hunks@[0].text()).len() == 0
}

/// A text given as an optional string slice, seen as characters.
pub open spec fn content_view(c: Option<&str>) -> Option<Seq<char>> {
    match c {
        Some(t) => Some(t@),
        None => None,
    }
}

/// Whether `res` and `write` are what patching the content `original` (`None` for a
/// missing file) gives: the report of applying every hunk to its lines; in a dry run no
/// content to write and the unified diff (three lines of context, headers `a` and `b`)
/// from the original content (empty when missing) to the new one; otherwise the new
/// content to write and no diff.
pub open spec fn file_patched(
    patch: Patch,
    original: Option<Seq<char>>,
    options: ApplyOptions,
    res: PatchResult,
    write: Option<String>,
) -> bool {
    let start = match original {
        Some(c) => lines(c),
        None => Seq::<Seq<char>>::empty(),
    };
    let before = match original {
        Some(c) => c,
        None => Seq::<char>::empty(),
    };
    let done = apply_hunks(patch.hunks@, start, options.fuzz_factor);
    let after = render(done.1, patch.ends_with_newline);
    &&& res.report.statuses() == done.0
    &&& options.dry_run ==> write is None && (res.diff matches Some(d) && d@ == quick_unified_diff(
        before,
        after,
        3,
        seq!['a'],
        seq!['b'],
    ))
    &&& !options.dry_run ==> res.diff is None && (write matches Some(w) && w@ == after)
}

/// Whether every line of the hunk can have its prefix cut off.
fn hunk_is_well_formed(h: &Hunk) -> (r: bool)
    ensures
        r == h.well_formed(),
{
    let mut i: usize = 0;
    while i < h.lines.len()
        invariant
            i <= h.lines@.len(),
            forall|j: int| 0 <= j < i ==> sliceable(#[trigger] h.lines@[j]@),
        decreases h.lines.len() - i,
    {
        let c = crate::hunk::first_char(h.lines[i].as_str());
        match c {
            Some(ch) => {
                if (ch as u32) >= 0x80 {
                    return false;
                }
            },
            None => {
                return false;
            },
        }
        i += 1;
    }
    true
}

/// Whether the patch can be applied to a file with `line_count` lines, or to a missing
/// file (`None`), without panicking (see `file_patchable`).
pub fn can_patch_file(patch: &Patch, line_count: Option<usize>) -> (r: bool)
    ensures
        r == file_patchable(
            *patch,
            match line_count {
                Some(n) => Some(n as nat),
                None => None,
            },
        ),
{
    let hs = &patch.hunks;
    let mut acc: u128 = match line_count {
        Some(n) => n as u128,
        None => 0,
    };
    let ghost start: nat = match line_count {
        Some(n) => n as nat,
        None => 0,
    };
    let ghost lc = match line_count {
        Some(n) => Some(n as nat),
        None => None::<nat>,
    };
    proof {
        assert(hs@.skip(0) =~= hs@);
    }
    let mut i: usize = 0;
    while i < hs.len()
        invariant
            i <= hs@.len(),
            hs@ == patch.hunks@,
            start == match lc {
                Some(n) => n,
                None => 0,
            },
            lc == match line_count {
                Some(n) => Some(n as nat),
                None => None::<nat>,
            },
            acc <= usize::MAX,
            acc + 4 * total_lines(hs@.skip(i as int)) == start + 4 * total_lines(hs@),
            forall|j: int| 0 <= j < i ==> appliable(#[trigger] hs@[j]),
        decreases hs.len() - i,
    {
        proof {
            crate::apply::lemma_total_lines_skip(hs@, i as int);
        }
        let h = &hs[i];
        if h.has_changes() && !hunk_is_well_formed(h) {
            proof {
                assert(!appliable(hs@[i as int]));
            }
            return false;
        }
        acc = acc + 4 * (h.lines.len() as u128);
        if acc > usize::MAX as u128 {
            proof {
                assert(!patch_fits(start, hs@));
            }
            return false;
        }
        i += 1;
    }
    proof {
        assert(hs@.skip(i as int) =~= Seq::<Hunk>::empty());
    }
    if acc + 15 > usize::MAX as u128 {
        return false;
    }
    if line_count.is_none() && hs.len() > 0 && !hunk_is_well_formed(&hs[0]) {
        return false;
    }
    true
}

/// Applies a patch to the content of a target file, `None` when the file does not exist,
/// and says what to write back.
///
/// A missing file is only patched when the patch creates it; otherwise the result is
/// `TargetNotFound` with `display_path`. In a dry run, nothing is to be written and the
/// result carries the unified diff (three lines of context, headers `a` and `b`) between
/// the original content (empty for a missing file) and the new one; otherwise the new
/// content is to be written and no diff is made.
pub fn patch_file_content(patch: &Patch, original_content: Option<&str>, display_path: String, options: &ApplyOptions) -> (r: Result<(PatchResult, Option<String>), PatchError>)
    requires
        file_patchable(
            *patch,
            match original_content {
                Some(c) => Some(lines(c@).len()),
                None => None,
            },
        ),
    ensures
        original_content is None && !creates_file(*patch) ==> (r matches Err(PatchError::TargetNotFound(p))
            && p@ == display_path@),
        original_content is Some || creates_file(*patch) ==> (r matches Ok((res, write)) && file_patched(
            *patch,
            content_view(original_content),
            *options,
            res,
            write,
        )),
{
    if original_content.is_none() && !patch.is_creation() {
        return Err(PatchError::TargetNotFound(display_path));
    }
    let result = apply_patch_to_content(patch, original_content, options);
    let new_content = result.new_content;
    let report = result.report;
    if options.dry_run {
        let before: &str = match original_content {
            Some(c) => c,
            None => "",
        };
        proof {
            reveal_strlit("");
            reveal_strlit("a");
            reveal_strlit("b");
        }
        let diff_text = quick_unified_diff_text(before, new_content.as_str(), 3, "a", "b");
        let res = PatchResult { report, diff: Some(diff_text) };
        proof {
            assert("a"@ =~= seq!['a']);
            assert("b"@ =~= seq!['b']);
            assert(before@ == match content_view(original_content) {
                Some(c) => c,
                None => Seq::<char>::empty(),
            });
            assert(res.report.statuses() == apply_hunks(patch.hunks@, match content_view(original_content) {
                Some(c) => lines(c),
                None => Seq::<Seq<char>>::empty(),
            }, options.fuzz_factor).0);
        }
        Ok((res, None))
    } else {
        Ok((PatchResult { report, diff: None }, Some(new_content)))
    }
}

/// The result of applying a batch of patches to a directory.
#[derive(Debug)]
pub struct BatchResult {
    /// A list of results for each patch operation attempted.
    /// Each entry is a tuple of the target file path and the result of the operation.
    pub results: Vec<(String, Result<PatchResult, PatchError>)>,
}

/// The positions of the entries of `rs` that hold an error, in order.
pub open spec fn error_positions(rs: Seq<(String, Result<PatchResult, PatchError>)>) -> Seq<int>
    decreases rs.len(),
{
    if rs.len() == 0 {
        Seq::empty()
    } else {
        let prev = error_positions(rs.drop_last());
        if rs.last().1 is Err {
            prev.push(rs.len() - 1)
        } else {
            prev
        }
    }
}

impl BatchResult {
    /// Checks if all patches in the batch were applied without "hard" errors (like I/O
    /// errors). This does *not* check if all hunks were applied cleanly: for that, inspect
    /// the individual `PatchResult` objects.
    pub fn all_succeeded(&self) -> (r: bool)
        ensures
            r == forall|i: int| 0 <= i < self.results@.len() ==> (#[trigger] self.results@[i]).1 is Ok,
    {
        let mut i: usize = 0;
        while i < self.results.len()
            invariant
                i <= self.results@.len(),
                forall|j: int| 0 <= j < i ==> (#[trigger] self.results@[j]).1 is Ok,
            decreases self.results.len() - i,
        {
            if self.results[i].1.is_err() {
                return false;
            }
            i += 1;
        }
        true
    }

    /// Returns a list of all operations that resulted in a "hard" error (e.g., I/O), each
    /// as its path and its error, in order.
    pub fn hard_failures(&self) -> (r: Vec<(&String, &PatchError)>)
        ensures
            r@.len() == error_positions(self.results@).len(),
            forall|k: int|
                0 <= k < r@.len() ==> {
                    let e = self.results@[error_positions(self.results@)[k]];
                    &&& *(#[trigger] r@[k]).0 == e.0
                    &&& e.1 == Err::<PatchResult, PatchError>(*r@[k].1)
                },
    {
        let mut out: Vec<(&String, &PatchError)> = Vec::new();
        let mut i: usize = 0;
        while i < self.results.len()
            invariant
                i <= self.results@.len(),
                out@.len() == error_positions(self.results@.take(i as int)).len(),
                forall|k: int|
                    0 <= k < out@.len() ==> {
                        let e = self.results@[error_positions(self.results@.take(i as int))[k]];
                        &&& *(#[trigger] out@[k]).0 == e.0
                        &&& e.1 == Err::<PatchResult, PatchError>(*out@[k].1)
                    },
                forall|k: int|
                    0 <= k < error_positions(self.results@.take(i as int)).len() ==> 0
                        <= #[trigger] error_positions(self.results@.take(i as int))[k] < i,
            decreases self.results.len() - i,
        {
            proof {
                assert(self.results@.take(i + 1).drop_last() =~= self.results@.take(i as int));
            }
            let entry = &self.results[i];
            match &entry.1 {
                Err(e) => {
                    out.push((&entry.0, e));
                },
                Ok(_) => {},
            }
            i += 1;
        }
        proof {
            assert(self.results@.take(self.results@.len() as int) =~= self.results@);
        }
        out
    }
}

} // verus!
