//! A context-aware patch library: applies unified diffs found in markdown by searching
//! for each hunk's context instead of trusting line numbers.
//!
//! Patches are read from ` ```diff ` blocks with [`parse_diffs`], and applied in memory
//! with [`apply_patch_to_content`] or [`apply_patch_to_lines`], or hunk by hunk with
//! [`HunkApplier`]. Each hunk is located by an exact match of its context, then an exact
//! match ignoring trailing whitespace, then a fuzzy match whose similarity must reach the
//! fuzz factor of [`ApplyOptions`]; line numbers only break ties.
mod text;
mod diffing;
pub mod outcome;
pub mod options;
pub mod finder;
pub mod hunk;
pub mod report;
pub mod patch;
pub mod apply;
pub mod parse;
pub mod files;
pub mod anonymize;
pub mod normalize;
pub mod laws;

pub use anonymize::{anonymize_command_args, Anonymizer};
pub use apply::{apply_hunk_to_lines, apply_patch_to_content, apply_patch_to_lines, HunkApplier};
pub use diffing::ONE;
pub use files::{can_patch_file, check_path_within, map_io_error, patch_file_content, BatchResult, IoKind, PatchError};
pub use finder::{find_hunk_location, find_hunk_location_in_lines, DefaultHunkFinder, HunkFinder};
pub use hunk::Hunk;
pub use normalize::{compare_patches, format_normalized_patch, patch_text};
pub use options::{ApplyOptions, ApplyOptionsBuilder, DEFAULT_FUZZ_FACTOR};
pub use outcome::{HunkApplyError, HunkLocation, MatchType};
pub use parse::{parse_diffs, ParseError};
pub use patch::Patch;
pub use report::{ApplyResult, HunkApplyStatus, HunkFailure, InMemoryResult, PatchResult};
pub use text::LineText;
