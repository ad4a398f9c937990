//! Per-hunk statuses and the reports built from them.
use crate::outcome::{ApplyErrorView, HunkApplyError, HunkLocation, MatchType};
use vstd::prelude::*;

verus! {

/// The result of applying a single hunk.
#[derive(Debug, Clone, PartialEq)]
pub enum HunkApplyStatus {
    /// The hunk was applied successfully.
    Applied {
        /// The location where the hunk was applied.
        location: HunkLocation,
        /// The type of match that was used to find the location.
        match_type: MatchType,
        /// The original lines that were replaced by the hunk.
        replaced_lines: Vec<String>,
    },
    /// The hunk was skipped because it contained no effective changes.
    SkippedNoChanges,
    /// The hunk failed to apply for the specified reason.
    Failed(HunkApplyError),
}

/// `HunkApplyStatus` with its lists seen as sequences.
pub enum StatusView {
    Applied { location: HunkLocation, match_type: MatchType, replaced_lines: Seq<Seq<char>> },
    SkippedNoChanges,
    Failed(ApplyErrorView),
}

impl View for HunkApplyStatus {
    type V = StatusView;

    open spec fn view(&self) -> StatusView {
        match self {
            HunkApplyStatus::Applied { location, match_type, replaced_lines } => StatusView::Applied {
                location: *location,
                match_type: *match_type,
                replaced_lines: replaced_lines.deep_view(),
            },
            HunkApplyStatus::SkippedNoChanges => StatusView::SkippedNoChanges,
            HunkApplyStatus::Failed(e) => StatusView::Failed(e@),
        }
    }
}

/// Contains detailed results for each hunk within a patch operation.
#[derive(Debug, Clone, PartialEq)]
pub struct ApplyResult {
    /// A list of statuses, one for each hunk in the original patch.
    pub hunk_results: Vec<HunkApplyStatus>,
}

/// Details about a hunk that failed to apply.
#[derive(Debug, Clone, PartialEq)]
pub struct HunkFailure {
    /// The 1-based index of the hunk that failed.
    pub hunk_index: usize,
    /// The reason for the failure.
    pub reason: HunkApplyError,
}

/// The statuses of a report, each seen as a `StatusView`.
pub open spec fn status_views(v: Seq<HunkApplyStatus>) -> Seq<StatusView> {
    Seq::new(v.len(), |i: int| v[i]@)
}

/// The failures among `sts`, each with its 1-based position, in order.
pub open spec fn failures_of(sts: Seq<StatusView>) -> Seq<(usize, ApplyErrorView)>
    decreases sts.len(),
{
    if sts.len() == 0 {
        Seq::empty()
    } else {
        let prev = failures_of(sts.drop_last());
        match sts.last() {
            StatusView::Failed(e) => prev.push((sts.len() as usize, e)),
            _ => prev,
        }
    }
}

/// Whether no status is a failure.
pub open spec fn none_failed(sts: Seq<StatusView>) -> bool {
    forall|i: int| 0 <= i < sts.len() ==> !(#[trigger] sts[i] is Failed)
}

impl ApplyResult {
    /// The statuses of this report.
    pub open spec fn statuses(&self) -> Seq<StatusView> {
        status_views(self.hunk_results@)
    }

    /// Checks if all hunks in the patch were applied successfully or skipped.
    /// Returns `false` if any hunk failed to apply.
    pub fn all_applied_cleanly(&self) -> (r: bool)
        ensures
            r == none_failed(self.statuses()),
    {
        let mut i: usize = 0;
        while i < self.hunk_results.len()
            invariant
                i <= self.hunk_results@.len(),
                forall|j: int| 0 <= j < i ==> !(#[trigger] self.statuses()[j] is Failed),
            decreases self.hunk_results.len() - i,
        {
            match &self.hunk_results[i] {
                HunkApplyStatus::Failed(_) => {
                    proof {
                        assert(self.statuses()[i as int] is Failed);
                    }
                    return false;
                },
                _ => {},
            }
            i += 1;
        }
        true
    }

    /// Returns a list of all hunks that failed to apply, along with their 1-based index.
    pub fn failures(&self) -> (r: Vec<HunkFailure>)
        requires
            self.hunk_results@.len() < usize::MAX,
        ensures
            r@.len() == failures_of(self.statuses()).len(),
            forall|i: int|
                0 <= i < r@.len() ==> (#[trigger] r@[i]).hunk_index == failures_of(self.statuses())[i].0
                    && r@[i].reason@ == failures_of(self.statuses())[i].1,
    {
        let mut out: Vec<HunkFailure> = Vec::new();
        let mut i: usize = 0;
        while i < self.hunk_results.len()
            invariant
                i <= self.hunk_results@.len(),
                self.hunk_results@.len() < usize::MAX,
                out@.len() == failures_of(self.statuses().take(i as int)).len(),
                forall|k: int|
                    0 <= k < out@.len() ==> (#[trigger] out@[k]).hunk_index == failures_of(
                        self.statuses().take(i as int),
                    )[k].0 && out@[k].reason@ == failures_of(self.statuses().take(i as int))[k].1,
            decreases self.hunk_results.len() - i,
        {
            proof {
                assert(self.statuses().take(i + 1).drop_last() =~= self.statuses().take(i as int));
                assert(self.statuses().take(i + 1).last() == self.hunk_results@[i as int]@);
            }
            match &self.hunk_results[i] {
                HunkApplyStatus::Failed(reason) => {
                    let ghost before = out@;
                    out.push(HunkFailure { hunk_index: i + 1, reason: reason.copy() });
                    proof {
                        assert forall|k: int| 0 <= k < out@.len() implies (#[trigger] out@[k]).hunk_index
                            == failures_of(self.statuses().take(i + 1))[k].0 && out@[k].reason@
                            == failures_of(self.statuses().take(i + 1))[k].1 by {
                            if k < before.len() {
                                assert(out@[k] == before[k]);
                            }
                        }
                    }
                },
                _ => {},
            }
            i += 1;
        }
        proof {
            assert(self.statuses().take(self.hunk_results@.len() as int) =~= self.statuses());
        }
        out
    }
}

/// The result of an in-memory patch operation.
#[derive(Debug, Clone, PartialEq)]
pub struct InMemoryResult {
    /// The new content after applying the patch.
    pub new_content: String,
    /// Detailed results for each hunk within the patch operation.
    pub report: ApplyResult,
}

/// The result of applying a patch to a file.
#[derive(Debug, Clone, PartialEq)]
pub struct PatchResult {
    /// Detailed results for each hunk within the patch operation.
    pub report: ApplyResult,
    /// The unified diff of the proposed changes. This is only populated
    /// when `dry_run` was set to `true` in [`crate::ApplyOptions`].
    pub diff: Option<String>,
}

} // verus!
