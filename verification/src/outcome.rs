//! Locations, match kinds and the reasons a hunk cannot be placed.
use vstd::prelude::*;

verus! {

/// Represents the location where a hunk should be applied.
#[derive(Debug, Clone, Copy, PartialEq, Eq, Structural)]
pub struct HunkLocation {
    /// The 0-based starting line index in the target content where the hunk should be applied.
    pub start_index: usize,
    /// The number of lines in the target content that will be replaced. This may differ
    /// from the number of lines in the hunk's "match block" when a fuzzy match is found.
    pub length: usize,
}

impl HunkLocation {
    /// The location as a user reads it: `line N`, with `N` counted from one
    /// (what the `Display` of this type writes).
    pub fn describe(&self) -> (r: String)
        requires
            self.start_index < usize::MAX,
        ensures
            r@ == seq!['l', 'i', 'n', 'e', ' '] + crate::text::decimal(self.start_index as nat + 1),
    {
        let mut out = String::from_str("line ");
        proof {
            reveal_strlit("line ");
        }
        let digits = crate::text::format_decimal(self.start_index + 1);
        crate::text::push_all(&mut out, &digits);
        out
    }
}

/// Describes the method used to successfully locate and apply a hunk.
#[derive(Debug, Clone, Copy, PartialEq, Eq, Structural)]
pub enum MatchType {
    /// An exact, character-for-character match of the context/deletion lines.
    Exact,
    /// An exact match after ignoring trailing whitespace on each line.
    ExactIgnoringWhitespace,
    /// A fuzzy match found using a similarity algorithm.
    Fuzzy {
        /// The similarity of the match, in billionths (`1_000_000_000` is identical).
        score: u64,
    },
}

/// The reason a hunk failed to apply.
#[derive(Debug, Clone, PartialEq)]
pub enum HunkApplyError {
    /// The context lines for the hunk could not be found in the target file.
    ContextNotFound,
    /// An exact match for the hunk's context was found in multiple locations,
    /// and the ambiguity could not be resolved by the line number hint.
    AmbiguousExactMatch(Vec<usize>),
    /// A fuzzy match for the hunk's context was found in multiple locations with
    /// the same top score, and the ambiguity could not be resolved.
    AmbiguousFuzzyMatch(Vec<(usize, usize)>),
    /// The best fuzzy match found was below the required similarity threshold.
    FuzzyMatchBelowThreshold {
        /// The similarity of the best match, in billionths.
        best_score: u64,
        /// The threshold it had to reach, in billionths.
        threshold: u32,
        /// The location of the best-scoring (but rejected) fuzzy match.
        location: HunkLocation,
    },
}

/// `HunkApplyError` with its lists seen as sequences.
pub enum ApplyErrorView {
    ContextNotFound,
    AmbiguousExactMatch(Seq<usize>),
    AmbiguousFuzzyMatch(Seq<(usize, usize)>),
    FuzzyMatchBelowThreshold { best_score: u64, threshold: u32, location: HunkLocation },
}

impl View for HunkApplyError {
    type V = ApplyErrorView;

    open spec fn view(&self) -> ApplyErrorView {
        match self {
            HunkApplyError::ContextNotFound => ApplyErrorView::ContextNotFound,
            HunkApplyError::AmbiguousExactMatch(v) => ApplyErrorView::AmbiguousExactMatch(v@),
            HunkApplyError::AmbiguousFuzzyMatch(v) => ApplyErrorView::AmbiguousFuzzyMatch(v@),
            HunkApplyError::FuzzyMatchBelowThreshold { best_score, threshold, location } =>
                ApplyErrorView::FuzzyMatchBelowThreshold {
                best_score: *best_score,
                threshold: *threshold,
                location: *location,
            },
        }
    }
}

/// Where and how a hunk was located, or why it was not.
pub type Located = Result<(HunkLocation, MatchType), ApplyErrorView>;

pub open spec fn located_view(r: Result<(HunkLocation, MatchType), HunkApplyError>) -> Located {
    match r {
        Ok(x) => Ok(x),
        Err(e) => Err(e@),
    }
}

impl HunkApplyError {
    /// A copy of this error.
    pub fn copy(&self) -> (r: HunkApplyError)
        ensures
            r@ == self@,
    {
        match self {
            HunkApplyError::ContextNotFound => HunkApplyError::ContextNotFound,
            HunkApplyError::AmbiguousExactMatch(v) => {
                let mut w: Vec<usize> = Vec::new();
                let mut i: usize = 0;
                while i < v.len()
                    invariant
                        i <= v@.len(),
                        w@ == v@.take(i as int),
                    decreases v.len() - i,
                {
                    w.push(v[i]);
                    i += 1;
                    proof {
                        assert(w@ =~= v@.take(i as int));
                    }
                }
                proof {
                    assert(w@ =~= v@);
                }
                HunkApplyError::AmbiguousExactMatch(w)
            },
            HunkApplyError::AmbiguousFuzzyMatch(v) => {
                let mut w: Vec<(usize, usize)> = Vec::new();
                let mut i: usize = 0;
                while i < v.len()
                    invariant
                        i <= v@.len(),
                        w@ == v@.take(i as int),
                    decreases v.len() - i,
                {
                    w.push(v[i]);
                    i += 1;
                    proof {
                        assert(w@ =~= v@.take(i as int));
                    }
                }
                proof {
                    assert(w@ =~= v@);
                }
                HunkApplyError::AmbiguousFuzzyMatch(w)
            },
            HunkApplyError::FuzzyMatchBelowThreshold { best_score, threshold, location } => {
                HunkApplyError::FuzzyMatchBelowThreshold {
                    best_score: *best_score,
                    threshold: *threshold,
                    location: *location,
                }
            },
        }
    }
}

} // verus!
