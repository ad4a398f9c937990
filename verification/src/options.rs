//! How a patch is applied: dry run and fuzzy-matching threshold.
use vstd::prelude::*;

verus! {

/// The default similarity threshold for fuzzy matching: seven tenths, in billionths.
pub const DEFAULT_FUZZ_FACTOR: u32 = 700_000_000;

/// Options for configuring how a patch is applied.
#[derive(Debug, Clone, Copy, PartialEq, Eq, Structural)]
pub struct ApplyOptions {
    /// If `true`, no files will be modified. Instead, a diff of the proposed
    /// changes will be generated and returned in [`crate::PatchResult`].
    pub dry_run: bool,
    /// The similarity threshold for fuzzy matching, in billionths
    /// (`0` to `1_000_000_000`). Higher is stricter. `0` disables fuzzy matching.
    pub fuzz_factor: u32,
}

impl Default for ApplyOptions {
    fn default() -> (r: Self)
        ensures
            r.dry_run == false,
            r.fuzz_factor == DEFAULT_FUZZ_FACTOR,
    {
        ApplyOptions { dry_run: false, fuzz_factor: DEFAULT_FUZZ_FACTOR }
    }
}

impl ApplyOptions {
    /// Creates a new builder for `ApplyOptions`, with nothing set yet.
    pub fn builder() -> (r: ApplyOptionsBuilder)
        ensures
            r.dry_run_value() == None::<bool>,
            r.fuzz_factor_value() == None::<u32>,
    {
        ApplyOptionsBuilder { dry_run: None, fuzz_factor: None }
    }
}

/// A builder for creating `ApplyOptions`.
#[derive(Debug, Clone, Copy)]
pub struct ApplyOptionsBuilder {
    dry_run: Option<bool>,
    fuzz_factor: Option<u32>,
}

impl Default for ApplyOptionsBuilder {
    fn default() -> (r: Self)
        ensures
            r.dry_run_value() == None::<bool>,
            r.fuzz_factor_value() == None::<u32>,
    {
        ApplyOptionsBuilder { dry_run: None, fuzz_factor: None }
    }
}

impl ApplyOptionsBuilder {
    /// The dry-run setting given so far, if any.
    pub closed spec fn dry_run_value(&self) -> Option<bool> {
        self.dry_run
    }

    /// The threshold given so far, if any.
    pub closed spec fn fuzz_factor_value(&self) -> Option<u32> {
        self.fuzz_factor
    }

    /// If `true`, no files will be modified. Instead, a diff of the proposed
    /// changes will be generated and returned in [`crate::PatchResult`].
    pub fn dry_run(self, dry_run: bool) -> (r: Self)
        ensures
            r.dry_run_value() == Some(dry_run),
            r.fuzz_factor_value() == self.fuzz_factor_value(),
    {
        ApplyOptionsBuilder { dry_run: Some(dry_run), fuzz_factor: self.fuzz_factor }
    }

    /// Sets the similarity threshold for fuzzy matching, in billionths.
    /// Higher is stricter. `0` disables fuzzy matching.
    pub fn fuzz_factor(self, fuzz_factor: u32) -> (r: Self)
        ensures
            r.fuzz_factor_value() == Some(fuzz_factor),
            r.dry_run_value() == self.dry_run_value(),
    {
        ApplyOptionsBuilder { dry_run: self.dry_run, fuzz_factor: Some(fuzz_factor) }
    }

    /// Builds the `ApplyOptions`; each setting not given takes its default.
    pub fn build(self) -> (r: ApplyOptions)
        ensures
            r.dry_run == match self.dry_run_value() {
                Some(d) => d,
                None => false,
            },
            r.fuzz_factor == match self.fuzz_factor_value() {
                Some(f) => f,
                None => DEFAULT_FUZZ_FACTOR,
            },
    {
        let default = ApplyOptions::default();
        ApplyOptions {
            dry_run: match self.dry_run {
                Some(d) => d,
                None => default.dry_run,
            },
            fuzz_factor: match self.fuzz_factor {
                Some(f) => f,
                None => default.fuzz_factor,
            },
        }
    }
}

} // verus!
