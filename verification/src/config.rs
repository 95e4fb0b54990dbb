//! Search configuration and the global magnitude limits under which the
//! exact integer scoring arithmetic is proved free of overflow.

use vstd::prelude::*;

verus! {

/// Largest admitted `Config::max_size` (number of subset sizes searched).
pub const MAX_SIZE_LIMIT: usize = 16;

/// Largest admitted decay denominator.
pub const DECAY_DEN_LIMIT: u64 = 16;

/// Largest admitted magnitude of a rating or a baseline.
pub const RATING_LIMIT: i64 = 1_000_000;

/// Largest admitted number of respondents.
pub const RESPONDENT_LIMIT: usize = 1_000_000;

/// Largest admitted catalog length when computing baselines.
pub const CATALOG_LIMIT: usize = 1_000_000;

/// The search parameters. The decay factor is the exact rational
/// `decay_num / decay_den`; scores are integers in units of
/// `1 / decay_den^(max_size - 1)`.
pub struct Config {
    /// Strict price cap: a subset is kept iff its total price is `< budget`.
    pub budget: u64,
    /// Numerator of the decay factor.
    pub decay_num: u64,
    /// Denominator of the decay factor.
    pub decay_den: u64,
    /// Subset sizes `0 .. max_size` are searched.
    pub max_size: usize,
}

impl Config {
    /// The decay factor lies strictly between 0 and 1, at least one
    /// subset size is searched, and the cap is positive.
    pub open spec fn wf(self) -> bool {
        &&& 1 <= self.decay_num < self.decay_den <= DECAY_DEN_LIMIT
        &&& 1 <= self.max_size <= MAX_SIZE_LIMIT
        &&& 1 <= self.budget
    }
}

} // verus!
