//! Budget-constrained catalog subset optimizer.
//!
//! Given a catalog of priced items and a panel of respondents' partial
//! ratings over it, the library searches subsets of increasing size,
//! prunes by a strict budget cap, scores each surviving subset's
//! orderings with an order-sensitive diminishing-returns rule, and
//! tracks the best candidate seen so far under strict improvement.
//!
//! All monetary and rating quantities are integers at a caller-chosen
//! scale; the decay factor is an exact rational `decay_num/decay_den`,
//! and scores are reported as exact integers in units of
//! `1 / decay_den^(max_size - 1)`.

use vstd::prelude::*;

pub mod budget;
pub mod combos;
pub mod config;
pub mod perms;
pub mod score;
pub mod search;


verus! {

/// One catalog entry: a display name and a price in integer currency
/// units at the caller's scale.
pub struct Item {
    pub name: String,
    pub price: u64,
}

} // verus!
