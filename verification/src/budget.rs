//! Total price of a subset of catalog indices, and the strict budget
//! filter: a subset survives iff its total price is strictly below the
//! configured cap.

use vstd::prelude::*;
use crate::Item;
use crate::config::Config;

verus! {

/// Every index of `sel` points into a catalog of length `n`.
pub open spec fn valid_sel(sel: Seq<usize>, n: nat) -> bool {
    forall|j: int| 0 <= j < sel.len() ==> (#[trigger] sel[j]) < n
}

/// Total price of the selected indices, as an unbounded integer.
pub open spec fn spec_price(catalog: Seq<Item>, sel: Seq<usize>) -> int
    decreases sel.len(),
{
    if sel.len() == 0 {
        0
    } else {
        catalog[sel[0] as int].price + spec_price(catalog, sel.drop_first())
    }
}

/// A prefix-style unrolling: the sum of the first `j + 1` selected
/// prices is the sum of the first `j` plus the price at position `j`.
pub proof fn lemma_price_take_step(catalog: Seq<Item>, sel: Seq<usize>, j: int)
    requires
        0 <= j < sel.len(),
    ensures
        spec_price(catalog, sel.take(j + 1))
            == spec_price(catalog, sel.take(j)) + catalog[sel[j] as int].price,
    decreases j,
{
    if j == 0 {
        assert(sel.take(1).drop_first() =~= sel.take(0));
    } else {
        assert(sel.take(j + 1).drop_first() =~= sel.drop_first().take(j));
        assert(sel.take(j).drop_first() =~= sel.drop_first().take(j - 1));
        lemma_price_take_step(catalog, sel.drop_first(), j - 1);
    }
}

/// The total price of a selection of length `k` from prices each at
/// most `u64::MAX` is at most `k * u64::MAX`.
pub proof fn lemma_price_bound(catalog: Seq<Item>, sel: Seq<usize>)
    ensures
        0 <= spec_price(catalog, sel) <= sel.len() * 0xffff_ffff_ffff_ffff,
    decreases sel.len(),
{
    if sel.len() == 0 {
    } else {
        lemma_price_bound(catalog, sel.drop_first());
        assert(sel.len() * 0xffff_ffff_ffff_ffff
            == (sel.len() - 1) * 0xffff_ffff_ffff_ffff + 0xffff_ffff_ffff_ffff)
            by (nonlinear_arith);
    }
}

/// Total price of the selected catalog entries. Exact: the result is
/// the mathematical sum of the selected prices.
pub fn total_price(catalog: &Vec<Item>, sel: &Vec<usize>) -> (r: u128)
    requires
        valid_sel(sel@, catalog@.len()),
    ensures
        r == spec_price(catalog@, sel@),
{
    let mut acc: u128 = 0;
    let mut j: usize = 0;
    proof {
        assert(sel@.take(0) =~= Seq::<usize>::empty());
    }
    while j < sel.len()
        invariant
            0 <= j <= sel@.len(),
            valid_sel(sel@, catalog@.len()),
            acc == spec_price(catalog@, sel@.take(j as int)),
            acc <= j * 0xffff_ffff_ffff_ffff,
        decreases sel@.len() - j,
    {
        proof {
            lemma_price_take_step(catalog@, sel@, j as int);
            assert((j + 1) * 0xffff_ffff_ffff_ffff == j * 0xffff_ffff_ffff_ffff
                + 0xffff_ffff_ffff_ffff) by (nonlinear_arith);
            assert(j * 0xffff_ffff_ffff_ffff
                <= 0xffff_ffff_ffff_ffff * 0xffff_ffff_ffff_ffff) by (nonlinear_arith)
                requires j <= 0xffff_ffff_ffff_ffffu64;
        }
        acc = acc + catalog[sel[j]].price as u128;
        j = j + 1;
    }
    proof {
        assert(sel@.take(sel@.len() as int) =~= sel@);
    }
    acc
}

/// Strict budget filter: accepts a selection iff its total price is
/// strictly less than the configured cap; a selection priced exactly
/// at the cap is rejected.
pub fn within_budget(cfg: &Config, catalog: &Vec<Item>, sel: &Vec<usize>) -> (r: bool)
    requires
        valid_sel(sel@, catalog@.len()),
    ensures
        r <==> spec_price(catalog@, sel@) < cfg.budget,
{
    total_price(catalog, sel) < cfg.budget as u128
}

} // verus!
