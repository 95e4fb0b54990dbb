//! The order search's candidate generator: every permutation of a
//! selection, in the order that picks each position's element in turn.
//! Every emitted arrangement carries the same items (as a multiset) as
//! the input, so its total price and index validity are unchanged.

use vstd::prelude::*;
use crate::Item;
use crate::budget::spec_price;
use crate::budget::valid_sel;
use crate::combos::lemma_map_view_push;

verus! {

/// All arrangements of `s`: those starting with `s[0]` first, then
/// with `s[1]`, and so on.
pub open spec fn perms_of(s: Seq<usize>) -> Seq<Seq<usize>>
    decreases s.len(), s.len() + 1,
{
    if s.len() == 0 {
        seq![Seq::<usize>::empty()]
    } else {
        perms_sel(s, 0)
    }
}

/// The arrangements of `s` whose first element is one of
/// `s[i], s[i + 1], ...`, in that order of first elements.
pub open spec fn perms_sel(s: Seq<usize>, i: int) -> Seq<Seq<usize>>
    decreases s.len(), s.len() - i,
{
    if i < 0 || i >= s.len() {
        Seq::<Seq<usize>>::empty()
    } else {
        perms_of(s.remove(i)).map_values(|p: Seq<usize>| seq![s[i]] + p)
            + perms_sel(s, i + 1)
    }
}

/// Every emitted arrangement rearranges exactly the input items.
pub proof fn lemma_perms_sound(s: Seq<usize>, idx: int)
    requires
        0 <= idx < perms_of(s).len(),
    ensures
        perms_of(s)[idx].to_multiset() == s.to_multiset(),
        perms_of(s)[idx].len() == s.len(),
    decreases s.len(), s.len() + 1,
{
    broadcast use vstd::seq_lib::group_to_multiset_ensures;

    if s.len() == 0 {
        assert(perms_of(s)[idx] == Seq::<usize>::empty());
        assert(Seq::<usize>::empty().to_multiset() =~= s.to_multiset());
    } else {
        lemma_perms_sel_sound(s, 0, idx);
    }
}

/// Helper for `lemma_perms_sound`, over the tail blocks.
pub proof fn lemma_perms_sel_sound(s: Seq<usize>, i: int, idx: int)
    requires
        0 <= i < s.len(),
        0 <= idx < perms_sel(s, i).len(),
    ensures
        perms_sel(s, i)[idx].to_multiset() == s.to_multiset(),
        perms_sel(s, i)[idx].len() == s.len(),
    decreases s.len(), s.len() - i,
{
    broadcast use vstd::seq_lib::group_to_multiset_ensures;

    let block = perms_of(s.remove(i)).map_values(|p: Seq<usize>| seq![s[i]] + p);
    if idx < block.len() {
        lemma_perms_sound(s.remove(i), idx);
        let p = perms_of(s.remove(i))[idx];
        let arranged = seq![s[i]] + p;
        assert(arranged =~= p.insert(0, s[i]));
        assert(p.insert(0, s[i]).to_multiset() == p.to_multiset().insert(s[i]));
        assert(s.remove(i).to_multiset() == s.to_multiset().remove(s[i]));
        assert(s.to_multiset().contains(s[i])) by {
            assert(s.contains(s[i]));
        }
        assert(s.to_multiset().remove(s[i]).insert(s[i]) =~= s.to_multiset());
        assert(perms_sel(s, i)[idx] == arranged);
    } else {
        assert(i + 1 < s.len()) by {
            if i + 1 >= s.len() {
                assert(perms_sel(s, i + 1).len() == 0);
            }
        }
        lemma_perms_sel_sound(s, i + 1, idx - block.len());
        assert(perms_sel(s, i)[idx] == perms_sel(s, i + 1)[idx - block.len()]);
    }
}

/// Anything a block of `perms_sel` holds, every earlier block's
/// enumeration holds as well.
proof fn lemma_perms_sel_extends(s: Seq<usize>, j: int, i: int, e: Seq<usize>)
    requires
        0 <= j <= i < s.len(),
        perms_of(s.remove(i)).map_values(|p: Seq<usize>| seq![s[i]] + p).contains(e),
    ensures
        perms_sel(s, j).contains(e),
    decreases i - j,
{
    let block = perms_of(s.remove(j)).map_values(|p: Seq<usize>| seq![s[j]] + p);
    if j == i {
        let idx = choose|idx: int| 0 <= idx < block.len() && (#[trigger] block[idx]) == e;
        assert(perms_sel(s, j)[idx] == e);
    } else {
        lemma_perms_sel_extends(s, j + 1, i, e);
        let idx = choose|idx: int|
            0 <= idx < perms_sel(s, j + 1).len() && (#[trigger] perms_sel(s, j + 1)[idx]) == e;
        assert(perms_sel(s, j)[block.len() + idx] == e);
    }
}

/// The order search misses no arrangement: every sequence carrying
/// exactly the selection's items appears in the enumeration.
pub proof fn lemma_perms_complete(s: Seq<usize>, p: Seq<usize>)
    requires
        p.to_multiset() == s.to_multiset(),
    ensures
        perms_of(s).contains(p),
    decreases s.len(),
{
    broadcast use vstd::seq_lib::group_to_multiset_ensures;

    if s.len() == 0 {
        assert(p.to_multiset().len() == 0);
        assert(p.len() == 0);
        assert(p =~= Seq::<usize>::empty());
        assert(perms_of(s)[0] == p);
    } else {
        vstd::seq_lib::to_multiset_len(p);
        vstd::seq_lib::to_multiset_len(s);
        assert(p.len() == s.len());
        let x = p[0];
        assert(p.contains(x));
        assert(s.to_multiset().count(x) > 0);
        assert(s.contains(x));
        let i = choose|i: int| 0 <= i < s.len() && s[i] == x;
        let tail = p.drop_first();
        assert(p.remove(0) =~= tail);
        assert(tail.to_multiset() == p.to_multiset().remove(x));
        assert(s.remove(i).to_multiset() == s.to_multiset().remove(x));
        lemma_perms_complete(s.remove(i), tail);
        let block = perms_of(s.remove(i)).map_values(|q: Seq<usize>| seq![s[i]] + q);
        let idx = choose|idx: int|
            0 <= idx < perms_of(s.remove(i)).len()
                && (#[trigger] perms_of(s.remove(i))[idx]) == tail;
        assert(block[idx] == seq![s[i]] + tail);
        assert(seq![s[i]] + tail =~= p);
        assert(block.contains(p));
        lemma_perms_sel_extends(s, 0, i, p);
    }
}

/// A selection's total price is a function of its items alone: any
/// rearrangement with the same items prices the same.
pub proof fn lemma_price_multiset(catalog: Seq<Item>, p: Seq<usize>, s: Seq<usize>)
    requires
        p.to_multiset() == s.to_multiset(),
    ensures
        spec_price(catalog, p) == spec_price(catalog, s),
    decreases p.len(),
{
    broadcast use vstd::seq_lib::group_to_multiset_ensures;

    if p.len() == 0 {
        assert(s.to_multiset().len() == 0);
        assert(s.len() == 0);
    } else {
        let x = p[0];
        assert(p.contains(x));
        assert(s.to_multiset().count(x) > 0);
        assert(s.contains(x));
        let i = choose|i: int| 0 <= i < s.len() && s[i] == x;
        lemma_price_remove(catalog, s, i);
        assert(p.remove(0) =~= p.drop_first());
        assert(p.drop_first().to_multiset() == p.to_multiset().remove(x));
        assert(s.remove(i).to_multiset() == s.to_multiset().remove(x));
        lemma_price_multiset(catalog, p.drop_first(), s.remove(i));
    }
}

/// Splitting one selected index out of the price sum.
pub proof fn lemma_price_remove(catalog: Seq<Item>, s: Seq<usize>, i: int)
    requires
        0 <= i < s.len(),
    ensures
        spec_price(catalog, s)
            == catalog[s[i] as int].price + spec_price(catalog, s.remove(i)),
    decreases i,
{
    if i == 0 {
        assert(s.remove(0) =~= s.drop_first());
    } else {
        assert(s.remove(i).drop_first() =~= s.drop_first().remove(i - 1));
        lemma_price_remove(catalog, s.drop_first(), i - 1);
    }
}

/// Rearranging keeps every index valid.
pub proof fn lemma_valid_sel_multiset(p: Seq<usize>, s: Seq<usize>, n: nat)
    requires
        p.to_multiset() == s.to_multiset(),
        valid_sel(s, n),
    ensures
        valid_sel(p, n),
{
    broadcast use vstd::seq_lib::group_to_multiset_ensures;

    assert forall|j: int| 0 <= j < p.len() implies (#[trigger] p[j]) < n by {
        assert(p.contains(p[j]));
        assert(s.to_multiset().count(p[j]) > 0);
        assert(s.contains(p[j]));
    }
}

/// Every arrangement of the given selection, exactly as `perms_of`
/// lists them.
pub fn permutations(s: &Vec<usize>) -> (r: Vec<Vec<usize>>)
    ensures
        r@.map_values(|v: Vec<usize>| v@) == perms_of(s@),
    decreases s@.len(),
{
    let mut out: Vec<Vec<usize>> = Vec::new();
    if s.len() == 0 {
        let empty: Vec<usize> = Vec::new();
        out.push(empty);
        proof {
            assert(out@.map_values(|v: Vec<usize>| v@) =~= perms_of(s@));
        }
    } else {
        let mut i: usize = 0;
        while i < s.len()
            invariant
                0 <= i <= s@.len(),
                s@.len() > 0,
                perms_sel(s@, 0) =~= out@.map_values(|v: Vec<usize>| v@) + perms_sel(s@, i as int),
            decreases s@.len() - i,
        {
            let ghost block = perms_of(s@.remove(i as int))
                .map_values(|p: Seq<usize>| seq![s@[i as int]] + p);
            let mut rest: Vec<usize> = Vec::new();
            let mut j: usize = 0;
            while j < s.len()
                invariant
                    0 <= j <= s@.len(),
                    0 <= i < s@.len(),
                    rest@ =~= (if j <= i {
                        s@.take(j as int)
                    } else {
                        s@.take(i as int) + s@.subrange(i as int + 1, j as int)
                    }),
                decreases s@.len() - j,
            {
                if j != i {
                    rest.push(s[j]);
                }
                proof {
                    if j < i {
                        assert(s@.take(j as int + 1) =~= s@.take(j as int).push(s@[j as int]));
                    } else if j == i {
                        assert(s@.take(i as int) + s@.subrange(i as int + 1, j as int + 1)
                            =~= s@.take(j as int));
                    } else {
                        assert(s@.take(i as int) + s@.subrange(i as int + 1, j as int + 1)
                            =~= (s@.take(i as int) + s@.subrange(i as int + 1, j as int))
                                .push(s@[j as int]));
                    }
                }
                j = j + 1;
            }
            proof {
                assert(rest@ =~= s@.remove(i as int));
            }
            let sub = permutations(&rest);
            let mut b: usize = 0;
            while b < sub.len()
                invariant
                    0 <= b <= sub@.len(),
                    0 <= i < s@.len(),
                    rest@ == s@.remove(i as int),
                    sub@.map_values(|v: Vec<usize>| v@) == perms_of(s@.remove(i as int)),
                    block == perms_of(s@.remove(i as int))
                        .map_values(|p: Seq<usize>| seq![s@[i as int]] + p),
                    perms_sel(s@, 0) =~= out@.map_values(|v: Vec<usize>| v@)
                        + block.skip(b as int) + perms_sel(s@, i as int + 1),
                decreases sub@.len() - b,
            {
                let src = &sub[b];
                let mut v: Vec<usize> = Vec::new();
                v.push(s[i]);
                let mut j2: usize = 0;
                while j2 < src.len()
                    invariant
                        0 <= j2 <= src@.len(),
                        0 <= i < s@.len(),
                        v@ =~= seq![s@[i as int]] + src@.take(j2 as int),
                    decreases src@.len() - j2,
                {
                    v.push(src[j2]);
                    proof {
                        assert(seq![s@[i as int]] + src@.take(j2 as int + 1)
                            =~= (seq![s@[i as int]] + src@.take(j2 as int))
                                .push(src@[j2 as int]));
                    }
                    j2 = j2 + 1;
                }
                proof {
                    assert(src@.take(src@.len() as int) =~= src@);
                    assert(v@ =~= seq![s@[i as int]] + src@);
                    assert(block[b as int] == seq![s@[i as int]]
                        + sub@.map_values(|x: Vec<usize>| x@)[b as int]);
                    lemma_map_view_push(out@, v);
                    assert(block.skip(b as int)
                        =~= seq![block[b as int]] + block.skip(b as int + 1));
                }
                out.push(v);
                b = b + 1;
            }
            proof {
                assert(block.skip(block.len() as int) =~= Seq::<Seq<usize>>::empty());
                assert(perms_sel(s@, 0) =~= out@.map_values(|v: Vec<usize>| v@)
                    + perms_sel(s@, i as int + 1));
            }
            i = i + 1;
        }
        proof {
            assert(perms_sel(s@, s@.len() as int) =~= Seq::<Seq<usize>>::empty());
            assert(out@.map_values(|v: Vec<usize>| v@) =~= perms_of(s@));
        }
    }
    out
}

} // verus!
