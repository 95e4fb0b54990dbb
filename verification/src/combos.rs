//! The combination enumerator: all size-`k` subsets of catalog indices,
//! each emitted as a strictly ascending sequence, in lexicographic
//! order, together with proofs that the enumeration is exactly the set
//! of such combinations — `C(n, k)` of them, no duplicates, none missing.

use vstd::prelude::*;

verus! {

/// Number of `k`-element subsets of an `n`-element set, by Pascal's rule.
pub open spec fn binom(n: nat, k: nat) -> nat
    decreases n,
{
    if k == 0 {
        1
    } else if n == 0 {
        0
    } else {
        binom((n - 1) as nat, (k - 1) as nat) + binom((n - 1) as nat, k)
    }
}

/// `s` is a size-`k` combination over the index range `lo .. n`,
/// listed in strictly ascending order.
pub open spec fn is_combo(s: Seq<usize>, lo: int, n: int, k: nat) -> bool {
    &&& s.len() == k
    &&& forall|j: int| 0 <= j < s.len() ==> lo <= #[trigger] s[j] < n
    &&& forall|j1: int, j2: int| 0 <= j1 < j2 < s.len() ==> s[j1] < s[j2]
}

/// All size-`k` ascending combinations over `lo .. n`, in lexicographic
/// order: those starting with `lo` first, then those over `lo + 1 .. n`.
pub open spec fn combos_from(lo: int, n: int, k: nat) -> Seq<Seq<usize>>
    decreases n - lo, k,
{
    if k == 0 {
        seq![Seq::<usize>::empty()]
    } else if lo >= n {
        Seq::<Seq<usize>>::empty()
    } else {
        combos_from(lo + 1, n, (k - 1) as nat).map_values(|s: Seq<usize>| seq![lo as usize] + s)
            + combos_from(lo + 1, n, k)
    }
}

/// All size-`k` ascending combinations of `0 .. n`, in lexicographic order.
pub open spec fn all_combos(n: int, k: nat) -> Seq<Seq<usize>> {
    combos_from(0, n, k)
}

/// The enumeration over `lo .. n` has exactly `C(n - lo, k)` entries.
pub proof fn lemma_combos_from_count(lo: int, n: int, k: nat)
    requires
        lo <= n,
    ensures
        combos_from(lo, n, k).len() == binom((n - lo) as nat, k),
    decreases n - lo,
{
    if k == 0 {
    } else if lo >= n {
    } else {
        lemma_combos_from_count(lo + 1, n, (k - 1) as nat);
        lemma_combos_from_count(lo + 1, n, k);
    }
}

/// Every entry of the enumeration over `lo .. n` is a strictly
/// ascending size-`k` combination over `lo .. n`.
pub proof fn lemma_combos_from_sound(lo: int, n: int, k: nat, i: int)
    requires
        0 <= lo <= n <= usize::MAX,
        0 <= i < combos_from(lo, n, k).len(),
    ensures
        is_combo(combos_from(lo, n, k)[i], lo, n, k),
    decreases n - lo,
{
    if k == 0 {
    } else if lo >= n {
    } else {
        let first = combos_from(lo + 1, n, (k - 1) as nat)
            .map_values(|s: Seq<usize>| seq![lo as usize] + s);
        let rest = combos_from(lo + 1, n, k);
        if i < first.len() {
            lemma_combos_from_sound(lo + 1, n, (k - 1) as nat, i);
            let sub = combos_from(lo + 1, n, (k - 1) as nat)[i];
            let s = seq![lo as usize] + sub;
            assert(combos_from(lo, n, k)[i] == s);
            assert(s[0] == lo as usize);
            assert(forall|j: int| 1 <= j < s.len() ==> s[j] == sub[j - 1]);
            assert(is_combo(s, lo, n, k));
        } else {
            lemma_combos_from_sound(lo + 1, n, k, i - first.len());
            assert(combos_from(lo, n, k)[i] == rest[i - first.len()]);
        }
    }
}

/// Every strictly ascending size-`k` combination over `lo .. n`
/// appears in the enumeration.
pub proof fn lemma_combos_from_complete(lo: int, n: int, k: nat, s: Seq<usize>)
    requires
        0 <= lo <= n <= usize::MAX,
        is_combo(s, lo, n, k),
    ensures
        combos_from(lo, n, k).contains(s),
    decreases n - lo,
{
    if k == 0 {
        assert(s =~= Seq::<usize>::empty());
        assert(combos_from(lo, n, k)[0] == s);
    } else {
        assert(s.len() > 0);
        assert(lo <= s[0] < n);
        let first = combos_from(lo + 1, n, (k - 1) as nat)
            .map_values(|t: Seq<usize>| seq![lo as usize] + t);
        let rest = combos_from(lo + 1, n, k);
        if s[0] == lo {
            let tail = s.drop_first();
            assert(forall|j: int| 0 <= j < tail.len() ==> #[trigger] tail[j] == s[j + 1]);
            assert(forall|j: int| 0 <= j < tail.len() ==> lo + 1 <= #[trigger] tail[j] < n) by {
                assert(forall|j: int| 0 <= j < tail.len() ==> s[0] < #[trigger] s[j + 1]);
            }
            assert(is_combo(tail, lo + 1, n, (k - 1) as nat));
            lemma_combos_from_complete(lo + 1, n, (k - 1) as nat, tail);
            let idx = choose|idx: int|
                0 <= idx < combos_from(lo + 1, n, (k - 1) as nat).len()
                    && (#[trigger] combos_from(lo + 1, n, (k - 1) as nat)[idx]) == tail;
            assert(first[idx] == seq![lo as usize] + tail);
            assert(seq![lo as usize] + tail =~= s);
            assert(combos_from(lo, n, k)[idx] == s);
        } else {
            assert(is_combo(s, lo + 1, n, k));
            lemma_combos_from_complete(lo + 1, n, k, s);
            let idx = choose|idx: int| 0 <= idx < rest.len() && (#[trigger] rest[idx]) == s;
            assert(combos_from(lo, n, k)[first.len() + idx] == s);
        }
    }
}

/// No combination appears twice in the enumeration over `lo .. n`.
pub proof fn lemma_combos_from_distinct(lo: int, n: int, k: nat, i1: int, i2: int)
    requires
        0 <= lo <= n <= usize::MAX,
        0 <= i1 < i2 < combos_from(lo, n, k).len(),
    ensures
        combos_from(lo, n, k)[i1] != combos_from(lo, n, k)[i2],
    decreases n - lo,
{
    if k == 0 {
    } else if lo >= n {
    } else {
        let subs = combos_from(lo + 1, n, (k - 1) as nat);
        let first = subs.map_values(|s: Seq<usize>| seq![lo as usize] + s);
        let rest = combos_from(lo + 1, n, k);
        if i2 < first.len() {
            lemma_combos_from_distinct(lo + 1, n, (k - 1) as nat, i1, i2);
            if combos_from(lo, n, k)[i1] == combos_from(lo, n, k)[i2] {
                assert((seq![lo as usize] + subs[i1]).drop_first() =~= subs[i1]);
                assert((seq![lo as usize] + subs[i2]).drop_first() =~= subs[i2]);
                assert(subs[i1] == subs[i2]);
            }
        } else if i1 >= first.len() {
            lemma_combos_from_distinct(lo + 1, n, k, i1 - first.len(), i2 - first.len());
            assert(combos_from(lo, n, k)[i1] == rest[i1 - first.len()]);
            assert(combos_from(lo, n, k)[i2] == rest[i2 - first.len()]);
        } else {
            lemma_combos_from_sound(lo + 1, n, k, i2 - first.len());
            let s1 = combos_from(lo, n, k)[i1];
            let s2 = combos_from(lo, n, k)[i2];
            assert(s1 == seq![lo as usize] + subs[i1]);
            assert(s2 == rest[i2 - first.len()]);
            assert(s1[0] == lo as usize);
            assert(lo + 1 <= s2[0]);
        }
    }
}

/// The enumerator law, first half: for every `n` and `k`, the
/// enumeration of size-`k` combinations of `0 .. n` has exactly
/// `C(n, k)` entries, no two of them equal, and each of them a strictly
/// ascending size-`k` sequence of indices below `n`.
pub proof fn lemma_enumerator_exact(n: int, k: nat)
    requires
        0 <= n <= usize::MAX,
    ensures
        all_combos(n, k).len() == binom(n as nat, k),
        forall|i: int| 0 <= i < all_combos(n, k).len()
            ==> is_combo(#[trigger] all_combos(n, k)[i], 0, n, k),
        forall|i1: int, i2: int|
            0 <= i1 < i2 < all_combos(n, k).len()
                ==> all_combos(n, k)[i1] != all_combos(n, k)[i2],
{
    lemma_combos_from_count(0, n, k);
    assert forall|i: int| 0 <= i < all_combos(n, k).len()
        implies is_combo(#[trigger] all_combos(n, k)[i], 0, n, k) by {
        lemma_combos_from_sound(0, n, k, i);
    }
    assert forall|i1: int, i2: int|
        0 <= i1 < i2 < all_combos(n, k).len()
        implies all_combos(n, k)[i1] != all_combos(n, k)[i2] by {
        lemma_combos_from_distinct(0, n, k, i1, i2);
    }
}

/// The enumerator law, second half: every strictly ascending size-`k`
/// sequence of indices below `n` appears in the enumeration.
pub proof fn lemma_enumerator_complete(n: int, k: nat, s: Seq<usize>)
    requires
        0 <= n <= usize::MAX,
        is_combo(s, 0, n, k),
    ensures
        all_combos(n, k).contains(s),
{
    lemma_combos_from_complete(0, n, k, s);
}

/// Pushing onto a vector-of-vectors appends its view.
pub(crate) proof fn lemma_map_view_push(s: Seq<Vec<usize>>, v: Vec<usize>)
    ensures
        s.push(v).map_values(|x: Vec<usize>| x@)
            =~= s.map_values(|x: Vec<usize>| x@).push(v@),
{
}

/// An exact copy of an index vector.
pub(crate) fn clone_indices(v: &Vec<usize>) -> (r: Vec<usize>)
    ensures
        r@ == v@,
{
    let mut r: Vec<usize> = Vec::new();
    let mut j: usize = 0;
    while j < v.len()
        invariant
            0 <= j <= v@.len(),
            r@ =~= v@.take(j as int),
        decreases v@.len() - j,
    {
        r.push(v[j]);
        proof {
            assert(v@.take(j as int + 1) =~= v@.take(j as int).push(v@[j as int]));
        }
        j = j + 1;
    }
    proof {
        assert(v@.take(v@.len() as int) =~= v@);
    }
    r
}

/// All size-`k` ascending combinations over `lo .. n`, in lexicographic
/// order, exactly as `combos_from` lists them.
fn combinations_from(lo: usize, n: usize, k: usize) -> (r: Vec<Vec<usize>>)
    requires
        lo <= n,
    ensures
        r@.map_values(|v: Vec<usize>| v@) == combos_from(lo as int, n as int, k as nat),
    decreases n - lo,
{
    let mut out: Vec<Vec<usize>> = Vec::new();
    if k == 0 {
        let empty: Vec<usize> = Vec::new();
        out.push(empty);
        proof {
            assert(out@.map_values(|v: Vec<usize>| v@)
                =~= combos_from(lo as int, n as int, k as nat));
        }
    } else if lo == n {
        proof {
            assert(out@.map_values(|v: Vec<usize>| v@)
                =~= combos_from(lo as int, n as int, k as nat));
        }
    } else {
        let ghost firsts = combos_from(lo as int + 1, n as int, (k - 1) as nat)
            .map_values(|s: Seq<usize>| seq![lo] + s);
        let ghost rest = combos_from(lo as int + 1, n as int, k as nat);
        let sub1 = combinations_from(lo + 1, n, k - 1);
        let mut i: usize = 0;
        while i < sub1.len()
            invariant
                lo < n,
                0 <= i <= sub1@.len(),
                sub1@.map_values(|v: Vec<usize>| v@)
                    == combos_from(lo as int + 1, n as int, (k - 1) as nat),
                firsts == combos_from(lo as int + 1, n as int, (k - 1) as nat)
                    .map_values(|s: Seq<usize>| seq![lo] + s),
                out@.map_values(|v: Vec<usize>| v@) =~= firsts.take(i as int),
            decreases sub1@.len() - i,
        {
            let src = &sub1[i];
            let mut v: Vec<usize> = Vec::new();
            v.push(lo);
            let mut j: usize = 0;
            while j < src.len()
                invariant
                    0 <= j <= src@.len(),
                    v@ =~= seq![lo] + src@.take(j as int),
                decreases src@.len() - j,
            {
                v.push(src[j]);
                proof {
                    assert(seq![lo] + src@.take(j as int + 1)
                        =~= (seq![lo] + src@.take(j as int)).push(src@[j as int]));
                }
                j = j + 1;
            }
            proof {
                assert(src@.take(src@.len() as int) =~= src@);
                assert(v@ =~= seq![lo] + src@);
                assert(firsts[i as int] == seq![lo] + sub1@.map_values(|x: Vec<usize>| x@)[i as int]);
                lemma_map_view_push(out@, v);
                assert(firsts.take(i as int + 1)
                    =~= firsts.take(i as int).push(firsts[i as int]));
            }
            out.push(v);
            i = i + 1;
        }
        proof {
            assert(firsts.take(firsts.len() as int) =~= firsts);
        }
        let sub2 = combinations_from(lo + 1, n, k);
        let mut i2: usize = 0;
        while i2 < sub2.len()
            invariant
                0 <= i2 <= sub2@.len(),
                sub2@.map_values(|v: Vec<usize>| v@) == rest,
                out@.map_values(|v: Vec<usize>| v@) =~= firsts + rest.take(i2 as int),
            decreases sub2@.len() - i2,
        {
            let v = clone_indices(&sub2[i2]);
            proof {
                assert(v@ == sub2@.map_values(|x: Vec<usize>| x@)[i2 as int]);
                lemma_map_view_push(out@, v);
                assert(firsts + rest.take(i2 as int + 1)
                    =~= (firsts + rest.take(i2 as int)).push(rest[i2 as int]));
            }
            out.push(v);
            i2 = i2 + 1;
        }
        proof {
            assert(rest.take(rest.len() as int) =~= rest);
            assert(out@.map_values(|v: Vec<usize>| v@)
                =~= combos_from(lo as int, n as int, k as nat));
        }
    }
    out
}

/// Every subset of `k` distinct indices of `0 .. n`, each emitted once
/// as its ascending index sequence, in lexicographic order.
pub fn combinations(n: usize, k: usize) -> (r: Vec<Vec<usize>>)
    ensures
        r@.map_values(|v: Vec<usize>| v@) == all_combos(n as int, k as nat),
{
    combinations_from(0, n, k)
}

} // verus!
