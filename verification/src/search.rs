//! Incumbent tracking and the size-level search driver.
//!
//! Each budget-surviving subset is expanded into every arrangement of
//! its elements, and each arrangement is scored by its own order (the
//! scorer is order-sensitive, so different arrangements of one subset
//! may score differently). The best candidate is kept under a strict
//! improvement rule: a candidate replaces the incumbent only when its
//! score strictly exceeds the incumbent's, so ties keep the earlier
//! arrival, and the global best is non-decreasing across subset sizes.

use vstd::prelude::*;
use crate::Item;
use crate::budget::spec_price;
use crate::budget::total_price;
use crate::budget::valid_sel;
use crate::budget::within_budget;
use crate::combos::all_combos;
use crate::combos::combinations;
use crate::combos::clone_indices;
use crate::combos::is_combo;
use crate::combos::lemma_combos_from_sound;
use crate::config::Config;
use crate::perms::lemma_perms_sound;
use crate::perms::lemma_price_multiset;
use crate::perms::lemma_valid_sel_multiset;
use crate::perms::perms_of;
use crate::perms::permutations;
use crate::score::get_liking;
use crate::score::rows_view;
use crate::score::spec_score;
use crate::score::wf_ratings;

verus! {

/// The best candidate seen so far: its score, its total price, and the
/// arrangement itself. `ordering == None` means no candidate has beaten
/// the zero start yet.
pub struct Incumbent {
    pub score: i128,
    pub price: u128,
    pub ordering: Option<Vec<usize>>,
}

/// The larger of two values.
pub open spec fn max_int(a: int, b: int) -> int {
    if a >= b {
        a
    } else {
        b
    }
}

/// The incumbent is consistent with the inputs: when an arrangement is
/// held it beat the zero start and carries exactly its own score and
/// price, within budget; when none is held, score and price are zero.
pub open spec fn inc_wf(
    cfg: Config,
    cat: Seq<Item>,
    notes: Seq<Seq<Option<i64>>>,
    bases: Seq<Option<i64>>,
    inc: Incumbent,
) -> bool {
    match inc.ordering {
        Option::None => inc.score == 0 && inc.price == 0,
        Option::Some(v) => {
            &&& valid_sel(v@, cat.len())
            &&& v@.len() <= cfg.max_size
            &&& inc.score == spec_score(cfg, v@, notes, bases)
            &&& inc.price == spec_price(cat, v@)
            &&& inc.price < cfg.budget
            &&& inc.score > 0
        },
    }
}

/// Best of `acc` and the scores of the given arrangements, in order.
pub open spec fn fold_perms(
    cfg: Config,
    ps: Seq<Seq<usize>>,
    notes: Seq<Seq<Option<i64>>>,
    bases: Seq<Option<i64>>,
    acc: int,
) -> int
    decreases ps.len(),
{
    if ps.len() == 0 {
        acc
    } else {
        fold_perms(
            cfg,
            ps.drop_first(),
            notes,
            bases,
            max_int(acc, spec_score(cfg, ps[0], notes, bases)),
        )
    }
}

/// Best of `acc` and, for every budget-surviving subset in `cs`, the
/// scores of all its arrangements.
pub open spec fn fold_combos(
    cfg: Config,
    cat: Seq<Item>,
    cs: Seq<Seq<usize>>,
    notes: Seq<Seq<Option<i64>>>,
    bases: Seq<Option<i64>>,
    acc: int,
) -> int
    decreases cs.len(),
{
    if cs.len() == 0 {
        acc
    } else {
        let acc2 = if spec_price(cat, cs[0]) < cfg.budget {
            fold_perms(cfg, perms_of(cs[0]), notes, bases, acc)
        } else {
            acc
        };
        fold_combos(cfg, cat, cs.drop_first(), notes, bases, acc2)
    }
}

/// The best score over all budget-surviving arrangements of all subset
/// sizes `0 .. size`, starting from the zero incumbent.
pub open spec fn best_upto(
    cfg: Config,
    cat: Seq<Item>,
    notes: Seq<Seq<Option<i64>>>,
    bases: Seq<Option<i64>>,
    size: int,
) -> int
    decreases size,
{
    if size <= 0 {
        0
    } else {
        fold_combos(
            cfg,
            cat,
            all_combos(cat.len() as int, (size - 1) as nat),
            notes,
            bases,
            best_upto(cfg, cat, notes, bases, size - 1),
        )
    }
}

/// Folding arrangements never lowers the accumulator.
pub proof fn lemma_fold_perms_ge_acc(
    cfg: Config,
    ps: Seq<Seq<usize>>,
    notes: Seq<Seq<Option<i64>>>,
    bases: Seq<Option<i64>>,
    acc: int,
)
    ensures
        fold_perms(cfg, ps, notes, bases, acc) >= acc,
    decreases ps.len(),
{
    if ps.len() == 0 {
    } else {
        lemma_fold_perms_ge_acc(
            cfg,
            ps.drop_first(),
            notes,
            bases,
            max_int(acc, spec_score(cfg, ps[0], notes, bases)),
        );
    }
}

/// Folding subsets never lowers the accumulator.
pub proof fn lemma_fold_combos_ge_acc(
    cfg: Config,
    cat: Seq<Item>,
    cs: Seq<Seq<usize>>,
    notes: Seq<Seq<Option<i64>>>,
    bases: Seq<Option<i64>>,
    acc: int,
)
    ensures
        fold_combos(cfg, cat, cs, notes, bases, acc) >= acc,
    decreases cs.len(),
{
    if cs.len() == 0 {
    } else {
        let acc2 = if spec_price(cat, cs[0]) < cfg.budget {
            fold_perms(cfg, perms_of(cs[0]), notes, bases, acc)
        } else {
            acc
        };
        lemma_fold_perms_ge_acc(cfg, perms_of(cs[0]), notes, bases, acc);
        lemma_fold_combos_ge_acc(cfg, cat, cs.drop_first(), notes, bases, acc2);
    }
}

/// Folding arrangements from `max_int(a, c)` is the same as folding
/// from `c` and then taking the larger of the result and `a`.
pub proof fn lemma_fold_perms_split(
    cfg: Config,
    ps: Seq<Seq<usize>>,
    notes: Seq<Seq<Option<i64>>>,
    bases: Seq<Option<i64>>,
    a: int,
    c: int,
)
    ensures
        fold_perms(cfg, ps, notes, bases, max_int(a, c))
            == max_int(a, fold_perms(cfg, ps, notes, bases, c)),
    decreases ps.len(),
{
    if ps.len() == 0 {
    } else {
        let s0 = spec_score(cfg, ps[0], notes, bases);
        assert(max_int(max_int(a, c), s0) == max_int(a, max_int(c, s0)));
        lemma_fold_perms_split(cfg, ps.drop_first(), notes, bases, a, max_int(c, s0));
    }
}

/// Folding subsets from `max_int(a, c)` is the same as folding from
/// `c` and then taking the larger of the result and `a`.
pub proof fn lemma_fold_combos_split(
    cfg: Config,
    cat: Seq<Item>,
    cs: Seq<Seq<usize>>,
    notes: Seq<Seq<Option<i64>>>,
    bases: Seq<Option<i64>>,
    a: int,
    c: int,
)
    ensures
        fold_combos(cfg, cat, cs, notes, bases, max_int(a, c))
            == max_int(a, fold_combos(cfg, cat, cs, notes, bases, c)),
    decreases cs.len(),
{
    if cs.len() == 0 {
    } else {
        if spec_price(cat, cs[0]) < cfg.budget {
            lemma_fold_perms_split(cfg, perms_of(cs[0]), notes, bases, a, c);
            lemma_fold_combos_split(
                cfg,
                cat,
                cs.drop_first(),
                notes,
                bases,
                a,
                fold_perms(cfg, perms_of(cs[0]), notes, bases, c),
            );
        } else {
            lemma_fold_combos_split(cfg, cat, cs.drop_first(), notes, bases, a, c);
        }
    }
}

/// The fold over arrangements dominates every listed arrangement's score.
pub proof fn lemma_fold_perms_dominates(
    cfg: Config,
    ps: Seq<Seq<usize>>,
    notes: Seq<Seq<Option<i64>>>,
    bases: Seq<Option<i64>>,
    acc: int,
    idx: int,
)
    requires
        0 <= idx < ps.len(),
    ensures
        fold_perms(cfg, ps, notes, bases, acc) >= spec_score(cfg, ps[idx], notes, bases),
    decreases ps.len(),
{
    let s0 = spec_score(cfg, ps[0], notes, bases);
    if idx == 0 {
        lemma_fold_perms_ge_acc(cfg, ps.drop_first(), notes, bases, max_int(acc, s0));
    } else {
        lemma_fold_perms_dominates(cfg, ps.drop_first(), notes, bases, max_int(acc, s0), idx - 1);
    }
}

/// The fold over subsets dominates the score of every arrangement of
/// every budget-surviving listed subset.
pub proof fn lemma_fold_combos_dominates(
    cfg: Config,
    cat: Seq<Item>,
    cs: Seq<Seq<usize>>,
    notes: Seq<Seq<Option<i64>>>,
    bases: Seq<Option<i64>>,
    acc: int,
    idx: int,
    p: Seq<usize>,
)
    requires
        0 <= idx < cs.len(),
        spec_price(cat, cs[idx]) < cfg.budget,
        perms_of(cs[idx]).contains(p),
    ensures
        fold_combos(cfg, cat, cs, notes, bases, acc) >= spec_score(cfg, p, notes, bases),
    decreases cs.len(),
{
    let acc2 = if spec_price(cat, cs[0]) < cfg.budget {
        fold_perms(cfg, perms_of(cs[0]), notes, bases, acc)
    } else {
        acc
    };
    if idx == 0 {
        let j = choose|j: int|
            0 <= j < perms_of(cs[0]).len() && (#[trigger] perms_of(cs[0])[j]) == p;
        lemma_fold_perms_dominates(cfg, perms_of(cs[0]), notes, bases, acc, j);
        lemma_fold_combos_ge_acc(cfg, cat, cs.drop_first(), notes, bases, acc2);
    } else {
        lemma_fold_combos_dominates(cfg, cat, cs.drop_first(), notes, bases, acc2, idx - 1, p);
    }
}

/// The optimizer law: the search's final score dominates every
/// candidate. For any strictly ascending selection of `k < size` items
/// whose total price survives the budget cap, and any arrangement of
/// it, the best score over sizes `0 .. size` is at least that
/// arrangement's score.
pub proof fn lemma_best_dominates_all_candidates(
    cfg: Config,
    cat: Seq<Item>,
    notes: Seq<Seq<Option<i64>>>,
    bases: Seq<Option<i64>>,
    c: Seq<usize>,
    p: Seq<usize>,
    size: int,
)
    requires
        cat.len() <= usize::MAX,
        is_combo(c, 0, cat.len() as int, c.len()),
        spec_price(cat, c) < cfg.budget,
        p.to_multiset() == c.to_multiset(),
        c.len() < size,
    ensures
        spec_score(cfg, p, notes, bases) <= best_upto(cfg, cat, notes, bases, size),
{
    let k = c.len();
    let cs = all_combos(cat.len() as int, k);
    crate::combos::lemma_enumerator_complete(cat.len() as int, k, c);
    let idx = choose|idx: int| 0 <= idx < cs.len() && (#[trigger] cs[idx]) == c;
    crate::perms::lemma_perms_complete(c, p);
    lemma_fold_combos_dominates(
        cfg,
        cat,
        cs,
        notes,
        bases,
        best_upto(cfg, cat, notes, bases, k as int),
        idx,
        p,
    );
    lemma_best_upto_monotone(cfg, cat, notes, bases, k as int + 1, size);
}

/// The global best is non-decreasing as the searched size range grows:
/// the incumbent carried across sizes never regresses.
pub proof fn lemma_best_upto_monotone(
    cfg: Config,
    cat: Seq<Item>,
    notes: Seq<Seq<Option<i64>>>,
    bases: Seq<Option<i64>>,
    s1: int,
    s2: int,
)
    requires
        0 <= s1 <= s2,
    ensures
        best_upto(cfg, cat, notes, bases, s1) <= best_upto(cfg, cat, notes, bases, s2),
    decreases s2 - s1,
{
    if s1 < s2 {
        lemma_best_upto_monotone(cfg, cat, notes, bases, s1, s2 - 1);
        lemma_fold_combos_ge_acc(
            cfg,
            cat,
            all_combos(cat.len() as int, (s2 - 1) as nat),
            notes,
            bases,
            best_upto(cfg, cat, notes, bases, s2 - 1),
        );
    }
}

/// The empty selection scores zero, prices zero, and passes any
/// positive budget; under the strict-improvement rule it therefore
/// never displaces an incumbent that holds a positive score.
pub proof fn lemma_empty_subset(
    cfg: Config,
    cat: Seq<Item>,
    notes: Seq<Seq<Option<i64>>>,
    bases: Seq<Option<i64>>,
    inc: Incumbent,
)
    requires
        cfg.wf(),
        inc.score > 0,
    ensures
        spec_score(cfg, Seq::<usize>::empty(), notes, bases) == 0,
        spec_price(cat, Seq::<usize>::empty()) == 0,
        spec_price(cat, Seq::<usize>::empty()) < cfg.budget,
        !(spec_score(cfg, Seq::<usize>::empty(), notes, bases) > inc.score),
{
    crate::score::lemma_empty_selection_scores_zero(cfg, notes, bases, notes.len() as int);
}

/// Strict-improvement fold of one candidate into the incumbent: a
/// candidate whose score does not strictly beat the incumbent's leaves
/// the incumbent — score, price and arrangement — untouched.
pub fn fold_candidate(inc: &mut Incumbent, score: i128, price: u128, ordering: Vec<usize>)
    ensures
        score > old(inc).score ==> final(inc).score == score && final(inc).price == price
            && final(inc).ordering == Some(ordering),
        score <= old(inc).score ==> *final(inc) == *old(inc),
{
    if score > inc.score {
        inc.score = score;
        inc.price = price;
        inc.ordering = Some(ordering);
    }
}

/// Strict-improvement merge of a finished worker's incumbent into the
/// shared one: it replaces the accumulator only when its score strictly
/// exceeds it, so a tie or worse changes nothing.
pub fn fold_incumbent(global: &mut Incumbent, cand: Incumbent)
    ensures
        cand.score > old(global).score ==> *final(global) == cand,
        cand.score <= old(global).score ==> *final(global) == *old(global),
{
    if cand.score > global.score {
        *global = cand;
    }
}

/// Considers every arrangement of one budget-surviving subset, scoring
/// each by its own order, and folds the best into the incumbent under
/// strict improvement.
pub fn order_search(
    cfg: &Config,
    catalog: &Vec<Item>,
    notes: &Vec<Vec<Option<i64>>>,
    bases: &Vec<Option<i64>>,
    combo: &Vec<usize>,
    inc: &mut Incumbent,
)
    requires
        cfg.wf(),
        wf_ratings(catalog@.len(), rows_view(notes@), bases@),
        valid_sel(combo@, catalog@.len()),
        combo@.len() <= cfg.max_size,
        spec_price(catalog@, combo@) < cfg.budget,
        inc_wf(*cfg, catalog@, rows_view(notes@), bases@, *old(inc)),
    ensures
        inc_wf(*cfg, catalog@, rows_view(notes@), bases@, *final(inc)),
        final(inc).score == fold_perms(
            *cfg,
            perms_of(combo@),
            rows_view(notes@),
            bases@,
            old(inc).score as int,
        ),
        final(inc).score == old(inc).score ==> *final(inc) == *old(inc),
{
    let ghost rows = rows_view(notes@);
    let ghost start = *inc;
    let perms = permutations(combo);
    let ghost pviews = perms@.map_values(|v: Vec<usize>| v@);
    let mut t: usize = 0;
    proof {
        assert(pviews.skip(0) =~= pviews);
    }
    while t < perms.len()
        invariant
            cfg.wf(),
            rows == rows_view(notes@),
            wf_ratings(catalog@.len(), rows, bases@),
            valid_sel(combo@, catalog@.len()),
            combo@.len() <= cfg.max_size,
            spec_price(catalog@, combo@) < cfg.budget,
            0 <= t <= perms@.len(),
            pviews == perms@.map_values(|v: Vec<usize>| v@),
            pviews == perms_of(combo@),
            inc_wf(*cfg, catalog@, rows, bases@, *inc),
            fold_perms(*cfg, pviews.skip(t as int), rows, bases@, inc.score as int)
                == fold_perms(*cfg, pviews, rows, bases@, start.score as int),
            inc.score >= start.score,
            inc.score == start.score ==> *inc == start,
        decreases perms@.len() - t,
    {
        let p = &perms[t];
        proof {
            lemma_perms_sound(combo@, t as int);
            lemma_valid_sel_multiset(p@, combo@, catalog@.len());
        }
        let sc = get_liking(cfg, p, notes, bases, catalog.len());
        if sc > inc.score {
            let price = total_price(catalog, p);
            proof {
                lemma_price_multiset(catalog@, p@, combo@);
            }
            let cp = clone_indices(p);
            fold_candidate(inc, sc, price, cp);
        }
        proof {
            assert(pviews.skip(t as int).drop_first() =~= pviews.skip(t as int + 1));
            assert(pviews.skip(t as int)[0] == pviews[t as int]);
        }
        t = t + 1;
    }
    proof {
        assert(pviews.skip(pviews.len() as int) =~= Seq::<Seq<usize>>::empty());
    }
}

/// The best candidate among all subsets of one size: enumerates every
/// size-`size` combination, prunes by the strict budget cap, and runs
/// the order search on each survivor, starting from the zero incumbent.
pub fn search_size(
    cfg: &Config,
    catalog: &Vec<Item>,
    notes: &Vec<Vec<Option<i64>>>,
    bases: &Vec<Option<i64>>,
    size: usize,
) -> (loc: Incumbent)
    requires
        cfg.wf(),
        wf_ratings(catalog@.len(), rows_view(notes@), bases@),
        size <= cfg.max_size,
    ensures
        inc_wf(*cfg, catalog@, rows_view(notes@), bases@, loc),
        loc.score == fold_combos(
            *cfg,
            catalog@,
            all_combos(catalog@.len() as int, size as nat),
            rows_view(notes@),
            bases@,
            0,
        ),
{
    let ghost rows = rows_view(notes@);
    let n = catalog.len();
    let combos = combinations(n, size);
    let ghost cviews = combos@.map_values(|v: Vec<usize>| v@);
    let mut loc = Incumbent { score: 0, price: 0, ordering: Option::None };
    let mut t: usize = 0;
    proof {
        assert(cviews.skip(0) =~= cviews);
    }
    while t < combos.len()
        invariant
            cfg.wf(),
            rows == rows_view(notes@),
            wf_ratings(catalog@.len(), rows, bases@),
            size <= cfg.max_size,
            n == catalog@.len(),
            0 <= t <= combos@.len(),
            cviews == combos@.map_values(|v: Vec<usize>| v@),
            cviews == all_combos(catalog@.len() as int, size as nat),
            inc_wf(*cfg, catalog@, rows, bases@, loc),
            fold_combos(*cfg, catalog@, cviews.skip(t as int), rows, bases@, loc.score as int)
                == fold_combos(*cfg, catalog@, cviews, rows, bases@, 0),
        decreases combos@.len() - t,
    {
        let c = &combos[t];
        proof {
            lemma_combos_from_sound(0, catalog@.len() as int, size as nat, t as int);
            assert(is_combo(c@, 0, catalog@.len() as int, size as nat));
        }
        if within_budget(cfg, catalog, c) {
            order_search(cfg, catalog, notes, bases, c, &mut loc);
        }
        proof {
            assert(cviews.skip(t as int).drop_first() =~= cviews.skip(t as int + 1));
            assert(cviews.skip(t as int)[0] == cviews[t as int]);
        }
        t = t + 1;
    }
    proof {
        assert(cviews.skip(cviews.len() as int) =~= Seq::<Seq<usize>>::empty());
    }
    loc
}

/// One line of the running report: after searching one subset size,
/// the global incumbent at that point.
pub struct SizeReport {
    pub size: usize,
    pub best: Incumbent,
}

/// An exact copy of an incumbent, for the running report.
fn clone_incumbent(inc: &Incumbent) -> (r: Incumbent)
    ensures
        r.score == inc.score,
        r.price == inc.price,
        inc.ordering is Some <==> r.ordering is Some,
        inc.ordering is Some ==> r.ordering->Some_0@ == inc.ordering->Some_0@,
{
    let ordering = match &inc.ordering {
        Option::None => Option::None,
        Option::Some(v) => Option::Some(clone_indices(v)),
    };
    Incumbent { score: inc.score, price: inc.price, ordering }
}

/// The whole search: for each subset size `0 .. max_size`, finds that
/// size's best budget-surviving arrangement, folds it into the global
/// incumbent under strict improvement, and records the running global
/// best; returns the reports and the final incumbent. The final score
/// is exactly the best over every arrangement of every budget-surviving
/// subset of every searched size, and the reported running bests are
/// non-decreasing.
pub fn run_search(
    cfg: &Config,
    catalog: &Vec<Item>,
    notes: &Vec<Vec<Option<i64>>>,
    bases: &Vec<Option<i64>>,
) -> (r: (Vec<SizeReport>, Incumbent))
    requires
        cfg.wf(),
        wf_ratings(catalog@.len(), rows_view(notes@), bases@),
    ensures
        inc_wf(*cfg, catalog@, rows_view(notes@), bases@, r.1),
        r.1.score == best_upto(
            *cfg,
            catalog@,
            rows_view(notes@),
            bases@,
            cfg.max_size as int,
        ),
        r.0@.len() == cfg.max_size,
        forall|s: int| 0 <= s < r.0@.len() ==> (#[trigger] r.0@[s]).size == s,
        forall|s: int| 0 <= s < r.0@.len()
            ==> (#[trigger] r.0@[s]).best.score
                == best_upto(*cfg, catalog@, rows_view(notes@), bases@, s + 1),
        forall|s: int| 0 <= s < r.0@.len()
            ==> inc_wf(*cfg, catalog@, rows_view(notes@), bases@, (#[trigger] r.0@[s]).best),
        forall|s1: int, s2: int|
            0 <= s1 <= s2 < r.0@.len()
                ==> r.0@[s1].best.score <= r.0@[s2].best.score,
{
    let ghost rows = rows_view(notes@);
    let mut global = Incumbent { score: 0, price: 0, ordering: Option::None };
    let mut reports: Vec<SizeReport> = Vec::new();
    let mut size: usize = 0;
    while size < cfg.max_size
        invariant
            cfg.wf(),
            rows == rows_view(notes@),
            wf_ratings(catalog@.len(), rows, bases@),
            0 <= size <= cfg.max_size,
            inc_wf(*cfg, catalog@, rows, bases@, global),
            global.score == best_upto(*cfg, catalog@, rows, bases@, size as int),
            reports@.len() == size,
            forall|s: int| 0 <= s < size ==> (#[trigger] reports@[s]).size == s,
            forall|s: int| 0 <= s < size
                ==> (#[trigger] reports@[s]).best.score
                    == best_upto(*cfg, catalog@, rows, bases@, s + 1),
            forall|s: int| 0 <= s < size
                ==> inc_wf(*cfg, catalog@, rows, bases@, (#[trigger] reports@[s]).best),
        decreases cfg.max_size - size,
    {
        let loc = search_size(cfg, catalog, notes, bases, size);
        proof {
            assert(global.score >= 0);
            assert(max_int(global.score as int, 0) == global.score as int);
            lemma_fold_combos_split(
                *cfg,
                catalog@,
                all_combos(catalog@.len() as int, size as nat),
                rows,
                bases@,
                global.score as int,
                0,
            );
        }
        fold_incumbent(&mut global, loc);
        let snapshot = clone_incumbent(&global);
        proof {
            assert(inc_wf(*cfg, catalog@, rows, bases@, snapshot));
        }
        reports.push(SizeReport { size, best: snapshot });
        size = size + 1;
    }
    proof {
        assert forall|s1: int, s2: int| 0 <= s1 <= s2 < reports@.len()
            implies reports@[s1].best.score <= reports@[s2].best.score by {
            lemma_best_upto_monotone(*cfg, catalog@, rows, bases@, s1 + 1, s2 + 1);
        }
    }
    (reports, global)
}

} // verus!
