//! The order-sensitive preference scorer and the baseline calculator.
//!
//! Per respondent, selected items are visited in the order given; each
//! item the respondent rated strictly above their baseline contributes
//! `(rating - baseline) * decay^rank`, where `rank` counts that
//! respondent's liked items seen so far. Scores are exact integers in
//! units of `1 / decay_den^(max_size - 1)`.

use vstd::prelude::*;
use vstd::arithmetic::power::*;
use vstd::arithmetic::div_mod::*;
use crate::config::Config;
use crate::config::CATALOG_LIMIT;
use crate::config::RATING_LIMIT;
use crate::config::RESPONDENT_LIMIT;

verus! {

/// The respondents' rating rows, each as an abstract sequence.
pub open spec fn rows_view(notes: Seq<Vec<Option<i64>>>) -> Seq<Seq<Option<i64>>> {
    notes.map_values(|v: Vec<Option<i64>>| v@)
}

/// Respondent with row `row` and baseline `base` likes item `i`: they
/// rated it, their baseline is defined, and the rating is strictly
/// above the baseline. An undefined baseline (no ratings) never likes.
pub open spec fn liked(row: Seq<Option<i64>>, base: Option<i64>, i: int) -> bool {
    &&& base is Some
    &&& row[i] is Some
    &&& row[i]->Some_0 > base->Some_0
}

/// The integer weight of the `r`-th liked item: `decay^r` scaled by
/// `decay_den^(max_size - 1)`.
pub open spec fn weight(cfg: Config, r: nat) -> int
    recommends
        r < cfg.max_size,
{
    pow(cfg.decay_num as int, r)
        * pow(cfg.decay_den as int, (cfg.max_size - 1 - r) as nat)
}

/// Number of items among the first `j` of `sel` that the respondent likes.
pub open spec fn user_rank(sel: Seq<usize>, row: Seq<Option<i64>>, base: Option<i64>, j: int) -> nat
    decreases j,
{
    if j <= 0 {
        0
    } else {
        user_rank(sel, row, base, j - 1)
            + (if liked(row, base, sel[j - 1] as int) { 1nat } else { 0nat })
    }
}

/// One respondent's scaled score over the first `j` items of `sel`,
/// visited in order.
pub open spec fn user_score(
    cfg: Config,
    sel: Seq<usize>,
    row: Seq<Option<i64>>,
    base: Option<i64>,
    j: int,
) -> int
    decreases j,
{
    if j <= 0 {
        0
    } else {
        user_score(cfg, sel, row, base, j - 1)
            + (if liked(row, base, sel[j - 1] as int) {
                (row[sel[j - 1] as int]->Some_0 - base->Some_0)
                    * weight(cfg, user_rank(sel, row, base, j - 1))
            } else {
                0
            })
    }
}

/// Sum of the first `u` respondents' scores over the whole selection.
pub open spec fn panel_score(
    cfg: Config,
    sel: Seq<usize>,
    notes: Seq<Seq<Option<i64>>>,
    bases: Seq<Option<i64>>,
    u: int,
) -> int
    decreases u,
{
    if u <= 0 {
        0
    } else {
        panel_score(cfg, sel, notes, bases, u - 1)
            + user_score(cfg, sel, notes[u - 1], bases[u - 1], sel.len() as int)
    }
}

/// The aggregate liking score of an ordered selection: the sum over
/// all respondents of their order-sensitive, decay-weighted scores.
pub open spec fn spec_score(
    cfg: Config,
    sel: Seq<usize>,
    notes: Seq<Seq<Option<i64>>>,
    bases: Seq<Option<i64>>,
) -> int {
    panel_score(cfg, sel, notes, bases, notes.len() as int)
}

/// The rating inputs the search works over: one row per respondent of
/// length `cat_len`, one baseline per respondent, all magnitudes within
/// the global limits.
pub open spec fn wf_ratings(
    cat_len: nat,
    notes: Seq<Seq<Option<i64>>>,
    bases: Seq<Option<i64>>,
) -> bool {
    &&& notes.len() <= RESPONDENT_LIMIT
    &&& bases.len() == notes.len()
    &&& forall|u: int| 0 <= u < notes.len() ==> (#[trigger] notes[u]).len() == cat_len
    &&& forall|u: int, i: int|
        0 <= u < notes.len() && 0 <= i < cat_len && (#[trigger] notes[u][i]) is Some
            ==> -RATING_LIMIT <= notes[u][i]->Some_0 <= RATING_LIMIT
    &&& forall|u: int|
        0 <= u < bases.len() && (#[trigger] bases[u]) is Some
            ==> -RATING_LIMIT <= bases[u]->Some_0 <= RATING_LIMIT
}

/// The numeric value of the largest weight the limits admit.
pub proof fn lemma_weight_cap_value()
    ensures
        pow(16, 15) == 0x1000000000000000,
{
    reveal_with_fuel(pow, 16);
}

/// Powers are monotone in the base: `0 <= a <= b` gives `a^e <= b^e`.
pub proof fn lemma_pow_le_base(a: int, b: int, e: nat)
    requires
        0 <= a <= b,
    ensures
        0 <= pow(a, e) <= pow(b, e),
    decreases e,
{
    reveal(pow);
    if e == 0 {
    } else {
        lemma_pow_le_base(a, b, (e - 1) as nat);
        assert(pow(a, e) == a * pow(a, (e - 1) as nat));
        assert(pow(b, e) == b * pow(b, (e - 1) as nat));
        assert(0 <= a * pow(a, (e - 1) as nat) <= b * pow(b, (e - 1) as nat))
            by (nonlinear_arith)
            requires
                0 <= a <= b,
                0 <= pow(a, (e - 1) as nat) <= pow(b, (e - 1) as nat),
        ;
    }
}

/// Powers are strictly monotone in the base at positive exponents:
/// `1 <= a < b` and `e >= 1` give `a^e < b^e`.
pub proof fn lemma_pow_lt_base(a: int, b: int, e: nat)
    requires
        1 <= a < b,
        e >= 1,
    ensures
        pow(a, e) < pow(b, e),
    decreases e,
{
    reveal(pow);
    if e == 1 {
        lemma_pow1(a);
        lemma_pow1(b);
    } else {
        lemma_pow_lt_base(a, b, (e - 1) as nat);
        lemma_pow_positive(a, (e - 1) as nat);
        assert(pow(a, e) == a * pow(a, (e - 1) as nat));
        assert(pow(b, e) == b * pow(b, (e - 1) as nat));
        assert(a * pow(a, (e - 1) as nat) < b * pow(b, (e - 1) as nat))
            by (nonlinear_arith)
            requires
                1 <= a < b,
                1 <= pow(a, (e - 1) as nat) < pow(b, (e - 1) as nat),
        ;
    }
}

/// Every weight of a rank below `max_size` lies between 1 and
/// `decay_den^(max_size - 1)`, itself at most `16^15`.
pub proof fn lemma_weight_bounds(cfg: Config, r: nat)
    requires
        cfg.wf(),
        r < cfg.max_size,
    ensures
        1 <= weight(cfg, r),
        weight(cfg, r) <= pow(cfg.decay_den as int, (cfg.max_size - 1) as nat),
        weight(cfg, r) <= pow(16, 15),
{
    let dn = cfg.decay_num as int;
    let dd = cfg.decay_den as int;
    let m1 = (cfg.max_size - 1) as nat;
    let e2 = (m1 - r) as nat;
    lemma_pow_positive(dn, r);
    lemma_pow_positive(dd, e2);
    assert(1 <= pow(dn, r) * pow(dd, e2)) by (nonlinear_arith)
        requires
            1 <= pow(dn, r),
            1 <= pow(dd, e2),
    ;
    lemma_pow_le_base(dn, dd, r);
    lemma_pow_adds(dd, r, e2);
    assert(pow(dn, r) * pow(dd, e2) <= pow(dd, r) * pow(dd, e2)) by (nonlinear_arith)
        requires
            0 <= pow(dn, r) <= pow(dd, r),
            1 <= pow(dd, e2),
    ;
    lemma_pow_le_base(dd, 16, m1);
    lemma_pow_increases(16, m1, 15);
}

/// A respondent's rank never exceeds the number of items visited, and
/// their score is nonnegative and bounded by
/// `j * (2 * RATING_LIMIT) * 16^15` under the global limits.
pub proof fn lemma_user_score_bounds(
    cfg: Config,
    sel: Seq<usize>,
    row: Seq<Option<i64>>,
    base: Option<i64>,
    j: int,
)
    requires
        cfg.wf(),
        0 <= j <= sel.len() <= cfg.max_size,
        forall|i: int| 0 <= i < row.len() && (#[trigger] row[i]) is Some
            ==> -RATING_LIMIT <= row[i]->Some_0 <= RATING_LIMIT,
        base is Some ==> -RATING_LIMIT <= base->Some_0 <= RATING_LIMIT,
        forall|q: int| 0 <= q < sel.len() ==> (#[trigger] sel[q]) < row.len(),
    ensures
        user_rank(sel, row, base, j) <= j,
        0 <= user_score(cfg, sel, row, base, j) <= j * (2 * RATING_LIMIT * pow(16, 15)),
    decreases j,
{
    if j <= 0 {
    } else {
        lemma_user_score_bounds(cfg, sel, row, base, j - 1);
        let cap = 2 * RATING_LIMIT * pow(16, 15);
        lemma_pow_positive(16, 15);
        if liked(row, base, sel[j - 1] as int) {
            let r = user_rank(sel, row, base, j - 1);
            lemma_weight_bounds(cfg, r);
            let e = row[sel[j - 1] as int]->Some_0 - base->Some_0;
            assert(1 <= e <= 2 * RATING_LIMIT);
            assert(e * weight(cfg, r) <= cap && e * weight(cfg, r) >= 1)
                by (nonlinear_arith)
                requires
                    1 <= e <= 2 * RATING_LIMIT,
                    1 <= weight(cfg, r) <= pow(16, 15),
                    cap == 2 * RATING_LIMIT * pow(16, 15),
            ;
        }
        assert((j - 1) * cap + cap == j * cap) by (nonlinear_arith);
        assert(0 <= (j - 1) * cap) by (nonlinear_arith)
            requires
                j - 1 >= 0,
                cap >= 0,
        ;
    }
}

/// The panel score over `u` respondents is nonnegative and bounded by
/// `u * max_size * (2 * RATING_LIMIT) * 16^15`.
pub proof fn lemma_panel_score_bounds(
    cfg: Config,
    sel: Seq<usize>,
    notes: Seq<Seq<Option<i64>>>,
    bases: Seq<Option<i64>>,
    cat_len: nat,
    u: int,
)
    requires
        cfg.wf(),
        sel.len() <= cfg.max_size,
        wf_ratings(cat_len, notes, bases),
        forall|q: int| 0 <= q < sel.len() ==> (#[trigger] sel[q]) < cat_len,
        0 <= u <= notes.len(),
    ensures
        0 <= panel_score(cfg, sel, notes, bases, u)
            <= u * (cfg.max_size * (2 * RATING_LIMIT * pow(16, 15))),
    decreases u,
{
    let ucap = cfg.max_size * (2 * RATING_LIMIT * pow(16, 15));
    if u <= 0 {
    } else {
        lemma_panel_score_bounds(cfg, sel, notes, bases, cat_len, u - 1);
        lemma_user_score_bounds(cfg, sel, notes[u - 1], bases[u - 1], sel.len() as int);
        let cap = 2 * RATING_LIMIT * pow(16, 15);
        lemma_pow_positive(16, 15);
        assert(sel.len() * cap <= cfg.max_size * cap) by (nonlinear_arith)
            requires
                sel.len() <= cfg.max_size,
                cap >= 0,
        ;
        assert((u - 1) * ucap + ucap == u * ucap) by (nonlinear_arith);
        assert(0 <= (u - 1) * ucap) by (nonlinear_arith)
            requires
                u - 1 >= 0,
                ucap >= 0,
        ;
    }
}

/// `b^e` for small exponents, exactly.
fn pow_exec(b: u64, e: usize) -> (r: u64)
    requires
        1 <= b <= 16,
        e <= 15,
    ensures
        r == pow(b as int, e as nat),
        1 <= r <= 0x1000000000000000,
{
    let mut r: u64 = 1;
    let mut i: usize = 0;
    proof {
        lemma_pow0(b as int);
    }
    while i < e
        invariant
            1 <= b <= 16,
            i <= e <= 15,
            r == pow(b as int, i as nat),
            r >= 1,
        decreases e - i,
    {
        proof {
            lemma_pow_le_base(b as int, 16, (i + 1) as nat);
            lemma_pow_increases(16, (i + 1) as nat, 15);
            lemma_weight_cap_value();
            assert(pow(b as int, (i + 1) as nat) == (b as int) * pow(b as int, i as nat)) by {
                lemma_pow1(b as int);
                lemma_pow_adds(b as int, 1, i as nat);
            }
            lemma_pow_positive(b as int, (i + 1) as nat);
        }
        r = r * b;
        i = i + 1;
    }
    proof {
        lemma_weight_cap_value();
        lemma_pow_le_base(b as int, 16, e as nat);
        lemma_pow_increases(16, e as nat, 15);
    }
    r
}

/// The aggregate liking score of the ordered selection `sel`, exactly
/// `spec_score`, in units of `1 / decay_den^(max_size - 1)`.
pub fn get_liking(
    cfg: &Config,
    sel: &Vec<usize>,
    notes: &Vec<Vec<Option<i64>>>,
    bases: &Vec<Option<i64>>,
    cat_len: usize,
) -> (r: i128)
    requires
        cfg.wf(),
        wf_ratings(cat_len as nat, rows_view(notes@), bases@),
        sel@.len() <= cfg.max_size,
        crate::budget::valid_sel(sel@, cat_len as nat),
    ensures
        r == spec_score(*cfg, sel@, rows_view(notes@), bases@),
        r >= 0,
{
    let ghost rows = rows_view(notes@);
    let ghost cap = 2 * RATING_LIMIT * pow(16, 15);
    let ghost ucap = cfg.max_size * cap;
    let mut total: i128 = 0;
    let mut u: usize = 0;
    while u < notes.len()
        invariant
            cfg.wf(),
            wf_ratings(cat_len as nat, rows, bases@),
            rows == rows_view(notes@),
            sel@.len() <= cfg.max_size,
            crate::budget::valid_sel(sel@, cat_len as nat),
            0 <= u <= notes@.len(),
            cap == 2 * RATING_LIMIT * pow(16, 15),
            ucap == cfg.max_size * cap,
            total == panel_score(*cfg, sel@, rows, bases@, u as int),
            0 <= total <= u * ucap,
        decreases notes@.len() - u,
    {
        let row: &Vec<Option<i64>> = &notes[u];
        let base: Option<i64> = bases[u];
        proof {
            assert(rows[u as int] == row@);
        }
        let mut acc: i128 = 0;
        let mut rank: usize = 0;
        let mut j: usize = 0;
        while j < sel.len()
            invariant
                cfg.wf(),
                wf_ratings(cat_len as nat, rows, bases@),
                rows == rows_view(notes@),
                0 <= u < notes@.len(),
                rows[u as int] == row@,
                base == bases@[u as int],
                sel@.len() <= cfg.max_size,
                crate::budget::valid_sel(sel@, cat_len as nat),
                row@.len() == cat_len,
                0 <= j <= sel@.len(),
                cap == 2 * RATING_LIMIT * pow(16, 15),
                ucap == cfg.max_size * cap,
                total == panel_score(*cfg, sel@, rows, bases@, u as int),
                0 <= total <= u * ucap,
                acc == user_score(*cfg, sel@, row@, base, j as int),
                rank == user_rank(sel@, row@, base, j as int),
                rank <= j,
            decreases sel@.len() - j,
        {
            proof {
                lemma_weight_cap_value();
                lemma_user_score_bounds(*cfg, sel@, row@, base, j as int);
                lemma_user_score_bounds(*cfg, sel@, row@, base, j as int + 1);
            }
            let i = sel[j];
            if let Some(note) = row[i] {
                if let Some(b) = base {
                    if note > b {
                        proof {
                            lemma_weight_bounds(*cfg, rank as nat);
                        }
                        let wn = pow_exec(cfg.decay_num, rank);
                        let wd = pow_exec(cfg.decay_den, cfg.max_size - 1 - rank);
                        proof {
                            assert((wn as int) * (wd as int)
                                <= 0x1000000000000000 * 0x1000000000000000)
                                by (nonlinear_arith)
                                requires
                                    0 <= wn <= 0x1000000000000000,
                                    0 <= wd <= 0x1000000000000000,
                            ;
                        }
                        let w: i128 = (wn as i128) * (wd as i128);
                        let e = note - b;
                        proof {
                            assert(w == weight(*cfg, rank as nat));
                            assert(1 <= e <= 2 * RATING_LIMIT);
                            assert(1 <= (e as int) * (w as int) <= cap) by (nonlinear_arith)
                                requires
                                    1 <= e <= 2 * RATING_LIMIT,
                                    1 <= w <= 0x1000000000000000,
                                    cap == 2 * RATING_LIMIT * 0x1000000000000000,
                            ;
                        }
                        let term: i128 = (e as i128) * w;
                        proof {
                            assert(acc + term
                                == user_score(*cfg, sel@, row@, base, j as int + 1));
                            assert((j as int + 1) * cap <= 16 * cap) by (nonlinear_arith)
                                requires
                                    0 <= j as int + 1 <= 16,
                                    cap >= 0,
                            ;
                        }
                        acc = acc + term;
                        rank = rank + 1;
                    }
                }
            }
            j = j + 1;
        }
        proof {
            lemma_weight_cap_value();
            lemma_user_score_bounds(*cfg, sel@, row@, base, sel@.len() as int);
            lemma_panel_score_bounds(*cfg, sel@, rows, bases@, cat_len as nat, u as int);
            lemma_panel_score_bounds(*cfg, sel@, rows, bases@, cat_len as nat, u as int + 1);
            assert(user_score(*cfg, sel@, row@, base, sel@.len() as int) == acc);
            assert(panel_score(*cfg, sel@, rows, bases@, u as int + 1) == total + acc);
            assert(acc <= ucap) by (nonlinear_arith)
                requires
                    acc <= sel@.len() * cap,
                    sel@.len() <= cfg.max_size,
                    cap >= 0,
                    ucap == cfg.max_size * cap,
            ;
            assert((u as int) * ucap + ucap == (u as int + 1) * ucap) by (nonlinear_arith);
            assert(0 <= ucap <= 16 * cap) by (nonlinear_arith)
                requires
                    1 <= cfg.max_size <= 16,
                    cap >= 0,
                    ucap == cfg.max_size * cap,
            ;
            assert((u as int + 1) * ucap
                <= 1_000_001 * (16 * (2 * 1_000_000 * 0x1000000000000000)))
                by (nonlinear_arith)
                requires
                    0 <= u < 1_000_001,
                    0 <= ucap <= 16 * (2 * 1_000_000 * 0x1000000000000000),
            ;
            assert(0 <= (u as int) * ucap) by (nonlinear_arith)
                requires
                    u >= 0,
                    ucap >= 0,
            ;
        }
        total = total + acc;
        u = u + 1;
    }
    total
}

/// Sum of the ratings the respondent provided among the first `j` slots.
pub open spec fn row_sum(row: Seq<Option<i64>>, j: int) -> int
    decreases j,
{
    if j <= 0 {
        0
    } else {
        row_sum(row, j - 1) + (if row[j - 1] is Some { row[j - 1]->Some_0 } else { 0 })
    }
}

/// Number of ratings the respondent provided among the first `j` slots.
pub open spec fn row_count(row: Seq<Option<i64>>, j: int) -> nat
    decreases j,
{
    if j <= 0 {
        0
    } else {
        row_count(row, j - 1) + (if row[j - 1] is Some { 1nat } else { 0nat })
    }
}

/// A respondent's baseline: the floor of the mean of their provided
/// ratings, or undefined when they rated nothing.
pub open spec fn spec_baseline(row: Seq<Option<i64>>) -> Option<i64> {
    let s = row_sum(row, row.len() as int);
    let c = row_count(row, row.len() as int);
    if c == 0 {
        None
    } else {
        Some((s / c as int) as i64)
    }
}

/// The partial sum of provided ratings stays within
/// `count * RATING_LIMIT` of zero, and the count within `j`.
pub proof fn lemma_row_sum_bounds(row: Seq<Option<i64>>, j: int)
    requires
        0 <= j <= row.len(),
        forall|i: int| 0 <= i < row.len() && (#[trigger] row[i]) is Some
            ==> -RATING_LIMIT <= row[i]->Some_0 <= RATING_LIMIT,
    ensures
        -(row_count(row, j) * RATING_LIMIT) <= row_sum(row, j)
            <= row_count(row, j) * RATING_LIMIT,
        row_count(row, j) <= j,
    decreases j,
{
    if j <= 0 {
    } else {
        lemma_row_sum_bounds(row, j - 1);
        let c0 = row_count(row, j - 1) as int;
        assert(c0 * RATING_LIMIT + RATING_LIMIT == (c0 + 1) * RATING_LIMIT)
            by (nonlinear_arith);
    }
}

/// Baselines, one per respondent: the floor of the mean of the ratings
/// each respondent provided, or `None` for a respondent who rated
/// nothing (so that the scorer never treats any item as liked by them).
pub fn baselines(notes: &Vec<Vec<Option<i64>>>) -> (r: Vec<Option<i64>>)
    requires
        forall|u: int| 0 <= u < notes@.len()
            ==> (#[trigger] notes@[u])@.len() <= CATALOG_LIMIT,
        forall|u: int, i: int|
            0 <= u < notes@.len() && 0 <= i < notes@[u]@.len()
                && (#[trigger] notes@[u]@[i]) is Some
                ==> -RATING_LIMIT <= notes@[u]@[i]->Some_0 <= RATING_LIMIT,
    ensures
        r@.len() == notes@.len(),
        forall|u: int| 0 <= u < notes@.len()
            ==> r@[u] == spec_baseline(rows_view(notes@)[u]),
{
    let mut out: Vec<Option<i64>> = Vec::new();
    let mut u: usize = 0;
    while u < notes.len()
        invariant
            0 <= u <= notes@.len(),
            forall|q: int| 0 <= q < notes@.len()
                ==> (#[trigger] notes@[q])@.len() <= CATALOG_LIMIT,
            forall|q: int, i: int|
                0 <= q < notes@.len() && 0 <= i < notes@[q]@.len()
                    && (#[trigger] notes@[q]@[i]) is Some
                    ==> -RATING_LIMIT <= notes@[q]@[i]->Some_0 <= RATING_LIMIT,
            out@.len() == u,
            forall|q: int| 0 <= q < u
                ==> out@[q] == spec_baseline(rows_view(notes@)[q]),
        decreases notes@.len() - u,
    {
        let row: &Vec<Option<i64>> = &notes[u];
        let mut sum: i64 = 0;
        let mut count: usize = 0;
        let mut j: usize = 0;
        while j < row.len()
            invariant
                0 <= j <= row@.len() <= CATALOG_LIMIT,
                forall|i: int| 0 <= i < row@.len() && (#[trigger] row@[i]) is Some
                    ==> -RATING_LIMIT <= row@[i]->Some_0 <= RATING_LIMIT,
                sum == row_sum(row@, j as int),
                count == row_count(row@, j as int),
                count <= j,
            decreases row@.len() - j,
        {
            proof {
                lemma_row_sum_bounds(row@, j as int);
                lemma_row_sum_bounds(row@, j as int + 1);
                let c1 = row_count(row@, j as int + 1) as int;
                assert(0 <= c1 * RATING_LIMIT <= 1_000_000_000_000) by (nonlinear_arith)
                    requires
                        0 <= c1 <= 1_000_000,
                ;
            }
            if let Some(v) = row[j] {
                sum = sum + v;
                count = count + 1;
            }
            j = j + 1;
        }
        let b: Option<i64> = if count == 0 {
            None
        } else {
            let c = count as u64;
            let ghost s = row_sum(row@, row@.len() as int);
            let ghost ci = count as int;
            proof {
                lemma_row_sum_bounds(row@, row@.len() as int);
                assert(-(ci * RATING_LIMIT) == ci * (-1_000_000)) by (nonlinear_arith)
                    requires
                        RATING_LIMIT == 1_000_000,
                ;
                lemma_div_is_ordered(s, ci * RATING_LIMIT, ci);
                lemma_div_is_ordered(ci * (-1_000_000), s, ci);
                lemma_div_multiples_vanish(RATING_LIMIT as int, ci);
                lemma_div_multiples_vanish(-1_000_000, ci);
                assert(-RATING_LIMIT <= s / ci <= RATING_LIMIT);
            }
            if sum >= 0 {
                let q = (sum as u64) / c;
                Some(q as i64)
            } else {
                let t = (-sum) as u64;
                let q = t / c;
                let rem = t % c;
                proof {
                    lemma_fundamental_div_mod(t as int, ci);
                    lemma_mod_bound(t as int, ci);
                    lemma_div_is_ordered(t as int, ci * RATING_LIMIT, ci);
                    assert(t as int <= ci * RATING_LIMIT);
                    assert(t as int / ci <= RATING_LIMIT);
                }
                if rem == 0 {
                    proof {
                        assert(s == (-(t as int / ci)) * ci + 0) by (nonlinear_arith)
                            requires
                                s == -(t as int),
                                t as int == ci * (t as int / ci) + (t as int % ci),
                                t as int % ci == 0,
                        ;
                        lemma_fundamental_div_mod_converse(s, ci, -(t as int / ci), 0);
                    }
                    Some(-(q as i64))
                } else {
                    proof {
                        assert(s == (-(t as int / ci) - 1) * ci + (ci - t as int % ci))
                            by (nonlinear_arith)
                            requires
                                s == -(t as int),
                                t as int == ci * (t as int / ci) + (t as int % ci),
                        ;
                        lemma_fundamental_div_mod_converse(
                            s, ci, -(t as int / ci) - 1, ci - (t as int % ci));
                    }
                    Some(-(q as i64) - 1)
                }
            }
        };
        proof {
            assert(rows_view(notes@)[u as int] == row@);
            assert(b == spec_baseline(row@));
        }
        out.push(b);
        u = u + 1;
    }
    out
}

/// A liked item placed first (rank 0) contributes strictly more than
/// the same item placed at any later rank: the decay factor lies
/// strictly between 0 and 1, so later ranks carry strictly smaller
/// weights.
pub proof fn lemma_first_rank_dominates(cfg: Config, e: int, r: nat)
    requires
        cfg.wf(),
        e >= 1,
        1 <= r < cfg.max_size,
    ensures
        e * weight(cfg, r) < e * weight(cfg, 0),
{
    let dn = cfg.decay_num as int;
    let dd = cfg.decay_den as int;
    let m1 = (cfg.max_size - 1) as nat;
    let e2 = (m1 - r) as nat;
    lemma_pow0(dn);
    lemma_pow_lt_base(dn, dd, r);
    lemma_pow_positive(dd, e2);
    lemma_pow_adds(dd, r, e2);
    assert(pow(dn, r) * pow(dd, e2) < pow(dd, r) * pow(dd, e2)) by (nonlinear_arith)
        requires
            pow(dn, r) < pow(dd, r),
            1 <= pow(dd, e2),
    ;
    assert(weight(cfg, 0) == pow(dd, m1));
    assert(e * weight(cfg, r) < e * weight(cfg, 0)) by (nonlinear_arith)
        requires
            e >= 1,
            weight(cfg, r) < weight(cfg, 0),
    ;
}

/// Helper for the zero-score law: one respondent who likes none of the
/// selected items scores zero on any prefix.
pub proof fn lemma_user_score_zero(
    cfg: Config,
    sel: Seq<usize>,
    row: Seq<Option<i64>>,
    base: Option<i64>,
    j: int,
)
    requires
        j <= sel.len(),
        forall|q: int| 0 <= q < sel.len() ==> !liked(row, base, (#[trigger] sel[q]) as int),
    ensures
        user_score(cfg, sel, row, base, j) == 0,
    decreases j,
{
    if j <= 0 {
    } else {
        lemma_user_score_zero(cfg, sel, row, base, j - 1);
    }
}

/// Zero-score law: if no respondent rates any selected item strictly
/// above their baseline, the total score is zero.
pub proof fn lemma_score_zero_when_nothing_liked(
    cfg: Config,
    sel: Seq<usize>,
    notes: Seq<Seq<Option<i64>>>,
    bases: Seq<Option<i64>>,
    u: int,
)
    requires
        u <= notes.len(),
        bases.len() == notes.len(),
        forall|w: int, q: int|
            0 <= w < notes.len() && 0 <= q < sel.len()
                ==> !liked(#[trigger] notes[w], bases[w], (#[trigger] sel[q]) as int),
    ensures
        panel_score(cfg, sel, notes, bases, u) == 0,
        u == notes.len() ==> spec_score(cfg, sel, notes, bases) == 0,
    decreases u,
{
    if u <= 0 {
    } else {
        lemma_score_zero_when_nothing_liked(cfg, sel, notes, bases, u - 1);
        lemma_user_score_zero(cfg, sel, notes[u - 1], bases[u - 1], sel.len() as int);
    }
}

/// The empty selection scores zero for any panel.
pub proof fn lemma_empty_selection_scores_zero(
    cfg: Config,
    notes: Seq<Seq<Option<i64>>>,
    bases: Seq<Option<i64>>,
    u: int,
)
    requires
        u <= notes.len(),
    ensures
        panel_score(cfg, Seq::<usize>::empty(), notes, bases, u) == 0,
        u == notes.len() ==> spec_score(cfg, Seq::<usize>::empty(), notes, bases) == 0,
    decreases u,
{
    if u <= 0 {
    } else {
        lemma_empty_selection_scores_zero(cfg, notes, bases, u - 1);
    }
}

} // verus!
