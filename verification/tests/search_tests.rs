use game_picker::Item;
use game_picker::budget::total_price;
use game_picker::budget::within_budget;
use game_picker::combos::combinations;
use game_picker::config::Config;
use game_picker::perms::permutations;
use game_picker::score::baselines;
use game_picker::score::get_liking;
use game_picker::search::Incumbent;
use game_picker::search::fold_candidate;
use game_picker::search::fold_incumbent;
use game_picker::search::order_search;
use game_picker::search::run_search;

fn demo_config() -> Config {
    Config { budget: 150, decay_num: 3, decay_den: 4, max_size: 12 }
}

fn demo_catalog() -> Vec<Item> {
    vec![
        Item { name: String::from("A"), price: 50 },
        Item { name: String::from("B"), price: 60 },
        Item { name: String::from("C"), price: 80 },
    ]
}

fn demo_notes() -> Vec<Vec<Option<i64>>> {
    vec![vec![Some(10), Some(8), Some(2)]]
}

// In units of 1 / 4^11 (decay 3/4, max_size 12).
const UNIT: i128 = 4_194_304; // 4^11

#[test]
fn combinations_of_four_choose_two() {
    let cs = combinations(4, 2);
    let expected: Vec<Vec<usize>> = vec![
        vec![0, 1],
        vec![0, 2],
        vec![0, 3],
        vec![1, 2],
        vec![1, 3],
        vec![2, 3],
    ];
    assert_eq!(cs, expected);
}

#[test]
fn combinations_size_zero_is_single_empty() {
    let cs = combinations(3, 0);
    assert_eq!(cs, vec![Vec::<usize>::new()]);
}

#[test]
fn combinations_oversized_is_empty() {
    let cs = combinations(2, 3);
    assert!(cs.is_empty());
}

#[test]
fn combinations_full_size() {
    let cs = combinations(5, 5);
    assert_eq!(cs, vec![vec![0, 1, 2, 3, 4]]);
}

#[test]
fn combinations_counts_match_pascal() {
    for n in 0..7usize {
        for k in 0..8usize {
            let expect = binom(n, k);
            assert_eq!(combinations(n, k).len(), expect, "n={n} k={k}");
        }
    }
}

fn binom(n: usize, k: usize) -> usize {
    if k == 0 {
        1
    } else if n == 0 {
        0
    } else {
        binom(n - 1, k - 1) + binom(n - 1, k)
    }
}

#[test]
fn permutations_of_three() {
    let s = vec![0usize, 1, 2];
    let ps = permutations(&s);
    let expected: Vec<Vec<usize>> = vec![
        vec![0, 1, 2],
        vec![0, 2, 1],
        vec![1, 0, 2],
        vec![1, 2, 0],
        vec![2, 0, 1],
        vec![2, 1, 0],
    ];
    assert_eq!(ps, expected);
}

#[test]
fn permutations_of_empty() {
    let s: Vec<usize> = Vec::new();
    let ps = permutations(&s);
    assert_eq!(ps, vec![Vec::<usize>::new()]);
}

#[test]
fn budget_accepts_below_and_rejects_above() {
    let cfg = demo_config();
    let cat = demo_catalog();
    // {A, B} costs 110: accepted.
    assert!(within_budget(&cfg, &cat, &vec![0, 1]));
    assert_eq!(total_price(&cat, &vec![0, 1]), 110);
    // {A, B, C} costs 190: rejected.
    assert!(!within_budget(&cfg, &cat, &vec![0, 1, 2]));
    assert_eq!(total_price(&cat, &vec![0, 1, 2]), 190);
}

#[test]
fn budget_boundary_exactly_at_cap_is_rejected() {
    let cfg = demo_config();
    let cat = vec![
        Item { name: String::from("D"), price: 70 },
        Item { name: String::from("E"), price: 80 },
    ];
    assert_eq!(total_price(&cat, &vec![0, 1]), 150);
    assert!(!within_budget(&cfg, &cat, &vec![0, 1]));
    // One unit below the cap is accepted.
    let cat2 = vec![
        Item { name: String::from("D"), price: 70 },
        Item { name: String::from("E"), price: 79 },
    ];
    assert!(within_budget(&cfg, &cat2, &vec![0, 1]));
}

#[test]
fn baseline_is_floor_of_mean() {
    let notes = demo_notes();
    let b = baselines(&notes);
    // mean of 10, 8, 2 is 20/3; the integer baseline is its floor, 6.
    assert_eq!(b, vec![Some(6)]);
}

#[test]
fn baseline_of_unrated_respondent_is_undefined() {
    let notes: Vec<Vec<Option<i64>>> = vec![vec![None, None, None]];
    assert_eq!(baselines(&notes), vec![None]);
}

#[test]
fn baseline_floor_of_negative_mean() {
    let notes: Vec<Vec<Option<i64>>> = vec![vec![Some(-3), Some(-4)], vec![Some(-4), None]];
    // (-7)/2 floors to -4; a single rating is its own mean.
    assert_eq!(baselines(&notes), vec![Some(-4), Some(-4)]);
}

#[test]
fn scorer_demo_scenario_is_order_sensitive() {
    let cfg = demo_config();
    let notes = demo_notes();
    let bases = baselines(&notes);
    assert_eq!(bases, vec![Some(6)]);
    // [A, B]: A contributes (10-6)*1, B contributes (8-6)*(3/4): 5.5.
    let ab = get_liking(&cfg, &vec![0, 1], &notes, &bases, 3);
    assert_eq!(ab * 2, 11 * UNIT); // 5.5 in units of 4^11
    // [B, A]: B contributes 2*1, A contributes 4*(3/4): 5.0.
    let ba = get_liking(&cfg, &vec![1, 0], &notes, &bases, 3);
    assert_eq!(ba, 5 * UNIT);
    assert!(ab > ba);
}

#[test]
fn scorer_liked_item_contributes_most_at_first_rank() {
    let cfg = demo_config();
    let notes: Vec<Vec<Option<i64>>> = vec![vec![Some(10), Some(8), Some(0)]];
    let bases = baselines(&notes); // mean 6
    assert_eq!(bases, vec![Some(6)]);
    // Item 0 (excess 4) first: contributes 4 * 4^11.
    let first = get_liking(&cfg, &vec![0], &notes, &bases, 3);
    assert_eq!(first, 4 * UNIT);
    // The same item behind item 1: its contribution decays to 3 * 4^11,
    // item 1 takes the first rank with 2 * 4^11.
    let second = get_liking(&cfg, &vec![1, 0], &notes, &bases, 3);
    assert_eq!(second, 2 * UNIT + 3 * UNIT);
    assert!(first > second - 2 * UNIT);
}

#[test]
fn scorer_zero_when_nothing_above_baseline() {
    let cfg = demo_config();
    // Both respondents rate everything at their own mean.
    let notes: Vec<Vec<Option<i64>>> = vec![
        vec![Some(5), Some(5), Some(5)],
        vec![Some(7), Some(7), None],
    ];
    let bases = baselines(&notes);
    assert_eq!(bases, vec![Some(5), Some(7)]);
    assert_eq!(get_liking(&cfg, &vec![0, 1, 2], &notes, &bases, 3), 0);
}

#[test]
fn scorer_guards_undefined_baseline() {
    let cfg = demo_config();
    // A respondent with no ratings never likes anything, even where a
    // rating would exist for another respondent.
    let notes: Vec<Vec<Option<i64>>> = vec![vec![None, None, None]];
    let bases = baselines(&notes);
    assert_eq!(bases, vec![None]);
    assert_eq!(get_liking(&cfg, &vec![0, 1, 2], &notes, &bases, 3), 0);
}

#[test]
fn empty_subset_scores_zero_and_passes_budget() {
    let cfg = demo_config();
    let cat = demo_catalog();
    let notes = demo_notes();
    let bases = baselines(&notes);
    let empty: Vec<usize> = Vec::new();
    assert_eq!(get_liking(&cfg, &empty, &notes, &bases, 3), 0);
    assert_eq!(total_price(&cat, &empty), 0);
    assert!(within_budget(&cfg, &cat, &empty));
}

#[test]
fn fold_keeps_incumbent_on_tie_or_worse() {
    let mut inc = Incumbent { score: 10, price: 99, ordering: Some(vec![1, 2]) };
    // A tie never replaces.
    fold_candidate(&mut inc, 10, 1, vec![0]);
    assert_eq!(inc.score, 10);
    assert_eq!(inc.price, 99);
    assert_eq!(inc.ordering, Some(vec![1, 2]));
    // Worse never replaces.
    fold_candidate(&mut inc, 9, 1, vec![0]);
    assert_eq!(inc.score, 10);
    assert_eq!(inc.price, 99);
    assert_eq!(inc.ordering, Some(vec![1, 2]));
    // Strictly better replaces.
    fold_candidate(&mut inc, 11, 1, vec![0]);
    assert_eq!(inc.score, 11);
    assert_eq!(inc.price, 1);
    assert_eq!(inc.ordering, Some(vec![0]));
}

#[test]
fn merge_keeps_incumbent_on_tie_or_worse() {
    let mut global = Incumbent { score: 7, price: 40, ordering: Some(vec![2]) };
    fold_incumbent(&mut global, Incumbent { score: 7, price: 1, ordering: Some(vec![0]) });
    assert_eq!(global.score, 7);
    assert_eq!(global.price, 40);
    assert_eq!(global.ordering, Some(vec![2]));
    fold_incumbent(&mut global, Incumbent { score: 8, price: 1, ordering: Some(vec![0]) });
    assert_eq!(global.score, 8);
    assert_eq!(global.ordering, Some(vec![0]));
}

#[test]
fn zero_scoring_candidate_never_displaces_positive_incumbent() {
    let mut inc = Incumbent { score: 3, price: 50, ordering: Some(vec![0]) };
    // The empty subset scores 0 and prices 0: folding it is a no-op.
    fold_candidate(&mut inc, 0, 0, Vec::new());
    assert_eq!(inc.score, 3);
    assert_eq!(inc.price, 50);
    assert_eq!(inc.ordering, Some(vec![0]));
}

#[test]
fn order_search_picks_best_arrangement() {
    let cfg = demo_config();
    let cat = demo_catalog();
    let notes = demo_notes();
    let bases = baselines(&notes);
    let mut inc = Incumbent { score: 0, price: 0, ordering: None };
    order_search(&cfg, &cat, &notes, &bases, &vec![0, 1], &mut inc);
    // [A, B] at 5.5 beats [B, A] at 5.0.
    assert_eq!(inc.score * 2, 11 * UNIT);
    assert_eq!(inc.price, 110);
    assert_eq!(inc.ordering, Some(vec![0, 1]));
}

#[test]
fn run_search_demo_scenario() {
    let cfg = demo_config();
    let cat = demo_catalog();
    let notes = demo_notes();
    let bases = baselines(&notes);
    let (reports, best) = run_search(&cfg, &cat, &notes, &bases);
    assert_eq!(reports.len(), 12);
    // Size 0: the empty subset scores 0 and never beats the zero start.
    assert_eq!(reports[0].size, 0);
    assert_eq!(reports[0].best.score, 0);
    assert_eq!(reports[0].best.ordering, None);
    // Size 1: the best single item is A, at (10-6) * 4^11.
    assert_eq!(reports[1].best.score, 4 * UNIT);
    assert_eq!(reports[1].best.price, 50);
    assert_eq!(reports[1].best.ordering, Some(vec![0]));
    // Size 2 and beyond: [A, B] at 5.5, priced 110; {A,B,C} is over budget.
    assert_eq!(reports[2].best.score * 2, 11 * UNIT);
    assert_eq!(reports[2].best.price, 110);
    assert_eq!(reports[2].best.ordering, Some(vec![0, 1]));
    assert_eq!(best.score * 2, 11 * UNIT);
    assert_eq!(best.price, 110);
    assert_eq!(best.ordering, Some(vec![0, 1]));
    // The running best never regresses across sizes.
    for s in 1..reports.len() {
        assert!(reports[s - 1].best.score <= reports[s].best.score);
        assert_eq!(reports[s].size, s);
    }
}

#[test]
fn run_search_all_items_over_budget_keeps_zero_incumbent() {
    let cfg = Config { budget: 10, decay_num: 3, decay_den: 4, max_size: 4 };
    let cat = vec![
        Item { name: String::from("X"), price: 20 },
        Item { name: String::from("Y"), price: 30 },
    ];
    let notes: Vec<Vec<Option<i64>>> = vec![vec![Some(9), Some(9)]];
    let bases = baselines(&notes);
    let (reports, best) = run_search(&cfg, &cat, &notes, &bases);
    assert_eq!(reports.len(), 4);
    assert_eq!(best.score, 0);
    assert_eq!(best.price, 0);
    assert_eq!(best.ordering, None);
}
