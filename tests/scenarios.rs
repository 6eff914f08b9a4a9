use qautomata::complex::{one, Amplitude, ComplexDef, AMPLITUDE_UNIT, CELL_EPSILON, PROBABILITY_UNIT};
use qautomata::configuration::Configuration;
use qautomata::coordinates::Coordinates;
use qautomata::engine::{run, RunCmd};
use qautomata::rules::{get_test_rules, Rules, FRAC_1_SQRT_2};
use qautomata::universe::Universe;
use rand::distributions::{Distribution, WeightedIndex};
use rand::SeedableRng;

fn amp(re: f64, im: f64) -> Amplitude {
    let unit = AMPLITUDE_UNIT as f64;
    ComplexDef { re: (re * unit).round() as i64, im: (im * unit).round() as i64 }
}

fn to_f64(a: Amplitude) -> (f64, f64) {
    let unit = AMPLITUDE_UNIT as f64;
    (a.re as f64 / unit, a.im as f64 / unit)
}

fn cell(x: i32, y: i32) -> Coordinates {
    Coordinates { x, y }
}

fn config(a: Amplitude, cells: &[(i32, i32)]) -> Configuration {
    Configuration::new(a, cells.iter().map(|&(x, y)| cell(x, y)).collect())
}

fn universe_of(state: Vec<Configuration>) -> Universe {
    Universe::from_state(state)
}

fn sorted_cells(c: &Configuration) -> Vec<Coordinates> {
    let mut v = c.living_cells.clone();
    v.sort();
    v
}

/// The squared norm at the probability scale, rounded to the nearest unit.
fn norm(a: Amplitude) -> u128 {
    let exact = (a.re as i128).pow(2) + (a.im as i128).pow(2);
    ((exact + (1i128 << 31)) >> 32) as u128
}

/// The exact squared norm of an amplitude as a real number.
fn exact_norm(a: Amplitude) -> f64 {
    let (re, im) = to_f64(a);
    re * re + im * im
}

fn probability(u: &Universe, c: Coordinates) -> Option<f64> {
    u.combined_state
        .iter()
        .find(|e| e.0 == c)
        .map(|e| e.1 as f64 / PROBABILITY_UNIT as f64)
}

fn total_probability(u: &Universe) -> f64 {
    u.total_weight() as f64 / PROBABILITY_UNIT as f64
}

/// Sums the squared norms per cell, as a rebuild from scratch does.
fn recomputed(u: &Universe) -> Vec<(Coordinates, i128)> {
    let mut out: Vec<(Coordinates, i128)> = Vec::new();
    for c in &u.state {
        let w = norm(c.amplitude) as i128;
        for q in &c.living_cells {
            match out.iter_mut().find(|e| e.0 == *q) {
                Some(e) => e.1 += w,
                None => out.push((*q, w)),
            }
        }
    }
    out.retain(|e| e.1 > CELL_EPSILON);
    out.sort();
    out
}

fn sorted_combined(u: &Universe) -> Vec<(Coordinates, i128)> {
    let mut v = u.combined_state.clone();
    v.sort();
    v
}

#[test]
fn vacuum_is_stable_under_a_step() {
    let mut u = Universe::new();
    u.step();
    assert_eq!(u.state.len(), 1);
    assert_eq!(u.state[0].amplitude, one());
    assert!(u.state[0].living_cells.is_empty());
    assert!(u.combined_state.is_empty());
    assert_eq!(u.step_count, 1);
    assert!(!u.is_even_step);
}

#[test]
fn single_isolated_cell_moves_down_on_an_even_step() {
    let mut u = universe_of(vec![config(one(), &[(0, 0)])]);
    u.step();
    assert_eq!(u.state.len(), 1);
    assert_eq!(u.state[0].amplitude, one());
    assert_eq!(u.state[0].living_cells, vec![cell(0, 1)]);
    assert_eq!(probability(&u, cell(0, 1)), Some(1.0));
}

#[test]
fn hadamard_like_rule_splits_a_block_in_two() {
    let zero = ComplexDef { re: 0, im: 0 };
    let mut rules: Rules = [[zero; 16]; 16];
    rules[0][0] = one();
    rules[6][4] = ComplexDef { re: FRAC_1_SQRT_2, im: 0 };
    rules[9][4] = ComplexDef { re: FRAC_1_SQRT_2, im: 0 };
    let mut u = universe_of(vec![config(one(), &[(0, 1)])]);
    u.rules = rules;
    u.step();
    assert_eq!(u.state.len(), 2);
    for c in &u.state {
        assert_eq!(c.amplitude, ComplexDef { re: FRAC_1_SQRT_2, im: 0 });
    }
    assert_eq!(sorted_cells(&u.state[0]), vec![cell(0, 1), cell(1, 0)]);
    assert_eq!(sorted_cells(&u.state[1]), vec![cell(0, 0), cell(1, 1)]);
    assert!((total_probability(&u) - 1.0).abs() < 1e-6);
}

#[test]
fn builtin_rules_split_column_six() {
    let mut u = universe_of(vec![config(one(), &[(0, 1), (1, 0)])]);
    u.step();
    assert_eq!(u.state.len(), 2);
    assert_eq!(sorted_cells(&u.state[0]), vec![cell(0, 1), cell(1, 0)]);
    assert_eq!(sorted_cells(&u.state[1]), vec![cell(0, 0), cell(1, 1)]);
    assert!((total_probability(&u) - 1.0).abs() < 1e-6);
}

#[test]
fn step_preserves_probability_under_a_unitary_column() {
    let mut u = universe_of(vec![
        config(amp(0.6, 0.0), &[(0, 1), (1, 0), (4, 4)]),
        config(amp(0.0, 0.8), &[(7, 7)]),
    ]);
    let before = total_probability(&u);
    for _ in 0..4 {
        u.step();
        let after = total_probability(&u);
        assert!((after - before).abs() < 1e-6 * 4.0);
    }
}

#[test]
fn odd_step_uses_the_shifted_partition() {
    let mut u = universe_of(vec![config(one(), &[(1, 1)])]);
    u.is_even_step = false;
    u.step();
    // (1, 1) is the top-left cell of its block on an odd step: index 8, row 4.
    assert_eq!(u.state[0].living_cells, vec![cell(1, 2)]);
    assert!(u.is_even_step);
}

#[test]
fn interference_collapses_equal_configurations() {
    let h = amp(1.0 / 2f64.sqrt(), 0.0);
    let mut u = universe_of(vec![config(h, &[(3, 3)]), config(h, &[(3, 3)])]);
    u.solve_interference();
    assert_eq!(u.state.len(), 1);
    let (re, im) = to_f64(u.state[0].amplitude);
    assert!((re - 2f64.sqrt()).abs() <= 1e-12);
    assert_eq!(im, 0.0);
    assert!((probability(&u, cell(3, 3)).unwrap() - 2.0).abs() <= 1e-9);
}

#[test]
fn destructive_interference_prunes_everything() {
    let h = amp(1.0 / 2f64.sqrt(), 0.0);
    let minus_h = amp(-1.0 / 2f64.sqrt(), 0.0);
    let mut u = universe_of(vec![config(h, &[(3, 3)]), config(minus_h, &[(3, 3)])]);
    u.solve_interference();
    assert!(u.state.is_empty());
    assert!(u.combined_state.is_empty());
}

#[test]
fn interference_matches_cell_sets_not_cell_order() {
    let a = amp(0.5, 0.0);
    let mut u = universe_of(vec![
        config(a, &[(1, 2), (5, 5)]),
        config(a, &[(9, 9)]),
        config(a, &[(5, 5), (1, 2)]),
        config(a, &[(9, 9), (1, 1)]),
    ]);
    u.solve_interference();
    assert_eq!(u.state.len(), 3);
    assert_eq!(u.state[0].amplitude, amp(1.0, 0.0));
    assert_eq!(u.state[1].amplitude, a);
    assert_eq!(u.state[2].amplitude, a);
    for i in 0..u.state.len() {
        for j in (i + 1)..u.state.len() {
            assert_ne!(sorted_cells(&u.state[i]), sorted_cells(&u.state[j]));
        }
    }
    // The incremental update agrees with a rebuild when nothing was pruned.
    assert_eq!(sorted_combined(&u), recomputed(&u));
}

#[test]
fn compute_combined_state_sums_norms_per_cell() {
    let mut u = Universe::new();
    u.state = vec![config(amp(0.6, 0.0), &[(0, 0), (1, 1)]), config(amp(0.0, 0.8), &[(1, 1)])];
    u.compute_combined_state();
    assert!((probability(&u, cell(0, 0)).unwrap() - 0.36).abs() < 1e-6);
    assert!((probability(&u, cell(1, 1)).unwrap() - 1.0).abs() < 1e-6);
    assert_eq!(probability(&u, cell(2, 2)), None);
    assert_eq!(sorted_combined(&u), recomputed(&u));
    let first = sorted_combined(&u);
    u.compute_combined_state();
    assert_eq!(sorted_combined(&u), first);
}

#[test]
fn measurement_collapses_by_the_born_rule() {
    let state = || {
        vec![config(amp(0.5, 0.0), &[(0, 0)]), config(amp(3f64.sqrt() / 2.0, 0.0), &[(1, 1)])]
    };
    let runs = 4000;
    let mut second = 0;
    for seed in 0..runs {
        let mut u = universe_of(state());
        let weights: Vec<u128> = u.state.iter().map(|c| norm(c.amplitude)).collect();
        let distribution = WeightedIndex::new(&weights).unwrap();
        let mut rng = rand::rngs::StdRng::seed_from_u64(seed);
        let k = distribution.sample(&mut rng);
        u.measure_with(k);
        assert_eq!(u.state.len(), 1);
        assert_eq!(u.state[0].amplitude, one());
        if u.state[0].living_cells == vec![cell(1, 1)] {
            second += 1;
            assert_eq!(probability(&u, cell(1, 1)), Some(1.0));
        }
    }
    let frequency = second as f64 / runs as f64;
    assert!((frequency - 0.75).abs() < 0.03);
}

#[test]
fn measure_with_keeps_the_chosen_configuration() {
    let state = || vec![config(amp(0.5, 0.0), &[(0, 0)]), config(amp(0.0, 0.5), &[(1, 1), (2, 2)])];
    let mut u = universe_of(state());
    u.measure_with(1);
    assert_eq!(u.state.len(), 1);
    assert_eq!(u.state[0].amplitude, one());
    assert_eq!(u.state[0].living_cells, vec![cell(1, 1), cell(2, 2)]);
    assert_eq!(sorted_combined(&u), vec![(cell(1, 1), PROBABILITY_UNIT as i128), (cell(2, 2), PROBABILITY_UNIT as i128)]);
}

#[test]
fn measure_never_draws_a_configuration_of_zero_weight() {
    for _ in 0..50 {
        let mut u = universe_of(vec![
            config(ComplexDef { re: 0, im: 0 }, &[(0, 0)]),
            config(amp(0.3, 0.4), &[(2, 2)]),
            config(ComplexDef { re: 0, im: 0 }, &[(4, 4)]),
        ]);
        u.measure();
        assert_eq!(u.state.len(), 1);
        assert_eq!(u.state[0].living_cells, vec![cell(2, 2)]);
        assert_eq!(u.state[0].amplitude, one());
    }
}

#[test]
fn measure_on_a_single_configuration_changes_nothing() {
    let mut u = universe_of(vec![config(amp(0.6, 0.8), &[(5, 5)])]);
    let before = u.state[0].clone();
    let combined = u.combined_state.clone();
    u.measure();
    assert_eq!(u.state.len(), 1);
    assert_eq!(u.state[0].amplitude, before.amplitude);
    assert_eq!(u.state[0].living_cells, before.living_cells);
    assert_eq!(u.combined_state, combined);
}

#[test]
fn configuration_new_keeps_each_cell_once() {
    let c = config(one(), &[(1, 1), (2, 2), (1, 1), (3, 3), (2, 2)]);
    assert_eq!(c.living_cells, vec![cell(1, 1), cell(2, 2), cell(3, 3)]);
}

#[test]
fn run_starts_from_the_vacuum_or_the_loaded_state() {
    let vacuum = run(&RunCmd { state_file: None }, vec![config(one(), &[(9, 9)])]);
    assert_eq!(vacuum.state.len(), 1);
    assert!(vacuum.state[0].living_cells.is_empty());
    let loaded = run(&RunCmd { state_file: Some("state.json".to_string()) }, vec![config(one(), &[(9, 9)])]);
    assert_eq!(loaded.state[0].living_cells, vec![cell(9, 9)]);
    assert_eq!(probability(&loaded, cell(9, 9)), Some(1.0));
    assert_eq!(loaded.rules, get_test_rules());
}

/// A column of two entries `0.5 + 0.5i` into rows 4 and 2: unit norm.
fn split_column_rules() -> Rules {
    let zero = ComplexDef { re: 0, im: 0 };
    let mut rules: Rules = [[zero; 16]; 16];
    rules[0][0] = one();
    rules[4][8] = amp(0.5, 0.5);
    rules[2][8] = amp(0.5, 0.5);
    rules
}

#[test]
fn fan_out_keeps_the_probability_of_a_configuration() {
    let a = amp(1.0 - 2f64.powi(-24), 0.0);
    let mut u = universe_of(vec![config(a, &[(0, 0)])]);
    u.rules = split_column_rules();
    let before = exact_norm(a);
    u.step();
    assert_eq!(u.state.len(), 2);
    let after: f64 = u.state.iter().map(|c| exact_norm(c.amplitude)).sum();
    assert!((after - before).abs() <= 1e-9);
}

#[test]
fn step_keeps_total_probability_over_many_configurations() {
    let a = amp(2f64.powi(-4) - 2f64.powi(-24), 0.0);
    let state: Vec<Configuration> = (0..256).map(|i| config(a, &[(4 * i, 0)])).collect();
    let mut u = universe_of(state);
    u.rules = split_column_rules();
    let before: f64 = u.state.iter().map(|c| exact_norm(c.amplitude)).sum();
    u.step();
    assert_eq!(u.state.len(), 512);
    let after: f64 = u.state.iter().map(|c| exact_norm(c.amplitude)).sum();
    assert!((after - before).abs() <= 1e-6);
}

#[test]
fn combined_state_leaves_out_negligible_cells() {
    let mut u = Universe::new();
    u.state = vec![config(amp(0.001, 0.0), &[(0, 0)]), config(amp(0.9, 0.0), &[(1, 1)])];
    u.compute_combined_state();
    assert_eq!(probability(&u, cell(0, 0)), None);
    assert!(probability(&u, cell(1, 1)).is_some());
    u.step();
    assert!(u.combined_state.iter().all(|e| e.1 > CELL_EPSILON));
    assert_eq!(sorted_combined(&u), recomputed(&u));
}
