use entromatica::chain::{ChainError, Engine, Row, Successor, PROBABILITY_ONE};
use entromatica::rules::compose_outcomes;
use std::collections::hash_map::DefaultHasher;
use std::hash::{Hash, Hasher};

fn digest(state: i64) -> u64 {
    state as u64
}

fn label(text: &str) -> u64 {
    let mut hasher = DefaultHasher::new();
    text.hash(&mut hasher);
    hasher.finish()
}

type Outgoing = Vec<(i64, u64, f64)>;

fn rows_of(engine: &Engine, generator: &dyn Fn(i64) -> Outgoing) -> (Vec<Row>, Vec<(u64, u64)>) {
    let current = engine.distribution(engine.time()).unwrap();
    let rows = current
        .iter()
        .map(|(source, _)| Row {
            source: *source,
            successors: generator(*source as i64)
                .into_iter()
                .map(|(target, transition, p)| Successor {
                    target: digest(target),
                    transition,
                    probability: p.to_bits(),
                })
                .collect(),
        })
        .collect();
    (rows, current)
}

fn row_is_stochastic(row: &Row) -> bool {
    let sum: f64 = row
        .successors
        .iter()
        .map(|s| f64::from_bits(s.probability))
        .sum();
    (sum * 10_i64.pow(10) as f64).round() / 10_i64.pow(10) as f64 == 1.0
}

fn step(engine: &mut Engine, generator: &dyn Fn(i64) -> Outgoing) -> Result<(), ChainError> {
    let (rows, current) = rows_of(engine, generator);
    for row in &rows {
        if !row_is_stochastic(row) {
            return Err(ChainError::NonStochasticRow { source: row.source });
        }
    }
    let plan = Engine::step_target_groups(&rows);
    let mut masses = vec![0.0f64; plan.keys.len()];
    let mut position = 0;
    for (row, (_, p)) in rows.iter().zip(current.iter()) {
        for s in &row.successors {
            masses[plan.group_of[position]] += f64::from_bits(*p) * f64::from_bits(s.probability);
            position += 1;
        }
    }
    let masses: Vec<u64> = masses.into_iter().map(f64::to_bits).collect();
    let next = Engine::fold_next(&rows, &masses).unwrap();
    assert!(engine.fits_step(&rows, &next));
    engine.advance(&rows, &next);
    Ok(())
}

fn entropy(engine: &Engine, t: u64) -> f64 {
    engine
        .distribution(t)
        .unwrap()
        .iter()
        .map(|(_, p)| f64::from_bits(*p))
        .filter(|p| *p > 0.0)
        .map(|p| p * p.log2())
        .sum::<f64>()
        .abs()
}

fn probability(engine: &Engine, state: i64, t: u64) -> f64 {
    engine
        .state_probability(digest(state), t)
        .map(f64::from_bits)
        .unwrap_or(0.0)
}

fn walk(state: i64) -> Vec<(i64, u64, f64)> {
    vec![
        (state + 1, label("next"), 0.5),
        (state - 1, label("previous"), 0.5),
    ]
}

fn cycle(state: i64) -> Vec<(i64, u64, f64)> {
    vec![
        (if state + 1 == 5 { 0 } else { state + 1 }, label("forward"), 0.5),
        (if state - 1 == -1 { 4 } else { state - 1 }, label("backward"), 0.5),
    ]
}

fn cycle_with_stay(state: i64) -> Vec<(i64, u64, f64)> {
    vec![
        (if state + 1 == 5 { 1 } else { state + 1 }, label("forward"), 0.5),
        (0, label("stay"), 0.5),
    ]
}

fn traverse(engine: &mut Engine, generator: &dyn Fn(i64) -> Outgoing) {
    let mut known = 0;
    while !engine.traversal_settled(known) {
        known = engine.state_count();
        step(engine, generator).unwrap();
    }
}

fn traverse_cache_only(engine: &mut Engine, generator: &dyn Fn(i64) -> Outgoing) {
    let mut scratch = engine.duplicate();
    let mut known = 0;
    while known != scratch.state_count() {
        known = scratch.state_count();
        step(&mut scratch, generator).unwrap();
        engine.adopt_discoveries(&scratch);
    }
}

fn uniform_is_steady(engine: &mut Engine, generator: &dyn Fn(i64) -> Outgoing) -> bool {
    traverse_cache_only(engine, generator);
    let mut scratch = engine.duplicate();
    let states = engine.known_states();
    let uniform = 1.0 / states.len() as f64;
    let injected: Vec<(u64, u64)> = states.iter().map(|d| (*d, uniform.to_bits())).collect();
    scratch.advance(&Vec::new(), &injected);
    let t = scratch.time();
    let before = entropy(&scratch, t);
    step(&mut scratch, generator).unwrap();
    before == entropy(&scratch, t + 1)
}

#[test]
fn simulation_random_walk() {
    let mut engine = Engine::new(digest(0));
    assert_eq!(engine.known_states().len(), 1);
    assert_eq!(engine.known_transitions().len(), 0);
    assert_eq!(engine.time() + 1, 1);
    assert_eq!(engine.state_count(), 1);
    assert_eq!(engine.edge_count(), 0);
    assert_eq!(entropy(&engine, 0), 0.0);

    step(&mut engine, &walk).unwrap();
    assert_eq!(engine.known_states().len(), 3);
    assert_eq!(engine.known_transitions().len(), 2);
    assert_eq!(engine.time() + 1, 2);
    assert_eq!(engine.state_count(), 3);
    assert_eq!(engine.edge_count(), 2);
    assert_eq!(entropy(&engine, 1), 1.0);

    assert_eq!(probability(&engine, 0, 1), 0.);
    assert_eq!(probability(&engine, 1, 1), 0.5);
    assert_eq!(probability(&engine, -1, 1), 0.5);
    assert_eq!(
        engine.distribution(0).unwrap(),
        vec![(digest(0), 1.0f64.to_bits())]
    );
    assert_eq!(engine.time(), 1);
}

#[test]
fn simulation_random_walk_with_initial_distribution() {
    let mut engine = Engine::with_distribution(&vec![
        (digest(0), 0.5f64.to_bits()),
        (digest(1), 0.5f64.to_bits()),
    ]);
    assert_eq!(engine.known_states().len(), 2);
    assert_eq!(engine.known_transitions().len(), 0);
    assert_eq!(engine.state_count(), 2);
    assert_eq!(engine.edge_count(), 0);
    assert_eq!(entropy(&engine, 0), 1.0);

    step(&mut engine, &walk).unwrap();
    assert_eq!(engine.known_states().len(), 4);
    assert_eq!(engine.known_transitions().len(), 2);
    assert_eq!(engine.state_count(), 4);
    assert_eq!(engine.edge_count(), 4);
    assert_eq!(entropy(&engine, 1), 2.0);
    let mut next = engine.distribution(1).unwrap();
    next.sort();
    let mut expected: Vec<(u64, u64)> = [-1, 0, 1, 2]
        .iter()
        .map(|s| (digest(*s), 0.25f64.to_bits()))
        .collect();
    expected.sort();
    assert_eq!(next, expected);
}

#[test]
fn simulation_full_traversal() {
    let mut engine = Engine::new(digest(0));
    traverse(&mut engine, &cycle);
    assert_eq!(engine.known_states().len(), 5);
    assert_eq!(engine.known_transitions().len(), 2);
    assert_eq!(engine.distribution(engine.time()).unwrap().len(), 4);
    assert_eq!(engine.state_count(), 5);
    assert_eq!(engine.edge_count(), 10);

    let (matrix, ordering) = engine.transition_matrix();
    assert_eq!(matrix.len(), 5);
    assert_eq!(ordering.len(), 5);
    for row in &matrix {
        assert_eq!(row.len(), 5);
        assert_eq!(row.iter().map(|b| f64::from_bits(*b)).sum::<f64>(), 1.0);
    }
    for j in 0..5 {
        assert_eq!(matrix.iter().map(|r| f64::from_bits(r[j])).sum::<f64>(), 1.0);
    }
    assert_eq!(ordering[0], digest(0));
    assert_eq!(ordering[1], digest(1));
    assert_eq!(f64::from_bits(matrix[0][1]), 0.5);
    assert_eq!(f64::from_bits(matrix[1][0]), 0.5);
}

#[test]
fn simulation_uniform_distribution_is_steady() {
    let mut engine = Engine::new(digest(0));
    assert!(uniform_is_steady(&mut engine, &cycle));
    let mut engine = Engine::new(digest(0));
    assert!(!uniform_is_steady(&mut engine, &cycle_with_stay));
}

#[test]
fn cache_only_traversal_keeps_history() {
    let mut engine = Engine::new(digest(0));
    traverse_cache_only(&mut engine, &cycle);
    assert_eq!(engine.time(), 0);
    assert_eq!(engine.state_count(), 5);
    assert_eq!(engine.edge_count(), 10);
    assert_eq!(engine.known_transitions().len(), 2);
}

#[test]
fn second_traversal_changes_nothing() {
    let mut engine = Engine::new(digest(0));
    traverse_cache_only(&mut engine, &cycle);
    let states = engine.known_states();
    let mut edges = engine.edge_list();
    traverse_cache_only(&mut engine, &cycle);
    let mut again = engine.edge_list();
    edges.sort();
    again.sort();
    assert_eq!(engine.known_states(), states);
    assert_eq!(again, edges);
}

#[test]
fn steps_are_deterministic() {
    let run = || {
        let mut engine = Engine::new(digest(0));
        for _ in 0..6 {
            step(&mut engine, &walk).unwrap();
        }
        let mut d = engine.distribution(6).unwrap();
        d.sort();
        d
    };
    assert_eq!(run(), run());
}

#[test]
fn distributions_sum_to_one() {
    let mut engine = Engine::new(digest(0));
    for _ in 0..8 {
        step(&mut engine, &cycle).unwrap();
    }
    for t in 0..=engine.time() {
        let sum: f64 = engine
            .distribution(t)
            .unwrap()
            .iter()
            .map(|(_, p)| f64::from_bits(*p))
            .sum();
        assert!((sum - 1.0).abs() <= 1e-10);
    }
}

#[test]
fn every_distributed_state_and_edge_is_known() {
    let mut engine = Engine::new(digest(0));
    for _ in 0..4 {
        step(&mut engine, &walk).unwrap();
    }
    let states = engine.known_states();
    let transitions = engine.known_transitions();
    for t in 0..=engine.time() {
        for (d, _) in engine.distribution(t).unwrap() {
            assert!(states.contains(&d));
        }
    }
    for (s, t, tr, p) in engine.edge_list() {
        assert!(states.contains(&s));
        assert!(states.contains(&t));
        assert!(transitions.contains(&tr));
        let p = f64::from_bits(p);
        assert!((0.0..=1.0).contains(&p));
    }
}

#[test]
fn entropy_grows_under_doubly_stochastic_chain() {
    let mut engine = Engine::new(digest(0));
    assert!(uniform_is_steady(&mut engine, &cycle));
    let mut engine = Engine::new(digest(0));
    for _ in 0..8 {
        step(&mut engine, &cycle).unwrap();
    }
    for t in 0..engine.time() {
        assert!(entropy(&engine, t + 1) >= entropy(&engine, t) - 1e-9);
    }
}

#[test]
fn missing_time_is_an_error() {
    let engine = Engine::new(digest(0));
    assert_eq!(
        engine.distribution(3),
        Err(ChainError::MissingTime { time: 3 })
    );
    assert_eq!(engine.state_probability(digest(0), 3), None);
    assert_eq!(engine.state_probability(digest(0), 0), Some(PROBABILITY_ONE));
}

#[test]
fn non_stochastic_row_leaves_the_engine_unchanged() {
    let mut engine = Engine::new(digest(0));
    let broken = |state: i64| vec![(state + 1, label("next"), 0.5)];
    assert_eq!(
        step(&mut engine, &broken),
        Err(ChainError::NonStochasticRow { source: digest(0) })
    );
    assert_eq!(engine.time(), 0);
    assert_eq!(engine.state_count(), 1);
}

#[test]
fn fits_step_accepts_ordinary_steps() {
    let engine = Engine::new(digest(0));
    let (rows, _) = rows_of(&engine, &walk);
    assert!(engine.fits_step(&rows, &vec![(digest(1), 0.5f64.to_bits())]));
}

#[test]
fn repeated_edge_is_updated_in_place() {
    let mut engine = Engine::new(digest(0));
    let row = Row {
        source: digest(0),
        successors: vec![Successor {
            target: digest(0),
            transition: 7,
            probability: PROBABILITY_ONE,
        }],
    };
    let rows = vec![row];
    let next = vec![(digest(0), PROBABILITY_ONE)];
    engine.advance(&rows, &next);
    engine.advance(&rows, &next);
    assert_eq!(engine.edge_count(), 1);
    assert_eq!(engine.edge_list(), vec![(digest(0), digest(0), 7, PROBABILITY_ONE)]);
    assert_eq!(engine.time(), 2);
}

struct TestRule {
    description: &'static str,
    applies: fn(i64) -> bool,
    weight: f64,
    action: fn(i64) -> i64,
}

fn composed_generator(rules: &[TestRule], state: i64) -> Vec<(i64, u64, f64)> {
    let applicable: Vec<&TestRule> = rules.iter().filter(|r| (r.applies)(state)).collect();
    let targets: Vec<u64> = applicable.iter().map(|r| digest((r.action)(state))).collect();
    let descriptions: Vec<String> = applicable.iter().map(|r| r.description.to_string()).collect();
    let weights: Vec<f64> = applicable.iter().map(|r| r.weight).collect();
    let nothing: f64 = weights.iter().map(|w| 1.0 - w).product();
    let outcomes = compose_outcomes(digest(state), &targets, &descriptions, nothing > 0.0);
    let sum: f64 = outcomes
        .iter()
        .map(|o| o.rules.iter().map(|i| weights[*i]).sum::<f64>())
        .sum::<f64>()
        + nothing;
    outcomes
        .iter()
        .map(|o| {
            let mut p = o.rules.iter().map(|i| weights[*i]).sum::<f64>() / sum;
            if o.with_nothing {
                p += nothing / sum;
            }
            (o.target as i64, label(&o.description), p)
        })
        .collect()
}

#[test]
fn rules_random_walk() {
    let rules = [
        TestRule { description: "Forward", applies: |_| true, weight: 1., action: |s| s + 1 },
        TestRule { description: "Backward", applies: |_| true, weight: 1., action: |s| s - 1 },
    ];
    let generator = |s: i64| composed_generator(&rules, s);
    let mut engine = Engine::new(digest(0));
    assert_eq!(engine.known_states().len(), 1);
    assert_eq!(engine.known_transitions().len(), 0);
    assert_eq!(engine.edge_count(), 0);
    assert_eq!(entropy(&engine, 0), 0.0);
    step(&mut engine, &generator).unwrap();
    assert_eq!(engine.known_states().len(), 3);
    assert_eq!(engine.known_transitions().len(), 2);
    assert_eq!(engine.state_count(), 3);
    assert_eq!(engine.edge_count(), 2);
    assert_eq!(entropy(&engine, 1), 1.0);
    assert_eq!(probability(&engine, 0, 1), 0.);
    assert_eq!(probability(&engine, 1, 1), 0.5);
    assert_eq!(probability(&engine, -1, 1), 0.5);
    assert_eq!(engine.time(), 1);
}

#[test]
fn random_walk_return() {
    let rules = [
        TestRule { description: "Forward", applies: |_| true, weight: 1., action: |s| s + 1 },
        TestRule { description: "Backward", applies: |_| true, weight: 1., action: |s| s - 1 },
        TestRule { description: "Return", applies: |_| true, weight: 0.1, action: |_| 0 },
    ];
    let generator = |s: i64| composed_generator(&rules, s);
    let mut engine = Engine::new(digest(0));
    assert_eq!(engine.known_states().len(), 1);
    assert_eq!(engine.known_transitions().len(), 0);
    assert_eq!(engine.edge_count(), 0);
    assert_eq!(entropy(&engine, 0), 0.0);
    step(&mut engine, &generator).unwrap();
    assert_eq!(engine.known_states().len(), 3);
    assert_eq!(engine.known_transitions().len(), 3);
    assert_eq!(engine.state_count(), 3);
    assert_eq!(engine.edge_count(), 3);
}

#[test]
fn return_rule_reaches_five_states_by_step_three() {
    let rules = [
        TestRule { description: "Return", applies: |s| s != 0, weight: 0.1, action: |_| 0 },
        TestRule { description: "Forward", applies: |_| true, weight: 1., action: |s| s + 1 },
        TestRule { description: "Backward", applies: |_| true, weight: 1., action: |s| s - 1 },
    ];
    let generator = |s: i64| composed_generator(&rules, s);
    let mut engine = Engine::new(digest(0));
    assert_eq!(engine.distribution(0).unwrap().len(), 1);
    step(&mut engine, &generator).unwrap();
    assert_eq!(engine.distribution(1).unwrap().len(), 2);
    step(&mut engine, &generator).unwrap();
    assert_eq!(engine.distribution(2).unwrap().len(), 3);
    step(&mut engine, &generator).unwrap();
    let mut support: Vec<i64> = engine
        .distribution(3)
        .unwrap()
        .iter()
        .map(|(d, _)| *d as i64)
        .collect();
    support.sort();
    assert_eq!(support, vec![-3, -1, 0, 1, 3]);
}

#[test]
fn two_half_weight_rules_normalise_with_nothing() {
    let rules = [
        TestRule { description: "Up", applies: |_| true, weight: 0.5, action: |s| s + 1 },
        TestRule { description: "Down", applies: |_| true, weight: 0.5, action: |s| s - 1 },
    ];
    let row = composed_generator(&rules, 0);
    assert_eq!(row.len(), 3);
    assert_eq!(row[0], (1, label("Up"), 0.4));
    assert_eq!(row[1], (-1, label("Down"), 0.4));
    assert_eq!(row[2], (0, label("Nothing"), 0.2));
}

#[test]
fn fold_needs_one_mass_per_target() {
    let engine = Engine::new(digest(0));
    let (rows, _) = rows_of(&engine, &walk);
    assert_eq!(Engine::fold_next(&rows, &vec![0.5f64.to_bits()]), None);
    let half = 0.5f64.to_bits();
    assert_eq!(
        Engine::fold_next(&rows, &vec![half, half]),
        Some(vec![(digest(1), half), (digest(-1), half)])
    );
}

#[test]
fn recorded_times_are_found() {
    let mut engine = Engine::new(digest(0));
    step(&mut engine, &walk).unwrap();
    assert!(engine.distribution(0).is_ok());
    assert!(engine.distribution(1).is_ok());
    assert!(engine.distribution(2).is_err());
}

#[test]
fn traversal_settles_when_no_state_is_new() {
    let mut engine = Engine::new(digest(0));
    assert!(!engine.traversal_settled(0));
    assert!(engine.traversal_settled(1));
    traverse(&mut engine, &cycle);
    assert!(engine.traversal_settled(5));
}
