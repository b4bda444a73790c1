//! Solver behavior: convergence to closed forms, the Bellman residual at
//! convergence, and policy soundness.

use mdp::chain::build_chain;
use mdp::grid::build_grid;
use mdp::solver::ValueIterationSolver;
use mdp::toggle::{build_steady, build_toggle};
use mdp::SCALE;

/// Recomputes one action's expected value exactly as the solver defines it.
fn expected_value(transitions: &Vec<mdp::mdp::Transition>, values: &[i64], discount: i64) -> i64 {
    let mut acc: i128 = 0;
    for t in transitions.iter() {
        acc += (t.probability() as i128)
            * ((t.reward() as i128) * (SCALE as i128)
                + (discount as i128) * (values[t.to()] as i128));
    }
    acc.div_euclid((SCALE as i128) * (SCALE as i128)) as i64
}

#[test]
fn steady_converges_to_expected_reward_over_one_minus_discount() {
    let m = build_steady();
    let discount: i64 = 500_000;
    let mut solver = ValueIterationSolver::new(&m, discount, 100);
    solver.solve();
    // V = 0.5 / (1 - 0.5) = 1.0
    let expected = (0.5 / (1.0 - 0.5) * SCALE as f64) as i64;
    assert!((solver.values()[0] - expected).abs() < 5_000);
}

#[test]
fn toggle_converges_symmetrically() {
    let m = build_toggle();
    let discount: i64 = 500_000;
    let mut solver = ValueIterationSolver::new(&m, discount, 100);
    solver.solve();
    let expected = (0.5 / (1.0 - 0.5) * SCALE as f64) as i64;
    assert!((solver.values()[0] - expected).abs() < 5_000);
    assert!((solver.values()[1] - expected).abs() < 5_000);
}

#[test]
fn chain_matches_closed_form() {
    let m = build_chain();
    let discount: i64 = 900_000;
    let mut solver = ValueIterationSolver::new(&m, discount, 100);
    solver.solve();
    // V = 0.85 * (5 + 0.9 * V)  =>  V = 4.25 / (1 - 0.765)
    let expected = (4.25 / (1.0 - 0.765) * SCALE as f64) as i64;
    assert!((solver.values()[0] - expected).abs() < 20_000);
    let terminal = m.index_of(&mdp::chain::ChainState::Terminal).unwrap();
    assert_eq!(solver.values()[terminal], 0);
}

#[test]
fn converged_values_satisfy_bellman_within_tolerance() {
    let m = build_grid();
    let discount: i64 = 900_000;
    let tolerance: i64 = 100;
    let mut solver = ValueIterationSolver::new(&m, discount, tolerance);
    solver.solve();
    let values = solver.values().clone();
    for i in 0..m.states().len() {
        let groups = m.actions(i);
        if groups.is_empty() {
            continue;
        }
        let best = groups
            .iter()
            .map(|(_, ts)| expected_value(ts, &values, discount))
            .fold(i64::MIN, i64::max);
        assert!((values[i] - best).abs() < tolerance);
    }
}

#[test]
fn policy_picks_a_maximizing_action_everywhere() {
    let m = build_grid();
    let discount: i64 = 900_000;
    let mut solver = ValueIterationSolver::new(&m, discount, 100);
    solver.solve();
    let values = solver.values().clone();
    let policy = solver.get_policy();
    assert_eq!(policy.actions().len(), m.states().len());
    for i in 0..m.states().len() {
        let groups = m.actions(i);
        match policy.get_action(i) {
            None => assert!(groups.is_empty()),
            Some(chosen) => {
                let chosen_q = groups
                    .iter()
                    .find(|(a, _)| a.id() == chosen.id() && a.content_hash() == chosen.content_hash())
                    .map(|(_, ts)| expected_value(ts, &values, discount))
                    .expect("chosen action is enabled");
                for (_, ts) in groups.iter() {
                    assert!(chosen_q >= expected_value(ts, &values, discount));
                }
            }
        }
    }
}

#[test]
fn terminal_state_gets_no_action() {
    let m = build_chain();
    let mut solver = ValueIterationSolver::new(&m, 900_000, 100);
    solver.solve();
    let policy = solver.get_policy();
    let terminal = m.index_of(&mdp::chain::ChainState::Terminal).unwrap();
    assert!(policy.get_action(terminal).is_none());
    let chosen = policy.get_action(0).expect("active state has an action");
    assert_eq!(chosen.to_string(), "play");
}

#[test]
fn built_models_pass_the_arithmetic_bounds() {
    assert!(mdp::solver::model_is_bounded(&build_chain()));
    assert!(mdp::solver::model_is_bounded(&build_grid()));
    assert!(mdp::solver::model_is_bounded(&mdp::bakery::build_bakery()));
}

#[test]
fn solving_twice_is_stable() {
    let m = build_chain();
    let mut s1 = ValueIterationSolver::new(&m, 900_000, 100);
    s1.solve();
    let mut s2 = ValueIterationSolver::new(&m, 900_000, 100);
    s2.solve();
    assert_eq!(s1.values(), s2.values());
}

#[test]
fn chain_optimal_end_to_end() {
    let (m, values, policy) = mdp::chain::chain_optimal();
    assert_eq!(values.len(), m.states().len());
    assert_eq!(policy.actions().len(), m.states().len());
    let expected = (4.25 / (1.0 - 0.765) * SCALE as f64) as i64;
    assert!((values[0] - expected).abs() < 20_000);
    assert_eq!(policy.get_action(0).expect("active state acts").to_string(), "play");
}

#[test]
fn bakery_waits_only_when_jammed() {
    let m = mdp::bakery::build_bakery();
    let mut solver = ValueIterationSolver::new(&m, 900_000, 100);
    solver.solve();
    let policy = solver.get_policy();
    let stuck = m
        .index_of(&mdp::bakery::BakeryState { visits: 0, jammed: true, banned: true })
        .expect("banned and jammed is reachable");
    assert_eq!(policy.get_action(stuck).expect("wait is enabled").to_string(), "wait");
    let banned = m
        .index_of(&mdp::bakery::BakeryState { visits: 0, jammed: false, banned: true })
        .expect("banned is reachable");
    assert_eq!(
        policy.get_action(banned).expect("vending is enabled").to_string(),
        "vending_machine"
    );
}
