//! Structural behavior of the graph builder: valid endpoints, the initial
//! state at index 0, value deduplication, deterministic rebuilds, and the
//! query surface.

use mdp::bakery::{build_bakery, BakeryState};
use mdp::chain::{build_chain, ChainState};
use mdp::grid::{build_grid, GridState};
use mdp::toggle::{build_steady, build_toggle, ToggleState};

#[test]
fn toggle_initial_state_is_index_zero() {
    let m = build_toggle();
    assert!(!m.states()[0].on);
    assert_eq!(m.index_of(&ToggleState { on: false }), Some(0));
}

#[test]
fn toggle_explores_both_states() {
    let m = build_toggle();
    assert_eq!(m.states().len(), 2);
    assert_eq!(m.index_of(&ToggleState { on: true }), Some(1));
}

#[test]
fn steady_collapses_to_one_state() {
    let m = build_steady();
    assert_eq!(m.states().len(), 1);
}

#[test]
fn transition_endpoints_are_valid_indices() {
    let m = build_grid();
    let n = m.states().len();
    for i in 0..n {
        for (_, transitions) in m.actions(i).iter() {
            for t in transitions.iter() {
                assert_eq!(t.from(), i);
                assert!(t.to() < n);
            }
        }
    }
}

#[test]
fn states_are_deduplicated_by_value() {
    let m = build_grid();
    let states = m.states();
    for i in 0..states.len() {
        for j in (i + 1)..states.len() {
            assert!(states[i].x != states[j].x || states[i].y != states[j].y);
        }
    }
}

#[test]
fn rebuild_yields_identical_graph() {
    let m1 = build_chain();
    let m2 = build_chain();
    assert_eq!(m1.states().len(), m2.states().len());
    for i in 0..m1.states().len() {
        let g1 = m1.actions(i);
        let g2 = m2.actions(i);
        assert_eq!(g1.len(), g2.len());
        for g in 0..g1.len() {
            assert_eq!(g1[g].0.id(), g2[g].0.id());
            assert_eq!(g1[g].0.content_hash(), g2[g].0.content_hash());
            assert_eq!(g1[g].0.to_string(), g2[g].0.to_string());
            assert_eq!(g1[g].1.len(), g2[g].1.len());
            for k in 0..g1[g].1.len() {
                assert_eq!(g1[g].1[k].from(), g2[g].1[k].from());
                assert_eq!(g1[g].1[k].to(), g2[g].1[k].to());
                assert_eq!(g1[g].1[k].probability(), g2[g].1[k].probability());
                assert_eq!(g1[g].1[k].reward(), g2[g].1[k].reward());
            }
        }
    }
}

#[test]
fn gated_action_contributes_no_transitions() {
    let m = build_chain();
    let terminal = m.index_of(&ChainState::Terminal).expect("terminal state exists");
    assert_eq!(m.actions(terminal).len(), 0);
}

#[test]
fn chain_adjacency_groups_hold_declared_branches() {
    let m = build_chain();
    let groups = m.actions(0);
    assert_eq!(groups.len(), 1);
    assert_eq!(groups[0].0.to_string(), "play");
    assert_eq!(groups[0].0.id(), 0);
    let ts = &groups[0].1;
    assert_eq!(ts.len(), 2);
    assert_eq!(ts[0].probability(), 850_000);
    assert_eq!(ts[0].reward(), 5_000_000);
    assert_eq!(ts[0].to(), 0);
    assert_eq!(ts[1].probability(), 150_000);
    assert_eq!(ts[1].reward(), 0);
    assert_eq!(ts[1].to(), 1);
}

#[test]
fn grounding_expands_one_action_per_direction() {
    let m = build_grid();
    let groups = m.actions(0);
    assert_eq!(groups.len(), 4);
    let mut names: Vec<String> = groups.iter().map(|g| g.0.to_string()).collect();
    names.sort();
    assert_eq!(names, vec!["down", "left", "right", "up"]);
    for (action, transitions) in groups.iter() {
        assert_eq!(action.id(), 0);
        assert_eq!(transitions.len(), 3);
        let mass: i64 = transitions.iter().map(|t| t.probability()).sum();
        assert_eq!(mass, 1_000_000);
    }
}

#[test]
fn index_of_absent_state_is_none() {
    let m = build_grid();
    assert_eq!(m.index_of(&GridState { x: 9, y: 9 }), None);
}

#[test]
fn grid_never_exceeds_the_position_bound() {
    let m = build_grid();
    assert!(m.states().len() <= 16);
    assert_eq!(m.states().len(), 16);
}

#[test]
fn grounded_actions_share_id_but_differ_by_hash() {
    let m = build_grid();
    let groups = m.actions(0);
    let mut hashes: Vec<u64> = groups.iter().map(|g| g.0.content_hash()).collect();
    hashes.sort();
    hashes.dedup();
    assert_eq!(hashes.len(), 4);
}

#[test]
fn policy_wraps_given_selections() {
    let policy = mdp::policy::Policy::new(vec![None]);
    assert_eq!(policy.actions().len(), 1);
    assert!(policy.get_action(0).is_none());
}

#[test]
fn toggle_action_displays_its_name() {
    let m = build_toggle();
    let groups = m.actions(0);
    assert_eq!(groups.len(), 1);
    assert_eq!(groups[0].0.to_string(), "toggle");
    assert_eq!(groups[0].1.len(), 2);
    assert_eq!(groups[0].1[0].reward(), 1_000_000);
    assert_eq!(groups[0].1[0].probability(), 500_000);
    assert_eq!(groups[0].1[1].reward(), 0);
}

#[test]
fn bakery_reaches_exactly_the_legal_states() {
    let m = build_bakery();
    assert_eq!(m.states().len(), 6);
    // Once banned, a banked visit can never reappear.
    assert_eq!(
        m.index_of(&BakeryState { visits: 1, jammed: false, banned: true }),
        None
    );
    assert_eq!(
        m.index_of(&BakeryState { visits: 0, jammed: true, banned: true }).is_some(),
        true
    );
}

#[test]
fn registration_order_assigns_sequence_numbers() {
    let m = build_bakery();
    let groups = m.actions(0);
    // At the initial state the jammed-only action is gated off.
    assert_eq!(groups.len(), 3);
    let mut ids: Vec<usize> = groups.iter().map(|g| g.0.id()).collect();
    ids.sort();
    assert_eq!(ids, vec![0, 1, 2]);
    let names: Vec<String> = groups.iter().map(|g| g.0.to_string()).collect();
    assert!(names.contains(&"visit_bakery".to_string()));
    assert!(names.contains(&"rob".to_string()));
    assert!(names.contains(&"vending_machine".to_string()));
}
