//! A one-boolean problem: a single ungated action whose first branch flips
//! the boolean for reward 1 with probability 0.5 and whose second branch
//! changes nothing for reward 0 with probability 0.5.  When the flip touches
//! a field that takes part in state equality the graph has exactly two
//! states; the [`steady`] variant, whose state carries no fields, collapses
//! to a single self-looping state.

use crate::mdp::Mdp;
use crate::mdp::MdpBuilder;
use crate::model::ActionResult;
use crate::model::ActionType;
use crate::model::ActionView;
use crate::model::Outcome;
use crate::model::SingleActionBuilder;
use crate::model::State;
use crate::model::Ungated;
use vstd::prelude::*;

verus! {

/// The scenario's state: one boolean the action may flip.
pub struct ToggleState {
    pub on: bool,
}

impl State for ToggleState {
    open spec fn spec_hash(&self) -> u64 {
        if self.on {
            1
        } else {
            0
        }
    }

    fn eq_state(&self, other: &Self) -> (r: bool) {
        self.on == other.on
    }

    fn get_hash(&self) -> (r: u64) {
        if self.on {
            1
        } else {
            0
        }
    }
}

/// The toggle action's payload.
pub struct ToggleAction {}

impl ActionType for ToggleAction {
    open spec fn spec_hash(&self) -> u64 {
        0
    }

    open spec fn spec_name(&self) -> Seq<char> {
        "toggle"@
    }

    fn hash(&self) -> (r: u64) {
        0
    }

    fn to_string(&self) -> (r: String) {
        "toggle".to_owned()
    }
}

/// The toggle action's two outcome branches.
pub enum ToggleMove {
    Flip,
    Stay,
}

impl Outcome<ToggleState> for ToggleMove {
    open spec fn spec_apply(&self, s: ToggleState) -> ActionResult<ToggleState> {
        match self {
            ToggleMove::Flip => ActionResult {
                state: ToggleState { on: !s.on },
                probability: 500_000,
                reward: 1_000_000,
            },
            ToggleMove::Stay => ActionResult {
                state: ToggleState { on: s.on },
                probability: 500_000,
                reward: 0,
            },
        }
    }

    fn apply(&self, s: &ToggleState) -> (r: ActionResult<ToggleState>) {
        match self {
            ToggleMove::Flip => ActionResult {
                state: ToggleState { on: !s.on },
                probability: 500_000,
                reward: 1_000_000,
            },
            ToggleMove::Stay => ActionResult {
                state: ToggleState { on: s.on },
                probability: 500_000,
                reward: 0,
            },
        }
    }
}

/// The toggle problem's initial state.
pub open spec fn toggle_initial() -> ToggleState {
    ToggleState { on: false }
}

/// The toggle problem's declared action set.
pub open spec fn toggle_actions() -> Seq<ActionView<Ungated, ToggleMove>> {
    seq![
        ActionView {
            id: 0,
            hash: 0,
            name: "toggle"@,
            preconditions: Seq::empty(),
            outcomes: seq![ToggleMove::Flip, ToggleMove::Stay],
        },
    ]
}

/// Both states the toggle problem can ever reach.
pub open spec fn toggle_domain() -> Set<ToggleState> {
    Set::empty().insert(ToggleState { on: false }).insert(ToggleState { on: true })
}

/// Builds the toggle problem's frozen graph: the flip changes an
/// equality-relevant field, so exploration finds exactly the two states.
pub fn build_toggle() -> (r: Mdp<ToggleState>)
    ensures
        r@.is_built_from(toggle_initial(), toggle_actions()),
        r@.wf(),
        r@.states.len() == 2,
        r@.states[0] == toggle_initial(),
        r@.states[1] == (ToggleState { on: true }),
{
    let action = SingleActionBuilder::<ToggleState, ToggleAction, Ungated, ToggleMove>::new(
        ToggleAction {},
    ).outcome(ToggleMove::Flip).outcome(ToggleMove::Stay);
    let builder = MdpBuilder::new(ToggleState { on: false }).add_action(action);
    proof {
        assert(builder@.actions =~~= toggle_actions());
        assert(forall|s: ToggleState| true ==> toggle_domain().contains(s)) by {
            assert forall|s: ToggleState| toggle_domain().contains(s) by {
                if s.on {
                    assert(s == ToggleState { on: true });
                } else {
                    assert(s == ToggleState { on: false });
                }
            }
        }
        crate::mdp::lemma_finite_domain_explores(
            toggle_initial(),
            toggle_actions(),
            |s: ToggleState| true,
            toggle_domain(),
        );
        assert(toggle_domain().len() <= 2) by {
            assert(Set::empty().insert(ToggleState { on: false }).len() == 1);
        }
    }
    let m = builder.build();
    proof {
        crate::mdp::lemma_built_from_wf(m@, toggle_initial(), toggle_actions());
        crate::mdp::lemma_built_from_exact(m@, toggle_initial(), toggle_actions());
        // The flip's successor is itself a state, so both states are there.
        let av = toggle_actions();
        let on_state = ToggleState { on: true };
        assert(av[0].outcomes[0].spec_apply(m@.states[0]).state == on_state);
        assert(crate::model::preconds_hold(av[0].preconditions, m@.states[0]));
        assert(crate::mdp::first_index_of(m@.states, on_state) >= 0);
        crate::mdp::lemma_first_index_of(m@.states, on_state);
        let j = crate::mdp::first_index_of(m@.states, on_state);
        assert(m@.states[j] == on_state);
        assert(j != 0);
        assert(m@.states.len() == 2);
        assert(m@.states[1] == on_state);
    }
    m
}


/// The steady variant's state: no fields take part in equality, so the flip
/// cannot create a second state.
pub struct SteadyState {}

impl State for SteadyState {
    open spec fn spec_hash(&self) -> u64 {
        0
    }

    fn eq_state(&self, other: &Self) -> (r: bool) {
        true
    }

    fn get_hash(&self) -> (r: u64) {
        0
    }
}

/// The steady variant's two outcome branches: same probabilities and
/// rewards as the toggle, but nothing to flip.
pub enum SteadyMove {
    Flip,
    Stay,
}

impl Outcome<SteadyState> for SteadyMove {
    open spec fn spec_apply(&self, s: SteadyState) -> ActionResult<SteadyState> {
        match self {
            SteadyMove::Flip => ActionResult {
                state: SteadyState {  },
                probability: 500_000,
                reward: 1_000_000,
            },
            SteadyMove::Stay => ActionResult { state: SteadyState {  }, probability: 500_000, reward: 0 },
        }
    }

    fn apply(&self, s: &SteadyState) -> (r: ActionResult<SteadyState>) {
        match self {
            SteadyMove::Flip => ActionResult {
                state: SteadyState {  },
                probability: 500_000,
                reward: 1_000_000,
            },
            SteadyMove::Stay => ActionResult { state: SteadyState {  }, probability: 500_000, reward: 0 },
        }
    }
}

/// The steady variant's declared action set.
pub open spec fn steady_actions() -> Seq<ActionView<Ungated, SteadyMove>> {
    seq![
        ActionView {
            id: 0,
            hash: 0,
            name: "toggle"@,
            preconditions: Seq::empty(),
            outcomes: seq![SteadyMove::Flip, SteadyMove::Stay],
        },
    ]
}

/// Builds the steady variant: the flip changes no equality-relevant field,
/// so exploration finds exactly one state, with a self-loop.
pub fn build_steady() -> (r: Mdp<SteadyState>)
    ensures
        r@.is_built_from(SteadyState {  }, steady_actions()),
        r@.wf(),
        r@.states.len() == 1,
{
    let action = SingleActionBuilder::<SteadyState, ToggleAction, Ungated, SteadyMove>::new(
        ToggleAction {},
    ).outcome(SteadyMove::Flip).outcome(SteadyMove::Stay);
    let builder = MdpBuilder::new(SteadyState {  }).add_action(action);
    proof {
        assert(builder@.actions =~~= steady_actions());
        let dom = Set::empty().insert(SteadyState {  });
        assert(forall|s: SteadyState| dom.contains(s)) by {
            assert forall|s: SteadyState| dom.contains(s) by {
                assert(s == SteadyState {  });
            }
        }
        crate::mdp::lemma_finite_domain_explores(
            SteadyState {  },
            steady_actions(),
            |s: SteadyState| true,
            dom,
        );
    }
    let m = builder.build();
    proof {
        crate::mdp::lemma_built_from_wf(m@, SteadyState {  }, steady_actions());
    }
    m
}

} // verus!
