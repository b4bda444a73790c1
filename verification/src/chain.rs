//! A two-state gambling problem with a closed-form optimum: from the active
//! state one gated action either pays reward 5 and loops (probability 0.85)
//! or pays nothing and moves to an absorbing terminal state (probability
//! 0.15).  The converged value V of the active state satisfies
//! `V = 0.85 * (5 + discount * V)` up to fixed-point rounding, and the
//! terminal state keeps value 0.

use crate::fixed::abs_i;
use crate::mdp::Mdp;
use crate::mdp::MdpBuilder;
use crate::policy::Policy;
use crate::solver::ValueIterationSolver;
use crate::solver::best_q;
use crate::solver::copy_values;
use crate::solver::lemma_bellman_residual;
use crate::solver::lemma_built_model_bounded;
use crate::solver::model_bounded;
use crate::solver::outcome_mass_bounded;
use crate::solver::outcomes_bounded;
use crate::solver::results_prob_sum;
use crate::solver::spec_policy_entry;
use crate::solver::val_views;
use crate::solver::vals_bounded;
use crate::model::ActionResult;
use crate::model::ActionType;
use crate::model::ActionView;
use crate::model::Outcome;
use crate::model::Precondition;
use crate::model::SingleActionBuilder;
use crate::model::State;
use vstd::prelude::*;

verus! {

/// The scenario's state: still playing, or out.
pub enum ChainState {
    Active,
    Terminal,
}

impl State for ChainState {
    open spec fn spec_hash(&self) -> u64 {
        match self {
            ChainState::Active => 0,
            ChainState::Terminal => 1,
        }
    }

    fn eq_state(&self, other: &Self) -> (r: bool) {
        match (self, other) {
            (ChainState::Active, ChainState::Active) => true,
            (ChainState::Terminal, ChainState::Terminal) => true,
            _ => false,
        }
    }

    fn get_hash(&self) -> (r: u64) {
        match self {
            ChainState::Active => 0,
            ChainState::Terminal => 1,
        }
    }
}

/// The gamble's payload.
pub struct PlayAction {}

impl ActionType for PlayAction {
    open spec fn spec_hash(&self) -> u64 {
        0
    }

    open spec fn spec_name(&self) -> Seq<char> {
        "play"@
    }

    fn hash(&self) -> (r: u64) {
        0
    }

    fn to_string(&self) -> (r: String) {
        "play".to_owned()
    }
}

/// The gamble's gating predicate: only the active state may play.
pub enum ChainCheck {
    IsActive,
}

impl Precondition<ChainState> for ChainCheck {
    open spec fn spec_holds(&self, s: ChainState) -> bool {
        s is Active
    }

    fn holds(&self, s: &ChainState) -> (r: bool) {
        match s {
            ChainState::Active => true,
            ChainState::Terminal => false,
        }
    }
}

/// The gamble's two outcome branches.
pub enum ChainMove {
    Win,
    Bust,
}

impl Outcome<ChainState> for ChainMove {
    open spec fn spec_apply(&self, s: ChainState) -> ActionResult<ChainState> {
        match self {
            ChainMove::Win => ActionResult {
                state: ChainState::Active,
                probability: 850_000,
                reward: 5_000_000,
            },
            ChainMove::Bust => ActionResult {
                state: ChainState::Terminal,
                probability: 150_000,
                reward: 0,
            },
        }
    }

    fn apply(&self, s: &ChainState) -> (r: ActionResult<ChainState>) {
        match self {
            ChainMove::Win => ActionResult {
                state: ChainState::Active,
                probability: 850_000,
                reward: 5_000_000,
            },
            ChainMove::Bust => ActionResult {
                state: ChainState::Terminal,
                probability: 150_000,
                reward: 0,
            },
        }
    }
}

/// The gamble's declared action set.
pub open spec fn chain_actions() -> Seq<ActionView<ChainCheck, ChainMove>> {
    seq![
        ActionView {
            id: 0,
            hash: 0,
            name: "play"@,
            preconditions: seq![ChainCheck::IsActive],
            outcomes: seq![ChainMove::Win, ChainMove::Bust],
        },
    ]
}

/// Builds the gamble's frozen graph: the active state at index 0 and the
/// terminal state as the only other state.
pub fn build_chain() -> (r: Mdp<ChainState>)
    ensures
        r@.is_built_from(ChainState::Active, chain_actions()),
        r@.wf(),
        r@.states.len() == 2,
        r@.states[0] == ChainState::Active,
        r@.states[1] == ChainState::Terminal,
{
    let action = SingleActionBuilder::<ChainState, PlayAction, ChainCheck, ChainMove>::new(
        PlayAction {},
    ).precondition(ChainCheck::IsActive).outcome(ChainMove::Win).outcome(ChainMove::Bust);
    let builder = MdpBuilder::new(ChainState::Active).add_action(action);
    proof {
        assert(builder@.actions =~~= chain_actions());
        let dom = Set::empty().insert(ChainState::Active).insert(ChainState::Terminal);
        assert(forall|s: ChainState| dom.contains(s)) by {
            assert forall|s: ChainState| dom.contains(s) by {
                match s {
                    ChainState::Active => assert(s == ChainState::Active),
                    ChainState::Terminal => assert(s == ChainState::Terminal),
                }
            }
        }
        crate::mdp::lemma_finite_domain_explores(
            ChainState::Active,
            chain_actions(),
            |s: ChainState| true,
            dom,
        );
        assert(dom.len() <= 2) by {
            assert(Set::empty().insert(ChainState::Active).len() == 1);
        }
    }
    let m = builder.build();
    proof {
        crate::mdp::lemma_built_from_wf(m@, ChainState::Active, chain_actions());
        crate::mdp::lemma_built_from_exact(m@, ChainState::Active, chain_actions());
        // Going bust leads to the terminal state, so it is in the graph too.
        let av = chain_actions();
        assert(av[0].outcomes[1].spec_apply(m@.states[0]).state == ChainState::Terminal);
        assert(crate::model::preconds_hold(av[0].preconditions, m@.states[0])) by {
            assert(av[0].preconditions[0].spec_holds(ChainState::Active));
        }
        assert(crate::mdp::first_index_of(m@.states, ChainState::Terminal) >= 0);
        crate::mdp::lemma_first_index_of(m@.states, ChainState::Terminal);
        let j = crate::mdp::first_index_of(m@.states, ChainState::Terminal);
        assert(m@.states[j] == ChainState::Terminal);
        assert(j != 0);
        assert(m@.states.len() == 2);
        assert(m@.states[1] == ChainState::Terminal);
    }
    m
}


/// The gamble's declared branches are bounded and their probabilities sum
/// to one unit, at every state: the frozen graph meets the solver's
/// arithmetic bounds outright.
pub proof fn lemma_chain_model_bounded(m: crate::mdp::MdpView<ChainState>)
    requires
        m.is_built_from(ChainState::Active, chain_actions()),
    ensures
        model_bounded(m.groups),
{
    let av = chain_actions();
    assert(outcomes_bounded(av)) by {
        assert forall|k: int, b: int, s: ChainState|
            0 <= k < av.len() && 0 <= b < av[k].outcomes.len() implies {
            let res = (#[trigger] av[k].outcomes[b].spec_apply(s));
            0 <= res.probability <= crate::fixed::SCALE && abs_i(res.reward as int)
                <= crate::fixed::REWARD_MAX as int
        } by {
            assert(av[0].outcomes == seq![ChainMove::Win, ChainMove::Bust]);
            if b == 0 {
                assert(av[k].outcomes[b] == ChainMove::Win);
            } else {
                assert(av[k].outcomes[b] == ChainMove::Bust);
            }
        }
    }
    assert(outcome_mass_bounded(av)) by {
        assert forall|k: int, s: ChainState| 0 <= k < av.len() implies results_prob_sum(
            #[trigger] crate::model::branch_results(av[k].outcomes, s),
        ) <= crate::fixed::SCALE as int by {
            let rs = crate::model::branch_results(av[k].outcomes, s);
            assert(rs.len() == 2);
            assert(rs[0] == ChainMove::Win.spec_apply(s));
            assert(rs[1] == ChainMove::Bust.spec_apply(s));
            assert(rs.drop_last() =~= seq![rs[0]]);
            assert(seq![rs[0]].drop_last() =~= Seq::<crate::model::ActionResult<
                ChainState,
            >>::empty());
            assert(results_prob_sum(Seq::<crate::model::ActionResult<ChainState>>::empty()) == 0);
            assert(results_prob_sum(seq![rs[0]]) == rs[0].probability);
            assert(results_prob_sum(rs) == rs[0].probability + rs[1].probability);
        }
    }
    lemma_built_model_bounded(m, ChainState::Active, av);
}

/// Builds the gamble, solves it with discount 0.9 and tolerance 1e-4, and
/// extracts the policy.  The returned values satisfy the Bellman optimality
/// equation within the tolerance and the policy selects a maximizing action
/// at every state.
pub fn chain_optimal() -> (r: (Mdp<ChainState>, Vec<i64>, Policy))
    ensures
        r.0@.is_built_from(ChainState::Active, chain_actions()),
        r.0@.wf(),
        model_bounded(r.0@.groups),
        r.1@.len() == r.0@.states.len(),
        vals_bounded(val_views(r.1@)),
        r.2@.len() == r.0@.states.len(),
        forall|i: int|
            0 <= i < r.2@.len() ==> r.2@[i] == spec_policy_entry(
                r.0@.groups[i],
                val_views(r.1@),
                900_000,
            ),
        forall|i: int|
            0 <= i < r.1@.len() ==> abs_i(
                r.1@[i] - best_q(#[trigger] r.0@.groups[i], val_views(r.1@), 900_000),
            ) < 100,
{
    let m = build_chain();
    proof {
        lemma_chain_model_bounded(m@);
    }
    let mut solver = ValueIterationSolver::new(&m, 900_000, 100);
    solver.solve();
    let vals = copy_values(solver.values());
    let pol = solver.get_policy();
    proof {
        lemma_bellman_residual(
            m@.groups,
            val_views(solver@.values),
            val_views(solver@.old_values),
            900_000,
            100,
        );
    }
    (m, vals, pol)
}

} // verus!
