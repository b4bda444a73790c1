//! A small four-action errand problem, used as the demonstration client: a
//! pastry shop to visit, a robbery to attempt, a vending machine that can
//! jam, and waiting for it to be cleared.  It exercises several actions
//! registered in order — each getting its own sequence number — with
//! distinct gating predicates.

use crate::mdp::Mdp;
use crate::mdp::MdpBuilder;
use crate::model::ActionResult;
use crate::model::ActionType;
use crate::model::ActionView;
use crate::model::Outcome;
use crate::model::Precondition;
use crate::model::SingleActionBuilder;
use crate::model::State;
use vstd::prelude::*;

verus! {

/// The errand state: how many visits are banked (0 or 1), whether the
/// vending machine is jammed, and whether the shop has banned us.
pub struct BakeryState {
    pub visits: u8,
    pub jammed: bool,
    pub banned: bool,
}

/// The visit counter only ever holds 0 or 1.
pub open spec fn bakery_inv(s: BakeryState) -> bool {
    s.visits <= 1
}

impl State for BakeryState {
    open spec fn spec_hash(&self) -> u64 {
        ((self.visits as int) * 4 + (if self.jammed {
            2int
        } else {
            0int
        }) + (if self.banned {
            1int
        } else {
            0int
        })) as u64
    }

    fn eq_state(&self, other: &Self) -> (r: bool) {
        self.visits == other.visits && self.jammed == other.jammed && self.banned == other.banned
    }

    fn get_hash(&self) -> (r: u64) {
        (self.visits as u64) * 4 + (if self.jammed {
            2
        } else {
            0
        }) + (if self.banned {
            1
        } else {
            0
        })
    }
}

/// The four actions' payloads.
pub enum BakeryAction {
    VisitBakery,
    Rob,
    VendingMachine,
    Wait,
}

impl ActionType for BakeryAction {
    open spec fn spec_hash(&self) -> u64 {
        match self {
            BakeryAction::VisitBakery => 0,
            BakeryAction::Rob => 1,
            BakeryAction::VendingMachine => 2,
            BakeryAction::Wait => 3,
        }
    }

    open spec fn spec_name(&self) -> Seq<char> {
        match self {
            BakeryAction::VisitBakery => "visit_bakery"@,
            BakeryAction::Rob => "rob"@,
            BakeryAction::VendingMachine => "vending_machine"@,
            BakeryAction::Wait => "wait"@,
        }
    }

    fn hash(&self) -> (r: u64) {
        match self {
            BakeryAction::VisitBakery => 0,
            BakeryAction::Rob => 1,
            BakeryAction::VendingMachine => 2,
            BakeryAction::Wait => 3,
        }
    }

    fn to_string(&self) -> (r: String) {
        match self {
            BakeryAction::VisitBakery => "visit_bakery".to_owned(),
            BakeryAction::Rob => "rob".to_owned(),
            BakeryAction::VendingMachine => "vending_machine".to_owned(),
            BakeryAction::Wait => "wait".to_owned(),
        }
    }
}

/// The gating predicates the four actions use.
pub enum BakeryCheck {
    NotBanned,
    NotJammed,
    Jammed,
}

impl Precondition<BakeryState> for BakeryCheck {
    open spec fn spec_holds(&self, s: BakeryState) -> bool {
        match self {
            BakeryCheck::NotBanned => !s.banned,
            BakeryCheck::NotJammed => !s.jammed,
            BakeryCheck::Jammed => s.jammed,
        }
    }

    fn holds(&self, s: &BakeryState) -> (r: bool) {
        match self {
            BakeryCheck::NotBanned => !s.banned,
            BakeryCheck::NotJammed => !s.jammed,
            BakeryCheck::Jammed => s.jammed,
        }
    }
}

/// The outcome branches of the four actions.
pub enum BakeryMove {
    Visit,
    RobWin,
    RobBust,
    Vend,
    VendJam,
    Unjam,
}

impl Outcome<BakeryState> for BakeryMove {
    open spec fn spec_apply(&self, s: BakeryState) -> ActionResult<BakeryState> {
        match self {
            BakeryMove::Visit => if s.visits == 0 {
                ActionResult {
                    state: BakeryState { visits: 1, jammed: s.jammed, banned: s.banned },
                    probability: 1_000_000,
                    reward: 1_000_000,
                }
            } else {
                ActionResult {
                    state: BakeryState { visits: 0, jammed: s.jammed, banned: s.banned },
                    probability: 1_000_000,
                    reward: 4_000_000,
                }
            },
            BakeryMove::RobWin => ActionResult {
                state: BakeryState { visits: 1, jammed: s.jammed, banned: s.banned },
                probability: 850_000,
                reward: 5_000_000,
            },
            BakeryMove::RobBust => ActionResult {
                state: BakeryState { visits: 0, jammed: s.jammed, banned: true },
                probability: 150_000,
                reward: 0,
            },
            BakeryMove::Vend => ActionResult {
                state: BakeryState { visits: s.visits, jammed: s.jammed, banned: s.banned },
                probability: 500_000,
                reward: 1_000_000,
            },
            BakeryMove::VendJam => ActionResult {
                state: BakeryState { visits: s.visits, jammed: true, banned: s.banned },
                probability: 500_000,
                reward: 3_000_000,
            },
            BakeryMove::Unjam => ActionResult {
                state: BakeryState { visits: s.visits, jammed: false, banned: s.banned },
                probability: 1_000_000,
                reward: 0,
            },
        }
    }

    fn apply(&self, s: &BakeryState) -> (r: ActionResult<BakeryState>) {
        match self {
            BakeryMove::Visit => if s.visits == 0 {
                ActionResult {
                    state: BakeryState { visits: 1, jammed: s.jammed, banned: s.banned },
                    probability: 1_000_000,
                    reward: 1_000_000,
                }
            } else {
                ActionResult {
                    state: BakeryState { visits: 0, jammed: s.jammed, banned: s.banned },
                    probability: 1_000_000,
                    reward: 4_000_000,
                }
            },
            BakeryMove::RobWin => ActionResult {
                state: BakeryState { visits: 1, jammed: s.jammed, banned: s.banned },
                probability: 850_000,
                reward: 5_000_000,
            },
            BakeryMove::RobBust => ActionResult {
                state: BakeryState { visits: 0, jammed: s.jammed, banned: true },
                probability: 150_000,
                reward: 0,
            },
            BakeryMove::Vend => ActionResult {
                state: BakeryState { visits: s.visits, jammed: s.jammed, banned: s.banned },
                probability: 500_000,
                reward: 1_000_000,
            },
            BakeryMove::VendJam => ActionResult {
                state: BakeryState { visits: s.visits, jammed: true, banned: s.banned },
                probability: 500_000,
                reward: 3_000_000,
            },
            BakeryMove::Unjam => ActionResult {
                state: BakeryState { visits: s.visits, jammed: false, banned: s.banned },
                probability: 1_000_000,
                reward: 0,
            },
        }
    }
}

/// The errand problem's initial state: nothing banked, nothing jammed, not
/// banned.
pub open spec fn bakery_initial() -> BakeryState {
    BakeryState { visits: 0, jammed: false, banned: false }
}

/// The errand problem's declared action set, in registration order.
pub open spec fn bakery_actions() -> Seq<ActionView<BakeryCheck, BakeryMove>> {
    seq![
        ActionView {
            id: 0,
            hash: 0,
            name: "visit_bakery"@,
            preconditions: seq![BakeryCheck::NotBanned],
            outcomes: seq![BakeryMove::Visit],
        },
        ActionView {
            id: 1,
            hash: 1,
            name: "rob"@,
            preconditions: seq![BakeryCheck::NotBanned],
            outcomes: seq![BakeryMove::RobWin, BakeryMove::RobBust],
        },
        ActionView {
            id: 2,
            hash: 2,
            name: "vending_machine"@,
            preconditions: seq![BakeryCheck::NotJammed],
            outcomes: seq![BakeryMove::Vend, BakeryMove::VendJam],
        },
        ActionView {
            id: 3,
            hash: 3,
            name: "wait"@,
            preconditions: seq![BakeryCheck::Jammed],
            outcomes: seq![BakeryMove::Unjam],
        },
    ]
}

/// Every state the errand problem can hold.
pub open spec fn bakery_domain() -> Set<BakeryState> {
    Set::new(|s: BakeryState| bakery_inv(s))
}

/// The errand problem's states form a finite set of at most 8 values.
pub proof fn lemma_bakery_domain_finite()
    ensures
        bakery_domain().finite(),
        bakery_domain().len() <= 8,
{
    let explicit = Set::empty().insert(
        BakeryState { visits: 0, jammed: false, banned: false },
    ).insert(BakeryState { visits: 0, jammed: false, banned: true }).insert(
        BakeryState { visits: 0, jammed: true, banned: false },
    ).insert(BakeryState { visits: 0, jammed: true, banned: true }).insert(
        BakeryState { visits: 1, jammed: false, banned: false },
    ).insert(BakeryState { visits: 1, jammed: false, banned: true }).insert(
        BakeryState { visits: 1, jammed: true, banned: false },
    ).insert(BakeryState { visits: 1, jammed: true, banned: true });
    assert(bakery_domain() =~= explicit);
    assert(explicit.len() <= 8);
}

/// Builds the errand problem's frozen graph.
pub fn build_bakery() -> (r: Mdp<BakeryState>)
    ensures
        r@.is_built_from(bakery_initial(), bakery_actions()),
        r@.wf(),
        r@.states[0] == bakery_initial(),
        r@.states.len() <= 8,
{
    let visit = SingleActionBuilder::<BakeryState, BakeryAction, BakeryCheck, BakeryMove>::new(
        BakeryAction::VisitBakery,
    ).precondition(BakeryCheck::NotBanned).outcome(BakeryMove::Visit);
    let rob = SingleActionBuilder::<BakeryState, BakeryAction, BakeryCheck, BakeryMove>::new(
        BakeryAction::Rob,
    ).precondition(BakeryCheck::NotBanned).outcome(BakeryMove::RobWin).outcome(
        BakeryMove::RobBust,
    );
    let vend = SingleActionBuilder::<BakeryState, BakeryAction, BakeryCheck, BakeryMove>::new(
        BakeryAction::VendingMachine,
    ).precondition(BakeryCheck::NotJammed).outcome(BakeryMove::Vend).outcome(BakeryMove::VendJam);
    let wait = SingleActionBuilder::<BakeryState, BakeryAction, BakeryCheck, BakeryMove>::new(
        BakeryAction::Wait,
    ).precondition(BakeryCheck::Jammed).outcome(BakeryMove::Unjam);
    let builder = MdpBuilder::new(
        BakeryState { visits: 0, jammed: false, banned: false },
    ).add_action(visit).add_action(rob).add_action(vend).add_action(wait);
    proof {
        assert(builder@.actions =~~= bakery_actions());
        lemma_bakery_domain_finite();
        assert forall|g: BakeryMove, s2: BakeryState| bakery_inv(s2) implies bakery_inv(
            g.spec_apply(s2).state,
        ) by {}
        assert(crate::mdp::preserves_inv(bakery_actions(), |s: BakeryState| bakery_inv(s)));
        crate::mdp::lemma_finite_domain_explores(
            bakery_initial(),
            bakery_actions(),
            |s: BakeryState| bakery_inv(s),
            bakery_domain(),
        );
    }
    let m = builder.build();
    proof {
        crate::mdp::lemma_built_from_wf(m@, bakery_initial(), bakery_actions());
    }
    m
}

} // verus!
