//! A bounded grid-walk problem built from one grounding action family: a
//! movement template expanded over the four compass directions, each ground
//! action having a dominant outcome in its own direction and two orthogonal
//! drift outcomes.  Movement clamps at the edges, so however movement is
//! ordered, exploration can never find more than `GRID_SIZE * GRID_SIZE`
//! states.

use crate::mdp::Mdp;
use crate::mdp::MdpBuilder;
use crate::model::ActionResult;
use crate::model::ActionType;
use crate::model::ActionView;
use crate::model::GrounableAction;
use crate::model::Ground;
use crate::model::GroundingActionBuilder;
use crate::model::Outcome;
use crate::model::State;
use crate::model::Ungated;
use crate::model::UngatedTemplate;
use vstd::prelude::*;

verus! {

/// The grid's side length.
pub const GRID_SIZE: u8 = 4;

/// A position on the grid.
pub struct GridState {
    pub x: u8,
    pub y: u8,
}

impl State for GridState {
    open spec fn spec_hash(&self) -> u64 {
        ((self.x as int) * 256 + (self.y as int)) as u64
    }

    fn eq_state(&self, other: &Self) -> (r: bool) {
        self.x == other.x && self.y == other.y
    }

    fn get_hash(&self) -> (r: u64) {
        (self.x as u64) * 256 + (self.y as u64)
    }
}

/// A position lies on the grid.
pub open spec fn on_grid(s: GridState) -> bool {
    s.x < GRID_SIZE && s.y < GRID_SIZE
}

/// The four compass directions: the movement family's parameter domain.
#[derive(Clone, Copy)]
pub enum Dir {
    Up,
    Down,
    Left,
    Right,
}

impl ActionType for Dir {
    open spec fn spec_hash(&self) -> u64 {
        match self {
            Dir::Up => 0,
            Dir::Down => 1,
            Dir::Left => 2,
            Dir::Right => 3,
        }
    }

    open spec fn spec_name(&self) -> Seq<char> {
        match self {
            Dir::Up => "up"@,
            Dir::Down => "down"@,
            Dir::Left => "left"@,
            Dir::Right => "right"@,
        }
    }

    fn hash(&self) -> (r: u64) {
        match self {
            Dir::Up => 0,
            Dir::Down => 1,
            Dir::Left => 2,
            Dir::Right => 3,
        }
    }

    fn to_string(&self) -> (r: String) {
        match self {
            Dir::Up => "up".to_owned(),
            Dir::Down => "down".to_owned(),
            Dir::Left => "left".to_owned(),
            Dir::Right => "right".to_owned(),
        }
    }
}

impl GrounableAction for Dir {
    open spec fn spec_enumerate() -> Seq<Dir> {
        seq![Dir::Up, Dir::Down, Dir::Left, Dir::Right]
    }

    fn enumerate() -> (r: Vec<Dir>) {
        let mut r: Vec<Dir> = Vec::new();
        r.push(Dir::Up);
        r.push(Dir::Down);
        r.push(Dir::Left);
        r.push(Dir::Right);
        proof {
            assert(r@ =~= Dir::spec_enumerate());
        }
        r
    }
}

/// One step in a direction, clamped at the grid's edge.
pub open spec fn spec_step(s: GridState, d: Dir) -> GridState {
    match d {
        Dir::Up => if s.y + 1 < GRID_SIZE {
            GridState { x: s.x, y: (s.y + 1) as u8 }
        } else {
            GridState { x: s.x, y: s.y }
        },
        Dir::Down => if s.y >= 1 {
            GridState { x: s.x, y: (s.y - 1) as u8 }
        } else {
            GridState { x: s.x, y: s.y }
        },
        Dir::Left => if s.x >= 1 {
            GridState { x: (s.x - 1) as u8, y: s.y }
        } else {
            GridState { x: s.x, y: s.y }
        },
        Dir::Right => if s.x + 1 < GRID_SIZE {
            GridState { x: (s.x + 1) as u8, y: s.y }
        } else {
            GridState { x: s.x, y: s.y }
        },
    }
}

/// Clamped movement never leaves the grid.
pub proof fn lemma_step_on_grid(s: GridState, d: Dir)
    requires
        on_grid(s),
    ensures
        on_grid(spec_step(s, d)),
{
}

fn step(s: &GridState, d: &Dir) -> (r: GridState)
    ensures
        r == spec_step(*s, *d),
{
    match d {
        Dir::Up => if s.y < GRID_SIZE - 1 {
            GridState { x: s.x, y: s.y + 1 }
        } else {
            GridState { x: s.x, y: s.y }
        },
        Dir::Down => if s.y >= 1 {
            GridState { x: s.x, y: s.y - 1 }
        } else {
            GridState { x: s.x, y: s.y }
        },
        Dir::Left => if s.x >= 1 {
            GridState { x: s.x - 1, y: s.y }
        } else {
            GridState { x: s.x, y: s.y }
        },
        Dir::Right => if s.x < GRID_SIZE - 1 {
            GridState { x: s.x + 1, y: s.y }
        } else {
            GridState { x: s.x, y: s.y }
        },
    }
}

/// How one outcome of a ground movement action deviates from its action's
/// own direction.
#[derive(Clone, Copy)]
pub enum MoveKind {
    Dominant,
    DriftA,
    DriftB,
}

/// The direction an outcome actually moves in: the action's own, or one of
/// the two orthogonal drifts.
pub open spec fn spec_outcome_dir(d: Dir, kind: MoveKind) -> Dir {
    match kind {
        MoveKind::Dominant => d,
        MoveKind::DriftA => match d {
            Dir::Up => Dir::Left,
            Dir::Down => Dir::Right,
            Dir::Left => Dir::Down,
            Dir::Right => Dir::Up,
        },
        MoveKind::DriftB => match d {
            Dir::Up => Dir::Right,
            Dir::Down => Dir::Left,
            Dir::Left => Dir::Up,
            Dir::Right => Dir::Down,
        },
    }
}

fn outcome_dir(d: &Dir, kind: &MoveKind) -> (r: Dir)
    ensures
        r == spec_outcome_dir(*d, *kind),
{
    match kind {
        MoveKind::Dominant => *d,
        MoveKind::DriftA => match d {
            Dir::Up => Dir::Left,
            Dir::Down => Dir::Right,
            Dir::Left => Dir::Down,
            Dir::Right => Dir::Up,
        },
        MoveKind::DriftB => match d {
            Dir::Up => Dir::Right,
            Dir::Down => Dir::Left,
            Dir::Left => Dir::Up,
            Dir::Right => Dir::Down,
        },
    }
}

/// One ground outcome: a direction's dominant move or one of its drifts.
#[derive(Clone, Copy)]
pub struct GridMove {
    pub dir: Dir,
    pub kind: MoveKind,
}

/// The probability of one outcome: 0.8 dominant, 0.1 per drift.
pub open spec fn spec_move_probability(kind: MoveKind) -> i64 {
    match kind {
        MoveKind::Dominant => 800_000,
        MoveKind::DriftA => 100_000,
        MoveKind::DriftB => 100_000,
    }
}

/// The reward of arriving somewhere: 1 at the far corner, else 0.
pub open spec fn spec_move_reward(target: GridState) -> i64 {
    if target.x == GRID_SIZE - 1 && target.y == GRID_SIZE - 1 {
        1_000_000
    } else {
        0
    }
}

impl Outcome<GridState> for GridMove {
    open spec fn spec_apply(&self, s: GridState) -> ActionResult<GridState> {
        let target = spec_step(s, spec_outcome_dir(self.dir, self.kind));
        ActionResult {
            state: target,
            probability: spec_move_probability(self.kind),
            reward: spec_move_reward(target),
        }
    }

    fn apply(&self, s: &GridState) -> (r: ActionResult<GridState>) {
        let target = step(s, &outcome_dir(&self.dir, &self.kind));
        let probability: i64 = match self.kind {
            MoveKind::Dominant => 800_000,
            MoveKind::DriftA => 100_000,
            MoveKind::DriftB => 100_000,
        };
        let reward: i64 = if target.x == GRID_SIZE - 1 && target.y == GRID_SIZE - 1 {
            1_000_000
        } else {
            0
        };
        ActionResult { state: target, probability, reward }
    }
}

/// The movement family's outcome templates.
#[derive(Clone, Copy)]
pub enum GridTemplate {
    Dominant,
    DriftA,
    DriftB,
}

impl Ground<Dir, GridMove> for GridTemplate {
    open spec fn spec_ground(&self, instance: Dir) -> GridMove {
        match self {
            GridTemplate::Dominant => GridMove { dir: instance, kind: MoveKind::Dominant },
            GridTemplate::DriftA => GridMove { dir: instance, kind: MoveKind::DriftA },
            GridTemplate::DriftB => GridMove { dir: instance, kind: MoveKind::DriftB },
        }
    }

    fn ground(&self, instance: &Dir) -> (r: GridMove) {
        match self {
            GridTemplate::Dominant => GridMove { dir: *instance, kind: MoveKind::Dominant },
            GridTemplate::DriftA => GridMove { dir: *instance, kind: MoveKind::DriftA },
            GridTemplate::DriftB => GridMove { dir: *instance, kind: MoveKind::DriftB },
        }
    }
}

/// The view of the one ground action for direction `d`.
pub open spec fn grid_action_view(d: Dir) -> ActionView<Ungated, GridMove> {
    ActionView {
        id: 0,
        hash: d.spec_hash() as int,
        name: d.spec_name(),
        preconditions: Seq::empty(),
        outcomes: seq![
            GridMove { dir: d, kind: MoveKind::Dominant },
            GridMove { dir: d, kind: MoveKind::DriftA },
            GridMove { dir: d, kind: MoveKind::DriftB },
        ],
    }
}

/// The movement family, ground: one action per direction, all sharing one
/// sequence number.
pub open spec fn grid_actions() -> Seq<ActionView<Ungated, GridMove>> {
    seq![
        grid_action_view(Dir::Up),
        grid_action_view(Dir::Down),
        grid_action_view(Dir::Left),
        grid_action_view(Dir::Right),
    ]
}

/// All positions of the grid.
pub open spec fn grid_domain() -> Set<GridState> {
    Set::new(|s: GridState| on_grid(s))
}

/// The grid's positions form a finite set of at most
/// `GRID_SIZE * GRID_SIZE` states.
pub proof fn lemma_grid_domain_finite()
    ensures
        grid_domain().finite(),
        grid_domain().len() <= 16,
{
    let explicit = Set::empty().insert(GridState { x: 0, y: 0 }).insert(
        GridState { x: 0, y: 1 },
    ).insert(GridState { x: 0, y: 2 }).insert(GridState { x: 0, y: 3 }).insert(
        GridState { x: 1, y: 0 },
    ).insert(GridState { x: 1, y: 1 }).insert(GridState { x: 1, y: 2 }).insert(
        GridState { x: 1, y: 3 },
    ).insert(GridState { x: 2, y: 0 }).insert(GridState { x: 2, y: 1 }).insert(
        GridState { x: 2, y: 2 },
    ).insert(GridState { x: 2, y: 3 }).insert(GridState { x: 3, y: 0 }).insert(
        GridState { x: 3, y: 1 },
    ).insert(GridState { x: 3, y: 2 }).insert(GridState { x: 3, y: 3 });
    assert(grid_domain() =~= explicit);
    assert(explicit.len() <= 16);
}

/// Builds the grid problem's frozen graph.  However the clamped moves
/// interleave, exploration never finds more than `GRID_SIZE * GRID_SIZE`
/// states.
pub fn build_grid() -> (r: Mdp<GridState>)
    ensures
        r@.is_built_from(GridState { x: 0, y: 0 }, grid_actions()),
        r@.wf(),
        r@.states[0] == (GridState { x: 0, y: 0 }),
        r@.states.len() <= 16,
        forall|i: int| 0 <= i < r@.states.len() ==> on_grid(#[trigger] r@.states[i]),
{
    let family = GroundingActionBuilder::<
        GridState,
        Dir,
        UngatedTemplate,
        GridTemplate,
        Ungated,
        GridMove,
    >::new().outcome(GridTemplate::Dominant).outcome(GridTemplate::DriftA).outcome(
        GridTemplate::DriftB,
    );
    let builder = MdpBuilder::new(GridState { x: 0, y: 0 }).add_action(family);
    proof {
        assert(builder@.actions =~~= grid_actions());
        lemma_grid_domain_finite();
        assert forall|g: GridMove, s2: GridState| on_grid(s2) implies on_grid(
            g.spec_apply(s2).state,
        ) by {
            lemma_step_on_grid(s2, spec_outcome_dir(g.dir, g.kind));
        }
        assert(crate::mdp::preserves_inv(grid_actions(), |s: GridState| on_grid(s)));
        crate::mdp::lemma_finite_domain_explores(
            GridState { x: 0, y: 0 },
            grid_actions(),
            |s: GridState| on_grid(s),
            grid_domain(),
        );
    }
    let m = builder.build();
    proof {
        crate::mdp::lemma_built_from_wf(m@, GridState { x: 0, y: 0 }, grid_actions());
    }
    m
}

} // verus!
