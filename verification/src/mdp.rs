//! The frozen transition graph and the reachability search that builds it.
//!
//! Construction is a work-list search: the initial state gets index 0, and
//! states are popped (last discovered first) and expanded under every
//! registered action whose preconditions hold, deduplicating successor states
//! by value.  The whole search is mirrored by a step-indexed specification
//! function, [`build_iter`]: the constructor's postcondition says the frozen
//! graph equals the specification's fixed point, so two builds of the same
//! problem are provably identical.

use crate::model::Action;
use crate::model::ActionBox;
use crate::model::ActionBoxView;
use crate::model::ActionResult;
use crate::model::ActionView;
use crate::model::IActionBuilder;
use crate::model::Outcome;
use crate::model::Precondition;
use crate::model::State;
use crate::model::branch_results;
use crate::model::preconds_hold;
use vstd::prelude::*;

verus! {

/// A directed edge of the frozen graph: *(from-state, to-state, action
/// identity, probability, reward)*, probability and reward fixed-point.
pub struct Transition {
    from: usize,
    to: usize,
    probability: i64,
    reward: i64,
    action: ActionBox,
}

/// The mathematical content of a [`Transition`].
#[verifier::ext_equal]
pub ghost struct TransitionView {
    pub from: int,
    pub to: int,
    pub probability: int,
    pub reward: int,
    pub action: ActionBoxView,
}

impl View for Transition {
    type V = TransitionView;

    closed spec fn view(&self) -> TransitionView {
        TransitionView {
            from: self.from as int,
            to: self.to as int,
            probability: self.probability as int,
            reward: self.reward as int,
            action: self.action@,
        }
    }
}

impl Transition {
    /// The branch probability carried by this edge (fixed-point).
    pub fn probability(&self) -> (r: i64)
        ensures
            r as int == self@.probability,
    {
        self.probability
    }

    /// The reward carried by this edge (fixed-point).
    pub fn reward(&self) -> (r: i64)
        ensures
            r as int == self@.reward,
    {
        self.reward
    }

    /// The target state index.
    pub fn to(&self) -> (r: usize)
        ensures
            r as int == self@.to,
    {
        self.to
    }

    /// The source state index.
    pub fn from(&self) -> (r: usize)
        ensures
            r as int == self@.from,
    {
        self.from
    }

    /// The identity of the action this edge belongs to.
    pub fn action(&self) -> (r: ActionBox)
        ensures
            r@ == self@.action,
    {
        self.action.clone()
    }
}

impl Clone for Transition {
    fn clone(&self) -> (r: Self)
        ensures
            r@ == self@,
    {
        Transition {
            from: self.from,
            to: self.to,
            probability: self.probability,
            reward: self.reward,
            action: self.action.clone(),
        }
    }
}

/// The views of a sequence of transitions.
pub open spec fn trans_views(ts: Seq<Transition>) -> Seq<TransitionView> {
    ts.map_values(|t: Transition| t@)
}

/// One configuration of the reachability search: the states discovered so
/// far, the indices still to expand (a stack), and the edges recorded so far.
#[verifier::ext_equal]
pub ghost struct BuildCfg<S> {
    pub states: Seq<S>,
    pub work: Seq<int>,
    pub transitions: Seq<TransitionView>,
}

/// Index of the first state equal to `s`, or `-1` when none is.
pub open spec fn first_index_of<S>(states: Seq<S>, s: S) -> int
    decreases states.len(),
{
    if states.len() == 0 {
        -1
    } else if states[0] == s {
        0
    } else {
        let r = first_index_of(states.skip(1), s);
        if r < 0 {
            -1
        } else {
            r + 1
        }
    }
}

/// What `first_index_of` finds: the first equal state, if any equals `s`.
pub proof fn lemma_first_index_of<S>(states: Seq<S>, s: S)
    ensures
        first_index_of(states, s) == -1 ==> forall|j: int|
            0 <= j < states.len() ==> states[j] != s,
        first_index_of(states, s) >= 0 ==> {
            let r = first_index_of(states, s);
            &&& 0 <= r < states.len()
            &&& states[r] == s
            &&& forall|j: int| 0 <= j < r ==> states[j] != s
        },
    decreases states.len(),
{
    if states.len() > 0 && states[0] != s {
        let rest = states.skip(1);
        lemma_first_index_of(rest, s);
        let r1 = first_index_of(rest, s);
        if r1 == -1 {
            assert forall|j: int| 0 <= j < states.len() implies states[j] != s by {
                if j >= 1 {
                    assert(states[j] == rest[j - 1]);
                }
            }
        } else {
            assert(states[r1 + 1] == rest[r1]);
            assert forall|j: int| 0 <= j < r1 + 1 implies states[j] != s by {
                if j >= 1 {
                    assert(states[j] == rest[j - 1]);
                }
            }
        }
    }
}

/// `first_index_of` is pinned by the scan that found the first equal state.
pub proof fn lemma_first_index_of_is<S>(states: Seq<S>, s: S, k: int)
    requires
        0 <= k < states.len(),
        states[k] == s,
        forall|j: int| 0 <= j < k ==> states[j] != s,
    ensures
        first_index_of(states, s) == k,
    decreases k,
{
    if k > 0 {
        lemma_first_index_of_is(states.skip(1), s, k - 1);
    }
}

/// Records one outcome candidate: reuse the index of a state already known,
/// or append the successor as a new state and schedule it for expansion;
/// either way record one transition.
pub open spec fn record_result<S, P, O>(
    c: BuildCfg<S>,
    from: int,
    a: ActionView<P, O>,
    res: ActionResult<S>,
) -> BuildCfg<S> {
    let idx = first_index_of(c.states, res.state);
    let to = if idx >= 0 {
        idx
    } else {
        c.states.len() as int
    };
    let t = TransitionView {
        from,
        to,
        probability: res.probability as int,
        reward: res.reward as int,
        action: ActionBoxView { id: a.id, hash: a.hash, name: a.name },
    };
    if idx >= 0 {
        BuildCfg { states: c.states, work: c.work, transitions: c.transitions.push(t) }
    } else {
        BuildCfg {
            states: c.states.push(res.state),
            work: c.work.push(c.states.len() as int),
            transitions: c.transitions.push(t),
        }
    }
}

/// Records every candidate of one action, in branch order.
pub open spec fn record_results<S, P, O>(
    c: BuildCfg<S>,
    from: int,
    a: ActionView<P, O>,
    results: Seq<ActionResult<S>>,
) -> BuildCfg<S>
    decreases results.len(),
{
    if results.len() == 0 {
        c
    } else {
        record_results(record_result(c, from, a, results[0]), from, a, results.skip(1))
    }
}

/// Expands one action at one state: an action with an unsatisfied
/// precondition contributes nothing.
pub open spec fn apply_action<S, P: Precondition<S>, O: Outcome<S>>(
    c: BuildCfg<S>,
    from: int,
    s: S,
    a: ActionView<P, O>,
) -> BuildCfg<S> {
    if preconds_hold(a.preconditions, s) {
        record_results(c, from, a, branch_results(a.outcomes, s))
    } else {
        c
    }
}

/// Expands every registered action at one state, in declaration order.
pub open spec fn apply_actions<S, P: Precondition<S>, O: Outcome<S>>(
    c: BuildCfg<S>,
    from: int,
    s: S,
    actions: Seq<ActionView<P, O>>,
) -> BuildCfg<S>
    decreases actions.len(),
{
    if actions.len() == 0 {
        c
    } else {
        apply_actions(apply_action(c, from, s, actions[0]), from, s, actions.skip(1))
    }
}

/// One step of the search: pop the most recently discovered pending state
/// and expand it fully; a configuration with an empty stack is final.
pub open spec fn build_step<S, P: Precondition<S>, O: Outcome<S>>(
    c: BuildCfg<S>,
    actions: Seq<ActionView<P, O>>,
) -> BuildCfg<S> {
    if c.work.len() == 0 {
        c
    } else {
        let i = c.work.last();
        let popped = BuildCfg { states: c.states, work: c.work.drop_last(), transitions: c.transitions };
        apply_actions(popped, i, c.states[i], actions)
    }
}

/// The search configuration `n` steps after `c`.
pub open spec fn iter_from<S, P: Precondition<S>, O: Outcome<S>>(
    c: BuildCfg<S>,
    actions: Seq<ActionView<P, O>>,
    n: nat,
) -> BuildCfg<S>
    decreases n,
{
    if n == 0 {
        c
    } else {
        iter_from(build_step(c, actions), actions, (n - 1) as nat)
    }
}

/// The search's starting configuration: the initial state at index 0,
/// scheduled for expansion.
pub open spec fn init_cfg<S>(initial: S) -> BuildCfg<S> {
    BuildCfg {
        states: Seq::empty().push(initial),
        work: Seq::<int>::empty().push(0),
        transitions: Seq::empty(),
    }
}

/// The search configuration `n` steps into exploring `initial` under
/// `actions`.
pub open spec fn build_iter<S, P: Precondition<S>, O: Outcome<S>>(
    initial: S,
    actions: Seq<ActionView<P, O>>,
    n: nat,
) -> BuildCfg<S> {
    iter_from(init_cfg(initial), actions, n)
}

/// Stepping distributes over a split step count.
pub proof fn lemma_iter_from_add<S, P: Precondition<S>, O: Outcome<S>>(
    c: BuildCfg<S>,
    actions: Seq<ActionView<P, O>>,
    m: nat,
    n: nat,
)
    ensures
        iter_from(c, actions, m + n) == iter_from(iter_from(c, actions, m), actions, n),
    decreases m,
{
    if m > 0 {
        lemma_iter_from_add(build_step(c, actions), actions, (m - 1) as nat, n);
        assert(m + n - 1 == (m - 1) as nat + n);
    }
}

/// A final configuration absorbs every further step.
pub proof fn lemma_done_absorbing<S, P: Precondition<S>, O: Outcome<S>>(
    c: BuildCfg<S>,
    actions: Seq<ActionView<P, O>>,
    n: nat,
)
    requires
        c.work.len() == 0,
    ensures
        iter_from(c, actions, n) == c,
    decreases n,
{
    if n > 0 {
        lemma_done_absorbing(c, actions, (n - 1) as nat);
    }
}

/// The search from one starting point has at most one fixed point: whatever
/// two step counts both reach an empty stack, they reach the same
/// configuration.  Graph construction is deterministic.
pub proof fn lemma_fixed_point_unique<S, P: Precondition<S>, O: Outcome<S>>(
    c: BuildCfg<S>,
    actions: Seq<ActionView<P, O>>,
    m: nat,
    n: nat,
)
    requires
        iter_from(c, actions, m).work.len() == 0,
        iter_from(c, actions, n).work.len() == 0,
    ensures
        iter_from(c, actions, m) == iter_from(c, actions, n),
{
    if m <= n {
        lemma_iter_from_add(c, actions, m, (n - m) as nat);
        lemma_done_absorbing(iter_from(c, actions, m), actions, (n - m) as nat);
    } else {
        lemma_iter_from_add(c, actions, n, (m - n) as nat);
        lemma_done_absorbing(iter_from(c, actions, n), actions, (m - n) as nat);
    }
}

/// The reachable state space of `initial` under `actions` is finite: the
/// work-list search reaches a configuration with nothing left to expand.
/// This is the caller's obligation; an action set that keeps generating new
/// states never finishes exploring.
pub open spec fn exploration_finite<S, P: Precondition<S>, O: Outcome<S>>(
    initial: S,
    actions: Seq<ActionView<P, O>>,
) -> bool {
    exists|n: nat| build_iter(initial, actions, n).work.len() == 0
}


/// `s2` extends `s1`: indices already assigned never change.
pub open spec fn extends<S>(s1: Seq<S>, s2: Seq<S>) -> bool {
    &&& s1.len() <= s2.len()
    &&& forall|i: int| 0 <= i < s1.len() ==> s1[i] == s2[i]
}

/// Structural soundness of a search configuration: at least one state, every
/// pending index and every edge endpoint a valid state index, and no state
/// stored twice.
pub open spec fn cfg_inv<S>(c: BuildCfg<S>) -> bool {
    &&& c.states.len() >= 1
    &&& forall|k: int| 0 <= k < c.work.len() ==> 0 <= #[trigger] c.work[k] < c.states.len()
    &&& forall|k: int| 0 <= k < c.transitions.len() ==> {
        &&& 0 <= (#[trigger] c.transitions[k]).from < c.states.len()
        &&& 0 <= c.transitions[k].to < c.states.len()
    }
    &&& forall|i: int, j: int| 0 <= i < j < c.states.len() ==> c.states[i] != c.states[j]
}

pub proof fn lemma_record_result_inv<S, P, O>(
    c: BuildCfg<S>,
    from: int,
    a: ActionView<P, O>,
    res: ActionResult<S>,
)
    requires
        cfg_inv(c),
        0 <= from < c.states.len(),
    ensures
        cfg_inv(record_result(c, from, a, res)),
        extends(c.states, record_result(c, from, a, res).states),
{
    lemma_first_index_of(c.states, res.state);
}

pub proof fn lemma_record_results_inv<S, P, O>(
    c: BuildCfg<S>,
    from: int,
    a: ActionView<P, O>,
    results: Seq<ActionResult<S>>,
)
    requires
        cfg_inv(c),
        0 <= from < c.states.len(),
    ensures
        cfg_inv(record_results(c, from, a, results)),
        extends(c.states, record_results(c, from, a, results).states),
    decreases results.len(),
{
    if results.len() > 0 {
        lemma_record_result_inv(c, from, a, results[0]);
        lemma_record_results_inv(record_result(c, from, a, results[0]), from, a, results.skip(1));
    }
}

pub proof fn lemma_apply_action_inv<S, P: Precondition<S>, O: Outcome<S>>(
    c: BuildCfg<S>,
    from: int,
    s: S,
    a: ActionView<P, O>,
)
    requires
        cfg_inv(c),
        0 <= from < c.states.len(),
    ensures
        cfg_inv(apply_action(c, from, s, a)),
        extends(c.states, apply_action(c, from, s, a).states),
{
    if preconds_hold(a.preconditions, s) {
        lemma_record_results_inv(c, from, a, branch_results(a.outcomes, s));
    }
}

pub proof fn lemma_apply_actions_inv<S, P: Precondition<S>, O: Outcome<S>>(
    c: BuildCfg<S>,
    from: int,
    s: S,
    actions: Seq<ActionView<P, O>>,
)
    requires
        cfg_inv(c),
        0 <= from < c.states.len(),
    ensures
        cfg_inv(apply_actions(c, from, s, actions)),
        extends(c.states, apply_actions(c, from, s, actions).states),
    decreases actions.len(),
{
    if actions.len() > 0 {
        lemma_apply_action_inv(c, from, s, actions[0]);
        lemma_apply_actions_inv(apply_action(c, from, s, actions[0]), from, s, actions.skip(1));
    }
}

pub proof fn lemma_build_step_inv<S, P: Precondition<S>, O: Outcome<S>>(
    c: BuildCfg<S>,
    actions: Seq<ActionView<P, O>>,
)
    requires
        cfg_inv(c),
    ensures
        cfg_inv(build_step(c, actions)),
        extends(c.states, build_step(c, actions).states),
{
    if c.work.len() > 0 {
        let i = c.work.last();
        let popped = BuildCfg {
            states: c.states,
            work: c.work.drop_last(),
            transitions: c.transitions,
        };
        lemma_apply_actions_inv(popped, i, c.states[i], actions);
    }
}

pub proof fn lemma_iter_from_inv<S, P: Precondition<S>, O: Outcome<S>>(
    c: BuildCfg<S>,
    actions: Seq<ActionView<P, O>>,
    n: nat,
)
    requires
        cfg_inv(c),
    ensures
        cfg_inv(iter_from(c, actions, n)),
        extends(c.states, iter_from(c, actions, n).states),
    decreases n,
{
    if n > 0 {
        lemma_build_step_inv(c, actions);
        lemma_iter_from_inv(build_step(c, actions), actions, (n - 1) as nat);
    }
}

/// One per-state adjacency entry: an action identity and its outgoing
/// transitions at that state, in discovery order.
#[verifier::ext_equal]
pub ghost struct GroupView {
    pub action: ActionBoxView,
    pub transitions: Seq<TransitionView>,
}

/// Two action identities are the same: payload hash plus sequence number;
/// the display form does not take part.
pub open spec fn same_identity(a: ActionBoxView, b: ActionBoxView) -> bool {
    a.id == b.id && a.hash == b.hash
}

/// Files one transition into a transition grouping: appended to the first
/// group of the same action identity, or opening a new group at the end.
pub open spec fn add_to_groups(gs: Seq<GroupView>, t: TransitionView) -> Seq<GroupView>
    decreases gs.len(),
{
    if gs.len() == 0 {
        seq![GroupView { action: t.action, transitions: seq![t] }]
    } else if same_identity(gs[0].action, t.action) {
        seq![GroupView { action: gs[0].action, transitions: gs[0].transitions.push(t) }]
            + gs.skip(1)
    } else {
        seq![gs[0]] + add_to_groups(gs.skip(1), t)
    }
}

/// The per-state adjacency of state `i`: all transitions leaving `i`, in
/// recording order, partitioned by action identity.
pub open spec fn groups_of(ts: Seq<TransitionView>, i: int) -> Seq<GroupView>
    decreases ts.len(),
{
    if ts.len() == 0 {
        Seq::empty()
    } else {
        let prev = groups_of(ts.drop_last(), i);
        if ts.last().from == i {
            add_to_groups(prev, ts.last())
        } else {
            prev
        }
    }
}

/// Filing a transition whose identity already has a group updates exactly
/// that group.
pub proof fn lemma_add_to_groups_found(gs: Seq<GroupView>, t: TransitionView, g: int)
    requires
        0 <= g < gs.len(),
        same_identity(gs[g].action, t.action),
        forall|j: int| 0 <= j < g ==> !same_identity(gs[j].action, t.action),
    ensures
        add_to_groups(gs, t) == gs.update(
            g,
            GroupView { action: gs[g].action, transitions: gs[g].transitions.push(t) },
        ),
    decreases g,
{
    if g == 0 {
        assert(add_to_groups(gs, t) =~= gs.update(
            0,
            GroupView { action: gs[0].action, transitions: gs[0].transitions.push(t) },
        ));
    } else {
        let rest = gs.skip(1);
        assert(forall|j: int| 0 <= j < g - 1 ==> rest[j] == gs[j + 1]);
        lemma_add_to_groups_found(rest, t, g - 1);
        assert(add_to_groups(gs, t) =~= gs.update(
            g,
            GroupView { action: gs[g].action, transitions: gs[g].transitions.push(t) },
        ));
    }
}

/// Filing a transition of a fresh identity opens a new group at the end.
pub proof fn lemma_add_to_groups_missing(gs: Seq<GroupView>, t: TransitionView)
    requires
        forall|j: int| 0 <= j < gs.len() ==> !same_identity(gs[j].action, t.action),
    ensures
        add_to_groups(gs, t) == gs.push(GroupView { action: t.action, transitions: seq![t] }),
    decreases gs.len(),
{
    if gs.len() == 0 {
        assert(add_to_groups(gs, t) =~= gs.push(
            GroupView { action: t.action, transitions: seq![t] },
        ));
    } else {
        let rest = gs.skip(1);
        assert(forall|j: int| 0 <= j < rest.len() ==> rest[j] == gs[j + 1]);
        lemma_add_to_groups_missing(rest, t);
        assert(add_to_groups(gs, t) =~= gs.push(
            GroupView { action: t.action, transitions: seq![t] },
        ));
    }
}


/// The ghost configuration held in the constructor's working vectors.
pub open spec fn exec_cfg<S>(
    states: Seq<S>,
    work: Seq<usize>,
    transitions: Seq<Transition>,
) -> BuildCfg<S> {
    BuildCfg {
        states,
        work: work.map_values(|u: usize| u as int),
        transitions: trans_views(transitions),
    }
}

/// The views of an adjacency grouping.
pub open spec fn group_views(gs: Seq<(ActionBox, Vec<Transition>)>) -> Seq<GroupView> {
    gs.map_values(
        |g: (ActionBox, Vec<Transition>)| GroupView { action: g.0@, transitions: trans_views(g.1@) },
    )
}

/// The frozen graph: an index-addressable state list plus, per state, the
/// outgoing transitions partitioned by action identity.
pub struct Mdp<S> {
    states: Vec<S>,
    actions_from_states: Vec<Vec<(ActionBox, Vec<Transition>)>>,
}

/// The mathematical content of an [`Mdp`].
#[verifier::ext_equal]
pub ghost struct MdpView<S> {
    pub states: Seq<S>,
    pub groups: Seq<Seq<GroupView>>,
}

impl<S> View for Mdp<S> {
    type V = MdpView<S>;

    closed spec fn view(&self) -> MdpView<S> {
        MdpView {
            states: self.states@,
            groups: self.actions_from_states@.map_values(
                |gs: Vec<(ActionBox, Vec<Transition>)>| group_views(gs@),
            ),
        }
    }
}

impl<S> MdpView<S> {
    /// The graph holds exactly what one search configuration describes.
    pub open spec fn matches_cfg(self, c: BuildCfg<S>) -> bool {
        &&& self.states == c.states
        &&& self.groups.len() == c.states.len()
        &&& forall|i: int| 0 <= i < self.groups.len() ==> self.groups[i] == groups_of(
            c.transitions,
            i,
        )
    }

    /// The graph is the fixed point of exploring `initial` under `actions`.
    /// By [`lemma_fixed_point_unique`] there is at most one such graph:
    /// rebuilding the same problem yields the same frozen graph.
    pub open spec fn is_built_from<P: Precondition<S>, O: Outcome<S>>(
        self,
        initial: S,
        actions: Seq<ActionView<P, O>>,
    ) -> bool {
        exists|n: nat|
            (#[trigger] build_iter(initial, actions, n)).work.len() == 0 && self.matches_cfg(
                build_iter(initial, actions, n),
            )
    }
}

/// Scans the state list for the first state equal to `s`.
fn find_index<S: State>(states: &Vec<S>, s: &S) -> (r: Option<usize>)
    ensures
        match r {
            Some(i) => first_index_of(states@, *s) == i as int,
            None => first_index_of(states@, *s) == -1,
        },
{
    let mut k: usize = 0;
    while k < states.len()
        invariant
            k <= states@.len(),
            forall|j: int| 0 <= j < k ==> states@[j] != *s,
        decreases states@.len() - k,
    {
        if states[k].eq_state(s) {
            proof {
                lemma_first_index_of_is(states@, *s, k as int);
            }
            return Some(k);
        }
        k += 1;
    }
    proof {
        lemma_first_index_of(states@, *s);
    }
    None
}

/// Expands one action at the state with index `from`, recording every
/// candidate successor exactly as [`apply_action`] describes.
fn expand_action<S: State, P: Precondition<S>, O: Outcome<S>>(
    states: &mut Vec<S>,
    work: &mut Vec<usize>,
    transitions: &mut Vec<Transition>,
    from: usize,
    action: &Action<S, P, O>,
)
    requires
        (from as int) < old(states)@.len(),
    ensures
        exec_cfg(final(states)@, final(work)@, final(transitions)@) == apply_action(
            exec_cfg(old(states)@, old(work)@, old(transitions)@),
            from as int,
            old(states)@[from as int],
            action@,
        ),
{
    let ghost c0 = exec_cfg(states@, work@, transitions@);
    let ghost s0 = states@[from as int];
    let enabled = action.preconditions_valid(&states[from]);
    if !enabled {
        return ;
    }
    let mut results = action.get_successor_states(&states[from]);
    let ghost all = branch_results(action@.outcomes, s0);
    while results.len() > 0
        invariant
            record_results(c0, from as int, action@, all) == record_results(
                exec_cfg(states@, work@, transitions@),
                from as int,
                action@,
                results@,
            ),
        decreases results@.len(),
    {
        let ghost c_pre = exec_cfg(states@, work@, transitions@);
        let ghost rs_pre = results@;
        let res = results.remove(0);
        let ghost res_v = res;
        let ActionResult { state: ns, probability, reward } = res;
        let idx_opt = find_index(states, &ns);
        let to: usize = match idx_opt {
            Some(i) => i,
            None => {
                let ni = states.len();
                states.push(ns);
                work.push(ni);
                ni
            },
        };
        transitions.push(
            Transition { from, to, probability, reward, action: action.action() },
        );
        proof {
            let c_post = exec_cfg(states@, work@, transitions@);
            let stepped = record_result(c_pre, from as int, action@, res_v);
            assert(c_post.states =~= stepped.states);
            assert(c_post.work =~= stepped.work);
            assert(c_post.transitions =~= stepped.transitions);
            assert(c_post =~= stepped);
            assert(results@ =~= rs_pre.skip(1));
            assert(record_results(c_pre, from as int, action@, rs_pre) == record_results(
                c_post,
                from as int,
                action@,
                results@,
            ));
        }
    }
    proof {
        assert(exec_cfg(states@, work@, transitions@) == record_results(
            c0,
            from as int,
            action@,
            all,
        ));
    }
}


/// Scans an adjacency grouping for the group of one action identity.
fn find_group(groups: &Vec<(ActionBox, Vec<Transition>)>, id: usize, hash: u64) -> (r: Option<
    usize,
>)
    ensures
        match r {
            Some(g) => {
                &&& (g as int) < group_views(groups@).len()
                &&& group_views(groups@)[g as int].action.id == id as int
                &&& group_views(groups@)[g as int].action.hash == hash as int
                &&& forall|j: int| 0 <= j < g ==> !(#[trigger] group_views(groups@)[j].action.id
                    == id as int && group_views(groups@)[j].action.hash == hash as int)
            },
            None => forall|j: int| 0 <= j < group_views(groups@).len() ==> !(#[trigger] group_views(
                groups@,
            )[j].action.id == id as int && group_views(groups@)[j].action.hash == hash as int),
        },
{
    let mut g: usize = 0;
    while g < groups.len()
        invariant
            g <= groups@.len(),
            forall|j: int| 0 <= j < g ==> !(#[trigger] group_views(groups@)[j].action.id
                == id as int && group_views(groups@)[j].action.hash == hash as int),
        decreases groups@.len() - g,
    {
        if groups[g].0.id() == id && groups[g].0.content_hash() == hash {
            return Some(g);
        }
        g += 1;
    }
    None
}

/// Files one transition into an adjacency grouping under its action
/// identity, exactly as [`add_to_groups`] describes.
fn add_transition(groups: &mut Vec<(ActionBox, Vec<Transition>)>, t: Transition)
    ensures
        group_views(final(groups)@) == add_to_groups(group_views(old(groups)@), t@),
{
    let ghost gv0 = group_views(groups@);
    let id = t.action().id();
    let hash = t.action().content_hash();
    let found = find_group(groups, id, hash);
    match found {
        Some(g) => {
            proof {
                lemma_add_to_groups_found(gv0, t@, g as int);
            }
            let mut entry = groups.remove(g);
            entry.1.push(t);
            groups.insert(g, entry);
            proof {
                let target = gv0.update(
                    g as int,
                    GroupView {
                        action: gv0[g as int].action,
                        transitions: gv0[g as int].transitions.push(t@),
                    },
                );
                assert(group_views(groups@) =~~= target);
            }
        },
        None => {
            proof {
                lemma_add_to_groups_missing(gv0, t@);
            }
            let action = t.action();
            let mut ts: Vec<Transition> = Vec::new();
            ts.push(t);
            groups.push((action, ts));
            proof {
                assert(group_views(groups@) =~~= gv0.push(
                    GroupView { action: t@.action, transitions: seq![t@] },
                ));
            }
        },
    }
}

/// Collects the adjacency of state `i`: its outgoing transitions, in
/// recording order, partitioned by action identity.
fn group_transitions(transitions: &Vec<Transition>, i: usize) -> (r: Vec<
    (ActionBox, Vec<Transition>),
>)
    ensures
        group_views(r@) == groups_of(trans_views(transitions@), i as int),
{
    let mut r: Vec<(ActionBox, Vec<Transition>)> = Vec::new();
    let mut k: usize = 0;
    while k < transitions.len()
        invariant
            k <= transitions@.len(),
            group_views(r@) == groups_of(trans_views(transitions@).take(k as int), i as int),
        decreases transitions@.len() - k,
    {
        let ghost pre = trans_views(transitions@).take(k as int);
        let t = &transitions[k];
        if t.from() == i {
            add_transition(&mut r, t.clone());
        }
        proof {
            let cur = trans_views(transitions@).take(k + 1 as int);
            assert(cur.drop_last() =~= pre);
            assert(cur.last() == transitions@[k as int]@);
        }
        k += 1;
    }
    proof {
        assert(trans_views(transitions@).take(transitions@.len() as int) =~= trans_views(
            transitions@,
        ));
    }
    r
}

impl<S: State> Mdp<S> {
    /// Builds the frozen graph for `initial` under `actions` by exhaustive
    /// reachability search: the result is the unique fixed point of
    /// [`build_iter`], with the initial state at index 0 and successor
    /// states deduplicated by value.
    pub fn new<P: Precondition<S>, O: Outcome<S>>(initial: S, actions: Vec<Action<S, P, O>>) -> (r:
        Self)
        requires
            exploration_finite(initial, actions@.map_values(|a: Action<S, P, O>| a@)),
        ensures
            r@.is_built_from(initial, actions@.map_values(|a: Action<S, P, O>| a@)),
    {
        let ghost av = actions@.map_values(|a: Action<S, P, O>| a@);
        let ghost n_done = choose|n: nat| build_iter(initial, av, n).work.len() == 0;
        let mut states: Vec<S> = Vec::new();
        let mut work: Vec<usize> = Vec::new();
        let mut transitions: Vec<Transition> = Vec::new();
        states.push(initial);
        work.push(0);
        let ghost mut n: nat = 0;
        proof {
            assert(exec_cfg(states@, work@, transitions@) =~= init_cfg(initial));
            assert(cfg_inv(init_cfg(initial)));
        }
        while work.len() > 0
            invariant
                av == actions@.map_values(|a: Action<S, P, O>| a@),
                exec_cfg(states@, work@, transitions@) == build_iter(initial, av, n),
                cfg_inv(exec_cfg(states@, work@, transitions@)),
                build_iter(initial, av, n_done).work.len() == 0,
                n <= n_done,
            decreases n_done - n,
        {
            let ghost c_n = build_iter(initial, av, n);
            proof {
                // The stack is not yet empty, so this is not the fixed point:
                // more steps remain before `n_done`.
                if n == n_done {
                    assert(false);
                }
                lemma_iter_from_add(init_cfg(initial), av, n, 1);
            }
            let i = work.pop().unwrap();
            let ghost c_popped = BuildCfg {
                states: c_n.states,
                work: c_n.work.drop_last(),
                transitions: c_n.transitions,
            };
            proof {
                assert(work@.map_values(|u: usize| u as int) =~= c_n.work.drop_last());
                assert(exec_cfg(states@, work@, transitions@) =~= c_popped);
                assert(0 <= c_n.work.last() < c_n.states.len());
            }
            let ghost s_i = c_n.states[i as int];
            proof {
                assert(av.skip(0) =~= av);
            }
            let mut k: usize = 0;
            while k < actions.len()
                invariant
                    k <= actions@.len(),
                    av == actions@.map_values(|a: Action<S, P, O>| a@),
                    (i as int) < states@.len(),
                    states@[i as int] == s_i,
                    cfg_inv(exec_cfg(states@, work@, transitions@)),
                    apply_actions(c_popped, i as int, s_i, av) == apply_actions(
                        exec_cfg(states@, work@, transitions@),
                        i as int,
                        s_i,
                        av.skip(k as int),
                    ),
                decreases actions@.len() - k,
            {
                let ghost c_cur = exec_cfg(states@, work@, transitions@);
                expand_action(&mut states, &mut work, &mut transitions, i, &actions[k]);
                proof {
                    let c_next = exec_cfg(states@, work@, transitions@);
                    assert(c_next == apply_action(c_cur, i as int, s_i, av[k as int]));
                    lemma_apply_action_inv(c_cur, i as int, s_i, av[k as int]);
                    assert(av.skip(k as int)[0] == av[k as int]);
                    assert(av.skip(k as int).skip(1) =~= av.skip(k + 1 as int));
                    assert(apply_actions(c_cur, i as int, s_i, av.skip(k as int))
                        == apply_actions(c_next, i as int, s_i, av.skip(k + 1 as int)));
                }
                k += 1;
            }
            proof {
                assert(av.skip(av.len() as int) =~= Seq::<ActionView<P, O>>::empty());
                assert(exec_cfg(states@, work@, transitions@) == apply_actions(
                    c_popped,
                    i as int,
                    s_i,
                    av,
                ));
                assert(build_step(c_n, av) == apply_actions(c_popped, i as int, s_i, av));
                n = n + 1;
                assert(iter_from(build_step(c_n, av), av, 0) == build_step(c_n, av));
                assert(iter_from(c_n, av, 1) == build_step(c_n, av));
                assert(build_iter(initial, av, n) == build_step(c_n, av));
                lemma_build_step_inv(c_n, av);
                // `n` stays at most `n_done`: were it past it, the fixed
                // point would have absorbed every further step.
                if n > n_done {
                    lemma_iter_from_add(init_cfg(initial), av, n_done, (n - n_done) as nat);
                    lemma_done_absorbing(build_iter(initial, av, n_done), av, (n - n_done) as nat);
                    assert(false);
                }
            }
        }
        let ghost c_final = build_iter(initial, av, n);
        proof {
            assert(work@.map_values(|u: usize| u as int).len() == 0);
            assert(c_final.work.len() == 0);
        }
        let mut actions_from_states: Vec<Vec<(ActionBox, Vec<Transition>)>> = Vec::new();
        let mut i: usize = 0;
        while i < states.len()
            invariant
                i <= states@.len(),
                states@ == c_final.states,
                trans_views(transitions@) == c_final.transitions,
                actions_from_states@.len() == i,
                forall|j: int| 0 <= j < i ==> group_views(
                    #[trigger] actions_from_states@[j]@,
                ) == groups_of(c_final.transitions, j),
            decreases states@.len() - i,
        {
            actions_from_states.push(group_transitions(&transitions, i));
            i += 1;
        }
        let r = Mdp { states, actions_from_states };
        proof {
            assert(r@.matches_cfg(c_final)) by {
                assert(r@.groups.len() == c_final.states.len());
                assert(forall|j: int| 0 <= j < r@.groups.len() ==> r@.groups[j] == groups_of(
                    c_final.transitions,
                    j,
                ));
            }
            assert(build_iter(initial, av, n).work.len() == 0 && r@.matches_cfg(
                build_iter(initial, av, n),
            ));
        }
        r
    }

    /// Resolves a state value to its index, when the value is in the model.
    pub fn index_of(&self, s: &S) -> (r: Option<usize>)
        ensures
            match r {
                Some(i) => first_index_of(self@.states, *s) == i as int,
                None => first_index_of(self@.states, *s) == -1,
            },
    {
        find_index(&self.states, s)
    }
}

impl<S> Mdp<S> {
    /// All states, by index; the initial state is index 0.
    pub fn states(&self) -> (r: &Vec<S>)
        ensures
            r@ == self@.states,
    {
        &self.states
    }

    /// The adjacency of one state: its outgoing transitions partitioned by
    /// action identity.
    pub fn actions(&self, state: usize) -> (r: &Vec<(ActionBox, Vec<Transition>)>)
        requires
            (state as int) < self@.groups.len(),
        ensures
            group_views(r@) == self@.groups[state as int],
    {
        &self.actions_from_states[state]
    }
}

/// Accumulates an initial state and action declarations, then freezes the
/// graph.  Each `add_action` call registers one declaration under the next
/// sequence number and expands it at once.
pub struct MdpBuilder<S, P, O> {
    initial_state: S,
    actions: Vec<Action<S, P, O>>,
    next_id: usize,
}

/// The mathematical content of an [`MdpBuilder`].
#[verifier::ext_equal]
pub ghost struct MdpBuilderView<S, P, O> {
    pub initial_state: S,
    pub actions: Seq<ActionView<P, O>>,
    pub next_id: int,
}

impl<S, P, O> View for MdpBuilder<S, P, O> {
    type V = MdpBuilderView<S, P, O>;

    closed spec fn view(&self) -> MdpBuilderView<S, P, O> {
        MdpBuilderView {
            initial_state: self.initial_state,
            actions: self.actions@.map_values(|a: Action<S, P, O>| a@),
            next_id: self.next_id as int,
        }
    }
}

impl<S: State, P: Precondition<S>, O: Outcome<S>> MdpBuilder<S, P, O> {
    /// Starts a builder around the initial state, with no actions yet.
    pub fn new(initial_state: S) -> (r: Self)
        ensures
            r@.initial_state == initial_state,
            r@.actions =~= Seq::<ActionView<P, O>>::empty(),
            r@.next_id == 0,
    {
        MdpBuilder { initial_state, actions: Vec::new(), next_id: 0 }
    }

    /// Registers one action declaration: the builder is expanded under the
    /// next sequence number and its actions appended in order.
    pub fn add_action<B: IActionBuilder<S, P, O>>(self, action_builder: B) -> (r: Self)
        requires
            self@.next_id < usize::MAX,
        ensures
            r@.initial_state == self@.initial_state,
            r@.actions == self@.actions + action_builder.spec_build(self@.next_id),
            r@.next_id == self@.next_id + 1,
    {
        let ghost a0 = self@.actions;
        let mut s = self;
        let mut built = action_builder.build(s.next_id);
        let ghost bv = built@.map_values(|a: Action<S, P, O>| a@);
        while built.len() > 0
            invariant
                a0 + bv == s@.actions + built@.map_values(|a: Action<S, P, O>| a@),
                s@.initial_state == self@.initial_state,
                s@.next_id == self@.next_id,
            decreases built@.len(),
        {
            let ghost acts_pre = s.actions@;
            let ghost built_pre = built@;
            let a = built.remove(0);
            s.actions.push(a);
            proof {
                assert(s.actions@ =~= acts_pre.push(a));
                assert(built@ =~= built_pre.skip(1));
                assert(s@.actions =~= acts_pre.map_values(|x: Action<S, P, O>| x@).push(a@));
                assert(built_pre.map_values(|x: Action<S, P, O>| x@) =~= seq![a@] + built@
                    .map_values(|x: Action<S, P, O>| x@));
                assert(a0 + bv =~= s@.actions + built@.map_values(|x: Action<S, P, O>| x@));
            }
        }
        s.next_id = s.next_id + 1;
        proof {
            assert(built@.map_values(|a: Action<S, P, O>| a@) =~= Seq::<ActionView<P, O>>::empty());
            assert(s@.actions =~= a0 + bv);
        }
        s
    }

    /// Freezes the graph: exhaustive reachability search from the initial
    /// state under every registered action.
    pub fn build(self) -> (r: Mdp<S>)
        requires
            exploration_finite(self@.initial_state, self@.actions),
        ensures
            r@.is_built_from(self@.initial_state, self@.actions),
    {
        Mdp::new(self.initial_state, self.actions)
    }
}


/// Well-formedness of one adjacency group of state `i`: every transition in
/// it leaves `i`, targets a valid state index, and carries the group's
/// action identity.
pub open spec fn group_wf(g: GroupView, i: int, nstates: int) -> bool {
    forall|k: int| 0 <= k < g.transitions.len() ==> {
        let t = #[trigger] g.transitions[k];
        &&& t.from == i
        &&& 0 <= t.to < nstates
        &&& same_identity(t.action, g.action)
    }
}

impl<S> MdpView<S> {
    /// Structural soundness of a frozen graph: one adjacency entry per
    /// state, every transition endpoint a valid state index, every group
    /// homogeneous in action identity, and no state stored twice.
    pub open spec fn wf(self) -> bool {
        &&& 1 <= self.states.len()
        &&& self.groups.len() == self.states.len()
        &&& forall|i: int, g: int|
            0 <= i < self.groups.len() && 0 <= g < self.groups[i].len() ==> group_wf(
                #[trigger] self.groups[i][g],
                i,
                self.states.len() as int,
            )
        &&& forall|i: int, j: int| 0 <= i < j < self.states.len() ==> self.states[i]
            != self.states[j]
    }
}

pub proof fn lemma_add_to_groups_wf(gs: Seq<GroupView>, t: TransitionView, i: int, nstates: int)
    requires
        forall|g: int| 0 <= g < gs.len() ==> group_wf(#[trigger] gs[g], i, nstates),
        t.from == i,
        0 <= t.to < nstates,
    ensures
        forall|g: int|
            0 <= g < add_to_groups(gs, t).len() ==> group_wf(
                #[trigger] add_to_groups(gs, t)[g],
                i,
                nstates,
            ),
    decreases gs.len(),
{
    if gs.len() == 0 {
    } else if same_identity(gs[0].action, t.action) {
    } else {
        let rest = gs.skip(1);
        assert(forall|j: int| 0 <= j < rest.len() ==> rest[j] == gs[j + 1]);
        lemma_add_to_groups_wf(rest, t, i, nstates);
        let out = add_to_groups(gs, t);
        let out_rest = add_to_groups(rest, t);
        assert(forall|g: int| 1 <= g < out.len() ==> out[g] == out_rest[g - 1]);
    }
}

pub proof fn lemma_groups_of_wf(ts: Seq<TransitionView>, i: int, nstates: int)
    requires
        forall|k: int|
            0 <= k < ts.len() ==> 0 <= (#[trigger] ts[k]).from < nstates && 0 <= ts[k].to
                < nstates,
    ensures
        forall|g: int|
            0 <= g < groups_of(ts, i).len() ==> group_wf(#[trigger] groups_of(ts, i)[g], i, nstates),
    decreases ts.len(),
{
    if ts.len() > 0 {
        let front = ts.drop_last();
        assert(forall|k: int| 0 <= k < front.len() ==> front[k] == ts[k]);
        lemma_groups_of_wf(front, i, nstates);
        if ts.last().from == i {
            lemma_add_to_groups_wf(groups_of(front, i), ts.last(), i, nstates);
        }
    }
}

/// Every constructed graph is structurally sound, and its initial state is
/// index 0.
pub proof fn lemma_built_from_wf<S, P: Precondition<S>, O: Outcome<S>>(
    m: MdpView<S>,
    initial: S,
    actions: Seq<ActionView<P, O>>,
)
    requires
        m.is_built_from(initial, actions),
    ensures
        m.wf(),
        m.states[0] == initial,
{
    let n = choose|n: nat|
        (#[trigger] build_iter(initial, actions, n)).work.len() == 0 && m.matches_cfg(
            build_iter(initial, actions, n),
        );
    let c = build_iter(initial, actions, n);
    assert(cfg_inv(init_cfg(initial)));
    lemma_iter_from_inv(init_cfg(initial), actions, n);
    assert forall|i: int, g: int|
        0 <= i < m.groups.len() && 0 <= g < m.groups[i].len() implies group_wf(
        #[trigger] m.groups[i][g],
        i,
        m.states.len() as int,
    ) by {
        lemma_groups_of_wf(c.transitions, i, m.states.len() as int);
    }
}

/// Rebuilding the same problem — the same initial state and the same action
/// declarations in the same order — yields the same frozen graph: equal
/// state lists and, state by state, equal adjacency groupings, hence an
/// equal transition multiset.
pub proof fn lemma_build_deterministic<S, P: Precondition<S>, O: Outcome<S>>(
    m1: MdpView<S>,
    m2: MdpView<S>,
    initial: S,
    actions: Seq<ActionView<P, O>>,
)
    requires
        m1.is_built_from(initial, actions),
        m2.is_built_from(initial, actions),
    ensures
        m1 == m2,
{
    let n1 = choose|n: nat|
        (#[trigger] build_iter(initial, actions, n)).work.len() == 0 && m1.matches_cfg(
            build_iter(initial, actions, n),
        );
    let n2 = choose|n: nat|
        (#[trigger] build_iter(initial, actions, n)).work.len() == 0 && m2.matches_cfg(
            build_iter(initial, actions, n),
        );
    lemma_fixed_point_unique(init_cfg(initial), actions, n1, n2);
    let c = build_iter(initial, actions, n1);
    assert(m1.groups =~= m2.groups);
    assert(m1 =~= m2);
}


/// Every state recorded so far satisfies `inv`.
pub open spec fn states_inv<S>(c: BuildCfg<S>, inv: spec_fn(S) -> bool) -> bool {
    forall|i: int| 0 <= i < c.states.len() ==> inv(#[trigger] c.states[i])
}

/// Every outcome branch of every action carries `inv` from a state to its
/// successor.
pub open spec fn preserves_inv<S, P, O: Outcome<S>>(
    actions: Seq<ActionView<P, O>>,
    inv: spec_fn(S) -> bool,
) -> bool {
    forall|k: int, j: int, s: S|
        0 <= k < actions.len() && 0 <= j < actions[k].outcomes.len() && inv(s) ==> inv(
            (#[trigger] actions[k].outcomes[j].spec_apply(s)).state,
        )
}

/// The search's termination potential: pending work, minus twice the states
/// already discovered.  Discovering a state pays one unit of potential;
/// popping pays another.
pub open spec fn phi<S>(c: BuildCfg<S>) -> int {
    c.work.len() - 2 * c.states.len()
}

proof fn lemma_record_result_aux<S, P, O>(
    c: BuildCfg<S>,
    from: int,
    a: ActionView<P, O>,
    res: ActionResult<S>,
    inv: spec_fn(S) -> bool,
)
    requires
        states_inv(c, inv),
        inv(res.state),
    ensures
        states_inv(record_result(c, from, a, res), inv),
        phi(record_result(c, from, a, res)) <= phi(c),
{
}

proof fn lemma_record_results_aux<S, P, O>(
    c: BuildCfg<S>,
    from: int,
    a: ActionView<P, O>,
    results: Seq<ActionResult<S>>,
    inv: spec_fn(S) -> bool,
)
    requires
        states_inv(c, inv),
        forall|j: int| 0 <= j < results.len() ==> inv((#[trigger] results[j]).state),
    ensures
        states_inv(record_results(c, from, a, results), inv),
        phi(record_results(c, from, a, results)) <= phi(c),
    decreases results.len(),
{
    if results.len() > 0 {
        lemma_record_result_aux(c, from, a, results[0], inv);
        let rest = results.skip(1);
        assert(forall|j: int| 0 <= j < rest.len() ==> rest[j] == results[j + 1]);
        lemma_record_results_aux(record_result(c, from, a, results[0]), from, a, rest, inv);
    }
}

proof fn lemma_apply_action_aux<S, P: Precondition<S>, O: Outcome<S>>(
    c: BuildCfg<S>,
    from: int,
    s: S,
    a: ActionView<P, O>,
    inv: spec_fn(S) -> bool,
)
    requires
        states_inv(c, inv),
        inv(s),
        forall|j: int, s2: S|
            0 <= j < a.outcomes.len() && inv(s2) ==> inv(
                (#[trigger] a.outcomes[j].spec_apply(s2)).state,
            ),
    ensures
        states_inv(apply_action(c, from, s, a), inv),
        phi(apply_action(c, from, s, a)) <= phi(c),
{
    if preconds_hold(a.preconditions, s) {
        let results = branch_results(a.outcomes, s);
        assert(forall|j: int| 0 <= j < results.len() ==> inv((#[trigger] results[j]).state));
        lemma_record_results_aux(c, from, a, results, inv);
    }
}

proof fn lemma_apply_actions_aux<S, P: Precondition<S>, O: Outcome<S>>(
    c: BuildCfg<S>,
    from: int,
    s: S,
    actions: Seq<ActionView<P, O>>,
    inv: spec_fn(S) -> bool,
)
    requires
        states_inv(c, inv),
        inv(s),
        preserves_inv(actions, inv),
    ensures
        states_inv(apply_actions(c, from, s, actions), inv),
        phi(apply_actions(c, from, s, actions)) <= phi(c),
    decreases actions.len(),
{
    if actions.len() > 0 {
        assert(forall|j: int, s2: S|
            0 <= j < actions[0].outcomes.len() && inv(s2) ==> inv(
                (#[trigger] actions[0].outcomes[j].spec_apply(s2)).state,
            ));
        lemma_apply_action_aux(c, from, s, actions[0], inv);
        let rest = actions.skip(1);
        assert(forall|j: int| 0 <= j < rest.len() ==> rest[j] == actions[j + 1]);
        assert(preserves_inv(rest, inv));
        lemma_apply_actions_aux(apply_action(c, from, s, actions[0]), from, s, rest, inv);
    }
}

proof fn lemma_build_step_aux<S, P: Precondition<S>, O: Outcome<S>>(
    c: BuildCfg<S>,
    actions: Seq<ActionView<P, O>>,
    inv: spec_fn(S) -> bool,
)
    requires
        cfg_inv(c),
        states_inv(c, inv),
        preserves_inv(actions, inv),
    ensures
        states_inv(build_step(c, actions), inv),
        c.work.len() > 0 ==> phi(build_step(c, actions)) <= phi(c) - 1,
{
    if c.work.len() > 0 {
        let i = c.work.last();
        let popped = BuildCfg {
            states: c.states,
            work: c.work.drop_last(),
            transitions: c.transitions,
        };
        lemma_apply_actions_aux(popped, i, c.states[i], actions, inv);
    }
}

proof fn lemma_iter_from_states_inv<S, P: Precondition<S>, O: Outcome<S>>(
    c: BuildCfg<S>,
    actions: Seq<ActionView<P, O>>,
    inv: spec_fn(S) -> bool,
    n: nat,
)
    requires
        cfg_inv(c),
        states_inv(c, inv),
        preserves_inv(actions, inv),
    ensures
        states_inv(iter_from(c, actions, n), inv),
    decreases n,
{
    if n > 0 {
        lemma_build_step_inv(c, actions);
        lemma_build_step_aux(c, actions, inv);
        lemma_iter_from_states_inv(build_step(c, actions), actions, inv, (n - 1) as nat);
    }
}

/// A sequence of pairwise distinct values of a finite set is no longer than
/// the set.
pub proof fn lemma_distinct_len_le<S>(states: Seq<S>, dom: Set<S>)
    requires
        forall|i: int, j: int| 0 <= i < j < states.len() ==> states[i] != states[j],
        forall|i: int| 0 <= i < states.len() ==> dom.contains(#[trigger] states[i]),
        dom.finite(),
    ensures
        states.len() <= dom.len(),
    decreases states.len(),
{
    if states.len() > 0 {
        let last = states.last();
        let d2 = dom.remove(last);
        let front = states.drop_last();
        assert(forall|i: int| 0 <= i < front.len() ==> front[i] == states[i]);
        assert(forall|i: int| 0 <= i < front.len() ==> d2.contains(#[trigger] front[i]));
        lemma_distinct_len_le(front, d2);
        assert(d2.len() == dom.len() - 1);
    }
}

proof fn lemma_terminates_from<S, P: Precondition<S>, O: Outcome<S>>(
    c: BuildCfg<S>,
    actions: Seq<ActionView<P, O>>,
    inv: spec_fn(S) -> bool,
    dom: Set<S>,
)
    requires
        cfg_inv(c),
        states_inv(c, inv),
        preserves_inv(actions, inv),
        dom.finite(),
        forall|s: S| inv(s) ==> dom.contains(s),
    ensures
        exists|n: nat| (#[trigger] iter_from(c, actions, n)).work.len() == 0,
    decreases c.work.len() + 2 * (dom.len() - c.states.len()),
{
    assert(forall|i: int| 0 <= i < c.states.len() ==> dom.contains(#[trigger] c.states[i]));
    lemma_distinct_len_le(c.states, dom);
    if c.work.len() == 0 {
        assert(iter_from(c, actions, 0nat).work.len() == 0);
    } else {
        let c2 = build_step(c, actions);
        lemma_build_step_inv(c, actions);
        lemma_build_step_aux(c, actions, inv);
        assert(forall|i: int| 0 <= i < c2.states.len() ==> dom.contains(#[trigger] c2.states[i]));
        lemma_distinct_len_le(c2.states, dom);
        lemma_terminates_from(c2, actions, inv, dom);
        let n2 = choose|n: nat| (#[trigger] iter_from(c2, actions, n)).work.len() == 0;
        assert(iter_from(c, actions, n2 + 1) == iter_from(c2, actions, n2));
    }
}

/// When every outcome keeps states inside a finite domain, exploration
/// finishes, and every frozen graph built from it holds only states of the
/// domain — never more of them than the domain holds.
pub proof fn lemma_finite_domain_explores<S, P: Precondition<S>, O: Outcome<S>>(
    initial: S,
    actions: Seq<ActionView<P, O>>,
    inv: spec_fn(S) -> bool,
    dom: Set<S>,
)
    requires
        inv(initial),
        dom.finite(),
        forall|s: S| inv(s) ==> dom.contains(s),
        preserves_inv(actions, inv),
    ensures
        exploration_finite(initial, actions),
        forall|m: MdpView<S>|
            #[trigger] m.is_built_from(initial, actions) ==> (forall|i: int|
                0 <= i < m.states.len() ==> inv(#[trigger] m.states[i])) && m.states.len()
                <= dom.len(),
{
    let c0 = init_cfg(initial);
    assert(cfg_inv(c0));
    assert(states_inv(c0, inv));
    lemma_terminates_from(c0, actions, inv, dom);
    let n0 = choose|n: nat| (#[trigger] iter_from(c0, actions, n)).work.len() == 0;
    assert(build_iter(initial, actions, n0).work.len() == 0);
    assert forall|m: MdpView<S>| #[trigger] m.is_built_from(initial, actions) implies (forall|
        i: int,
    | 0 <= i < m.states.len() ==> inv(#[trigger] m.states[i])) && m.states.len() <= dom.len() by {
        let n = choose|n: nat|
            (#[trigger] build_iter(initial, actions, n)).work.len() == 0 && m.matches_cfg(
                build_iter(initial, actions, n),
            );
        let c = build_iter(initial, actions, n);
        lemma_iter_from_states_inv(c0, actions, inv, n);
        lemma_iter_from_inv(c0, actions, n);
        assert(forall|i: int| 0 <= i < c.states.len() ==> dom.contains(#[trigger] c.states[i]));
        lemma_distinct_len_le(c.states, dom);
    }
}


/// Indices already resolved never change as the state list grows.
pub proof fn lemma_first_index_stable<S>(s1: Seq<S>, s2: Seq<S>, v: S)
    requires
        extends(s1, s2),
        first_index_of(s1, v) >= 0,
    ensures
        first_index_of(s2, v) == first_index_of(s1, v),
    decreases s1.len(),
{
    if s1.len() > 0 {
        if s1[0] == v {
        } else {
            assert(forall|j: int| 0 <= j < s1.len() - 1 ==> s1.skip(1)[j] == s1[j + 1]);
            assert(forall|j: int| 0 <= j < s2.len() - 1 ==> s2.skip(1)[j] == s2[j + 1]);
            assert(extends(s1.skip(1), s2.skip(1)));
            lemma_first_index_stable(s1.skip(1), s2.skip(1), v);
        }
    }
}

/// A value appended to a list it was absent from gets the next index.
pub proof fn lemma_first_index_of_push_absent<S>(s: Seq<S>, v: S)
    requires
        first_index_of(s, v) == -1,
    ensures
        first_index_of(s.push(v), v) == s.len(),
{
    lemma_first_index_of(s, v);
    assert(forall|j: int| 0 <= j < s.len() ==> s.push(v)[j] == s[j]);
    lemma_first_index_of_is(s.push(v), v, s.len() as int);
}

/// The identity of one action's view.
pub open spec fn abox_of<P, O>(a: ActionView<P, O>) -> ActionBoxView {
    ActionBoxView { id: a.id, hash: a.hash, name: a.name }
}

/// The transition one outcome candidate leaves behind, with its target
/// resolved in a given state list.
pub open spec fn result_tv<S, P, O>(
    from: int,
    a: ActionView<P, O>,
    res: ActionResult<S>,
    states: Seq<S>,
) -> TransitionView {
    TransitionView {
        from,
        to: first_index_of(states, res.state),
        probability: res.probability as int,
        reward: res.reward as int,
        action: abox_of(a),
    }
}

/// Some stack entry at or after position `lo` holds index `idx`.
pub open spec fn stacked_from(w: Seq<int>, lo: int, idx: int) -> bool {
    exists|k: int| lo <= k < w.len() && w[k] == idx
}

/// What recording one candidate does, exactly: one transition appended, its
/// target resolved in the final state list, already-resolved indices
/// untouched, and any new pending index fresh.
pub proof fn lemma_record_result_exact<S, P, O>(
    c: BuildCfg<S>,
    from: int,
    a: ActionView<P, O>,
    res: ActionResult<S>,
)
    requires
        cfg_inv(c),
        0 <= from < c.states.len(),
    ensures
        ({
            let c2 = record_result(c, from, a, res);
            &&& extends(c.states, c2.states)
            &&& first_index_of(c2.states, res.state) >= 0
            &&& c2.transitions == c.transitions.push(result_tv(from, a, res, c2.states))
            &&& forall|v: S|
                first_index_of(c.states, v) >= 0 ==> first_index_of(c2.states, v)
                    == first_index_of(c.states, v)
            &&& extends(c.work, c2.work)
            &&& forall|k: int|
                c.work.len() <= k < c2.work.len() ==> c2.work[k] >= c.states.len()
            &&& forall|idx: int|
                c.states.len() <= idx < c2.states.len() ==> #[trigger] stacked_from(
                    c2.work,
                    c.work.len() as int,
                    idx,
                )
        }),
{
    let c2 = record_result(c, from, a, res);
    lemma_record_result_inv(c, from, a, res);
    let idx = first_index_of(c.states, res.state);
    if idx >= 0 {
        assert(forall|v: S|
            first_index_of(c.states, v) >= 0 ==> first_index_of(c2.states, v) == first_index_of(
                c.states,
                v,
            ));
    } else {
        lemma_first_index_of_push_absent(c.states, res.state);
        assert forall|v: S| first_index_of(c.states, v) >= 0 implies first_index_of(c2.states, v)
            == first_index_of(c.states, v) by {
            lemma_first_index_stable(c.states, c2.states, v);
        }
        assert forall|idx: int| c.states.len() <= idx < c2.states.len() implies #[trigger] stacked_from(
            c2.work,
            c.work.len() as int,
            idx,
        ) by {
            assert(c2.work[c.work.len() as int] == c.states.len() as int);
        }
    }
}


/// The transitions one action's candidate list leaves behind, targets
/// resolved in `states`.
pub open spec fn results_tvs<S, P, O>(
    from: int,
    a: ActionView<P, O>,
    results: Seq<ActionResult<S>>,
    states: Seq<S>,
) -> Seq<TransitionView> {
    results.map_values(|res: ActionResult<S>| result_tv(from, a, res, states))
}

/// Resolved candidate transitions do not change as the state list grows,
/// as long as every candidate's successor is already present.
pub proof fn lemma_results_tvs_stable<S, P, O>(
    from: int,
    a: ActionView<P, O>,
    results: Seq<ActionResult<S>>,
    s1: Seq<S>,
    s2: Seq<S>,
)
    requires
        extends(s1, s2),
        forall|j: int|
            0 <= j < results.len() ==> first_index_of(s1, (#[trigger] results[j]).state) >= 0,
    ensures
        results_tvs(from, a, results, s2) == results_tvs(from, a, results, s1),
{
    assert forall|j: int| 0 <= j < results.len() implies result_tv(from, a, #[trigger] results[j], s2)
        == result_tv(from, a, results[j], s1) by {
        lemma_first_index_stable(s1, s2, results[j].state);
    }
    assert(results_tvs(from, a, results, s2) =~= results_tvs(from, a, results, s1));
}

/// What recording one action's candidates does, exactly: the resolved
/// candidate transitions appended in branch order, every successor present
/// afterwards, already-resolved indices untouched, new pending indices
/// fresh.
pub proof fn lemma_record_results_exact<S, P, O>(
    c: BuildCfg<S>,
    from: int,
    a: ActionView<P, O>,
    results: Seq<ActionResult<S>>,
)
    requires
        cfg_inv(c),
        0 <= from < c.states.len(),
    ensures
        ({
            let c2 = record_results(c, from, a, results);
            &&& extends(c.states, c2.states)
            &&& forall|j: int|
                0 <= j < results.len() ==> first_index_of(c2.states, (#[trigger] results[j]).state)
                    >= 0
            &&& c2.transitions == c.transitions + results_tvs(from, a, results, c2.states)
            &&& forall|v: S|
                first_index_of(c.states, v) >= 0 ==> first_index_of(c2.states, v)
                    == first_index_of(c.states, v)
            &&& extends(c.work, c2.work)
            &&& forall|k: int|
                c.work.len() <= k < c2.work.len() ==> c2.work[k] >= c.states.len()
            &&& forall|k1: int, k2: int|
                c.work.len() <= k1 < k2 < c2.work.len() ==> c2.work[k1] < c2.work[k2]
            &&& forall|idx: int|
                c.states.len() <= idx < c2.states.len() ==> #[trigger] stacked_from(
                    c2.work,
                    c.work.len() as int,
                    idx,
                )
        }),
    decreases results.len(),
{
    let c2 = record_results(c, from, a, results);
    if results.len() == 0 {
        assert(c2.transitions =~= c.transitions + results_tvs(from, a, results, c2.states));
    } else {
        let r0 = results[0];
        let rest = results.skip(1);
        let c1 = record_result(c, from, a, r0);
        lemma_record_result_exact(c, from, a, r0);
        lemma_record_result_inv(c, from, a, r0);
        lemma_record_results_exact(c1, from, a, rest);
        assert(c2 == record_results(c1, from, a, rest));
        let tv0_c1 = result_tv(from, a, r0, c1.states);
        assert(first_index_of(c2.states, r0.state) >= 0 && first_index_of(c2.states, r0.state)
            == first_index_of(c1.states, r0.state));
        assert(result_tv(from, a, r0, c2.states) == tv0_c1);
        assert(forall|j: int| 0 <= j < rest.len() ==> rest[j] == results[j + 1]);
        assert(c2.transitions =~= c.transitions + results_tvs(from, a, results, c2.states)) by {
            assert(c2.transitions == c1.transitions + results_tvs(from, a, rest, c2.states));
            assert(c1.transitions == c.transitions.push(tv0_c1));
            assert(forall|j: int|
                0 <= j < rest.len() ==> results_tvs(from, a, rest, c2.states)[j] == result_tv(
                    from,
                    a,
                    rest[j],
                    c2.states,
                ));
            assert(forall|j: int|
                0 <= j < results.len() ==> results_tvs(from, a, results, c2.states)[j]
                    == result_tv(from, a, results[j], c2.states));
        }
        assert(extends(c.states, c2.states));
        assert forall|j: int| 0 <= j < results.len() implies first_index_of(
            c2.states,
            (#[trigger] results[j]).state,
        ) >= 0 by {
            if j >= 1 {
                assert(results[j] == rest[j - 1]);
            }
        }
        assert forall|v: S| first_index_of(c.states, v) >= 0 implies first_index_of(c2.states, v)
            == first_index_of(c.states, v) by {
            assert(first_index_of(c1.states, v) == first_index_of(c.states, v));
        }
        assert(extends(c.work, c2.work));
        assert forall|k: int| c.work.len() <= k < c2.work.len() implies c2.work[k]
            >= c.states.len() by {
            if k < c1.work.len() {
                assert(c2.work[k] == c1.work[k]);
            } else {
                assert(c2.work[k] >= c1.states.len());
            }
        }
        assert forall|k1: int, k2: int|
            c.work.len() <= k1 < k2 < c2.work.len() implies c2.work[k1] < c2.work[k2] by {
            if k1 < c1.work.len() {
                // The head step pushed at most one entry, within c1's range.
                assert(c2.work[k1] == c1.work[k1]);
                assert(c1.work[k1] < c1.states.len());
                assert(c2.work[k2] >= c1.states.len());
            }
        }
        assert forall|idx: int| c.states.len() <= idx < c2.states.len() implies #[trigger] stacked_from(
            c2.work,
            c.work.len() as int,
            idx,
        ) by {
            if idx < c1.states.len() {
                assert(stacked_from(c1.work, c.work.len() as int, idx));
                let k = choose|k: int|
                    c.work.len() <= k < c1.work.len() && #[trigger] c1.work[k] == idx;
                assert(c2.work[k] == c1.work[k]);
                assert(c.work.len() <= k < c2.work.len() && c2.work[k] == idx);
            } else {
                assert(stacked_from(c2.work, c1.work.len() as int, idx));
                let k = choose|k: int|
                    c1.work.len() <= k < c2.work.len() && #[trigger] c2.work[k] == idx;
                assert(c.work.len() <= k < c2.work.len() && c2.work[k] == idx);
            }
        }
    }
}

/// The transitions one enabled action contributes at one state, targets
/// resolved in `states`.
pub open spec fn action_block<S, P: Precondition<S>, O: Outcome<S>>(
    a: ActionView<P, O>,
    s: S,
    from: int,
    states: Seq<S>,
) -> Seq<TransitionView> {
    results_tvs(from, a, branch_results(a.outcomes, s), states)
}

/// The full expansion of one state: the enabled actions' blocks, in
/// declaration order, targets resolved in `states`.
pub open spec fn expansion<S, P: Precondition<S>, O: Outcome<S>>(
    av: Seq<ActionView<P, O>>,
    s: S,
    from: int,
    states: Seq<S>,
) -> Seq<TransitionView>
    decreases av.len(),
{
    if av.len() == 0 {
        Seq::empty()
    } else {
        (if preconds_hold(av[0].preconditions, s) {
            action_block(av[0], s, from, states)
        } else {
            Seq::empty()
        }) + expansion(av.skip(1), s, from, states)
    }
}

/// Every successor that the enabled actions of `av` can produce from `s` is
/// present in `states`.
pub open spec fn successors_present<S, P: Precondition<S>, O: Outcome<S>>(
    av: Seq<ActionView<P, O>>,
    s: S,
    states: Seq<S>,
) -> bool {
    forall|k: int, b: int|
        0 <= k < av.len() && preconds_hold(av[k].preconditions, s) && 0 <= b
            < av[k].outcomes.len() ==> first_index_of(
            states,
            ((#[trigger] av[k].outcomes[b]).spec_apply(s)).state,
        ) >= 0
}

/// A state's expansion does not change as the state list grows, as long as
/// all its successors are already present.
pub proof fn lemma_expansion_stable<S, P: Precondition<S>, O: Outcome<S>>(
    av: Seq<ActionView<P, O>>,
    s: S,
    from: int,
    s1: Seq<S>,
    s2: Seq<S>,
)
    requires
        extends(s1, s2),
        successors_present(av, s, s1),
    ensures
        expansion(av, s, from, s2) == expansion(av, s, from, s1),
    decreases av.len(),
{
    if av.len() > 0 {
        let rest = av.skip(1);
        assert(forall|k: int| 0 <= k < rest.len() ==> rest[k] == av[k + 1]);
        assert(successors_present(rest, s, s1));
        lemma_expansion_stable(rest, s, from, s1, s2);
        if preconds_hold(av[0].preconditions, s) {
            let results = branch_results(av[0].outcomes, s);
            assert(forall|j: int|
                0 <= j < results.len() ==> first_index_of(s1, (#[trigger] results[j]).state) >= 0);
            lemma_results_tvs_stable(from, av[0], results, s1, s2);
        }
    }
}


/// What expanding one action does, exactly: its block appended when
/// enabled, nothing otherwise.
pub proof fn lemma_apply_action_exact<S, P: Precondition<S>, O: Outcome<S>>(
    c: BuildCfg<S>,
    from: int,
    s: S,
    a: ActionView<P, O>,
)
    requires
        cfg_inv(c),
        0 <= from < c.states.len(),
    ensures
        ({
            let c2 = apply_action(c, from, s, a);
            &&& extends(c.states, c2.states)
            &&& c2.transitions == c.transitions + (if preconds_hold(a.preconditions, s) {
                action_block(a, s, from, c2.states)
            } else {
                Seq::<TransitionView>::empty()
            })
            &&& preconds_hold(a.preconditions, s) ==> forall|b: int|
                0 <= b < a.outcomes.len() ==> first_index_of(
                    c2.states,
                    ((#[trigger] a.outcomes[b]).spec_apply(s)).state,
                ) >= 0
            &&& forall|v: S|
                first_index_of(c.states, v) >= 0 ==> first_index_of(c2.states, v)
                    == first_index_of(c.states, v)
            &&& extends(c.work, c2.work)
            &&& forall|k: int|
                c.work.len() <= k < c2.work.len() ==> c2.work[k] >= c.states.len()
            &&& forall|k1: int, k2: int|
                c.work.len() <= k1 < k2 < c2.work.len() ==> c2.work[k1] < c2.work[k2]
            &&& forall|idx: int|
                c.states.len() <= idx < c2.states.len() ==> #[trigger] stacked_from(
                    c2.work,
                    c.work.len() as int,
                    idx,
                )
        }),
{
    let c2 = apply_action(c, from, s, a);
    if preconds_hold(a.preconditions, s) {
        let results = branch_results(a.outcomes, s);
        lemma_record_results_exact(c, from, a, results);
        assert(forall|b: int|
            0 <= b < a.outcomes.len() ==> results[b] == (#[trigger] a.outcomes[b]).spec_apply(s));
    } else {
        assert(c2.transitions =~= c.transitions + Seq::<TransitionView>::empty());
    }
}

/// What expanding one state fully does, exactly: the enabled actions'
/// blocks appended in declaration order, every reachable successor present
/// afterwards.
pub proof fn lemma_apply_actions_exact<S, P: Precondition<S>, O: Outcome<S>>(
    c: BuildCfg<S>,
    from: int,
    s: S,
    av: Seq<ActionView<P, O>>,
)
    requires
        cfg_inv(c),
        0 <= from < c.states.len(),
    ensures
        ({
            let c2 = apply_actions(c, from, s, av);
            &&& extends(c.states, c2.states)
            &&& c2.transitions == c.transitions + expansion(av, s, from, c2.states)
            &&& successors_present(av, s, c2.states)
            &&& forall|v: S|
                first_index_of(c.states, v) >= 0 ==> first_index_of(c2.states, v)
                    == first_index_of(c.states, v)
            &&& extends(c.work, c2.work)
            &&& forall|k: int|
                c.work.len() <= k < c2.work.len() ==> c2.work[k] >= c.states.len()
            &&& forall|k1: int, k2: int|
                c.work.len() <= k1 < k2 < c2.work.len() ==> c2.work[k1] < c2.work[k2]
            &&& forall|idx: int|
                c.states.len() <= idx < c2.states.len() ==> #[trigger] stacked_from(
                    c2.work,
                    c.work.len() as int,
                    idx,
                )
        }),
    decreases av.len(),
{
    let c2 = apply_actions(c, from, s, av);
    if av.len() == 0 {
        assert(c2.transitions =~= c.transitions + expansion(av, s, from, c2.states));
    } else {
        let a0 = av[0];
        let rest = av.skip(1);
        assert(forall|k: int| 0 <= k < rest.len() ==> rest[k] == av[k + 1]);
        let c1 = apply_action(c, from, s, a0);
        lemma_apply_action_exact(c, from, s, a0);
        lemma_apply_action_inv(c, from, s, a0);
        lemma_apply_actions_exact(c1, from, s, rest);
        assert(c2 == apply_actions(c1, from, s, rest));
        let b0_c1 = if preconds_hold(a0.preconditions, s) {
            action_block(a0, s, from, c1.states)
        } else {
            Seq::<TransitionView>::empty()
        };
        // The first block's targets stay resolved the same way in c2.
        let b0_c2 = if preconds_hold(a0.preconditions, s) {
            action_block(a0, s, from, c2.states)
        } else {
            Seq::<TransitionView>::empty()
        };
        assert(b0_c2 == b0_c1) by {
            if preconds_hold(a0.preconditions, s) {
                let results = branch_results(a0.outcomes, s);
                assert(forall|j: int|
                    0 <= j < results.len() ==> first_index_of(
                        c1.states,
                        (#[trigger] results[j]).state,
                    ) >= 0);
                lemma_results_tvs_stable(from, a0, results, c1.states, c2.states);
            }
        }
        assert(c2.transitions =~= c.transitions + expansion(av, s, from, c2.states)) by {
            assert(c2.transitions == c1.transitions + expansion(rest, s, from, c2.states));
            assert(c1.transitions == c.transitions + b0_c1);
            assert(expansion(av, s, from, c2.states) == b0_c2 + expansion(rest, s, from, c2.states));
        }
        assert(successors_present(av, s, c2.states)) by {
            assert forall|k: int, b: int|
                0 <= k < av.len() && preconds_hold(av[k].preconditions, s) && 0 <= b
                    < av[k].outcomes.len() implies first_index_of(
                c2.states,
                ((#[trigger] av[k].outcomes[b]).spec_apply(s)).state,
            ) >= 0 by {
                if k == 0 {
                    assert(first_index_of(
                        c1.states,
                        (a0.outcomes[b].spec_apply(s)).state,
                    ) >= 0);
                } else {
                    assert(av[k] == rest[k - 1]);
                }
            }
        }
        assert(extends(c.states, c2.states));
        assert forall|v: S| first_index_of(c.states, v) >= 0 implies first_index_of(c2.states, v)
            == first_index_of(c.states, v) by {
            assert(first_index_of(c1.states, v) == first_index_of(c.states, v));
        }
        assert(extends(c.work, c2.work));
        assert forall|k: int| c.work.len() <= k < c2.work.len() implies c2.work[k]
            >= c.states.len() by {
            if k < c1.work.len() {
                assert(c2.work[k] == c1.work[k]);
            } else {
                assert(c2.work[k] >= c1.states.len());
            }
        }
        assert forall|k1: int, k2: int|
            c.work.len() <= k1 < k2 < c2.work.len() implies c2.work[k1] < c2.work[k2] by {
            if k2 < c1.work.len() {
                assert(c2.work[k1] == c1.work[k1]);
                assert(c2.work[k2] == c1.work[k2]);
            } else if k1 < c1.work.len() {
                assert(c2.work[k1] == c1.work[k1]);
                assert(c1.work[k1] < c1.states.len());
                assert(c2.work[k2] >= c1.states.len());
            }
        }
        assert forall|idx: int| c.states.len() <= idx < c2.states.len() implies #[trigger] stacked_from(
            c2.work,
            c.work.len() as int,
            idx,
        ) by {
            if idx < c1.states.len() {
                assert(stacked_from(c1.work, c.work.len() as int, idx));
                let k = choose|k: int|
                    c.work.len() <= k < c1.work.len() && #[trigger] c1.work[k] == idx;
                assert(c2.work[k] == c1.work[k]);
                assert(c.work.len() <= k < c2.work.len() && c2.work[k] == idx);
            } else {
                assert(stacked_from(c2.work, c1.work.len() as int, idx));
                let k = choose|k: int|
                    c1.work.len() <= k < c2.work.len() && #[trigger] c2.work[k] == idx;
                assert(c.work.len() <= k < c2.work.len() && c2.work[k] == idx);
            }
        }
    }
}


/// The transitions leaving state `i`, in recording order.
pub open spec fn from_trans(ts: Seq<TransitionView>, i: int) -> Seq<TransitionView>
    decreases ts.len(),
{
    if ts.len() == 0 {
        Seq::empty()
    } else {
        let p = from_trans(ts.drop_last(), i);
        if ts.last().from == i {
            p.push(ts.last())
        } else {
            p
        }
    }
}

/// The stack holds index `i`.
pub open spec fn work_contains(w: Seq<int>, i: int) -> bool {
    exists|k: int| 0 <= k < w.len() && w[k] == i
}

/// Filtering by source distributes over concatenation.
pub proof fn lemma_from_trans_app(ts1: Seq<TransitionView>, ts2: Seq<TransitionView>, i: int)
    ensures
        from_trans(ts1 + ts2, i) == from_trans(ts1, i) + from_trans(ts2, i),
    decreases ts2.len(),
{
    if ts2.len() == 0 {
        assert(ts1 + ts2 =~= ts1);
        assert(from_trans(ts1, i) + from_trans(ts2, i) =~= from_trans(ts1, i));
    } else {
        assert((ts1 + ts2).drop_last() =~= ts1 + ts2.drop_last());
        assert((ts1 + ts2).last() == ts2.last());
        lemma_from_trans_app(ts1, ts2.drop_last(), i);
        if ts2.last().from == i {
            assert(from_trans(ts1, i) + from_trans(ts2, i) =~= (from_trans(ts1, i) + from_trans(
                ts2.drop_last(),
                i,
            )).push(ts2.last()));
        }
    }
}

/// A list of transitions all leaving `f` filters to itself at `f` and to
/// nothing anywhere else.
pub proof fn lemma_from_trans_uniform(ts: Seq<TransitionView>, f: int, i: int)
    requires
        forall|m: int| 0 <= m < ts.len() ==> (#[trigger] ts[m]).from == f,
    ensures
        i == f ==> from_trans(ts, i) == ts,
        i != f ==> from_trans(ts, i) == Seq::<TransitionView>::empty(),
    decreases ts.len(),
{
    if ts.len() > 0 {
        let front = ts.drop_last();
        assert(forall|m: int| 0 <= m < front.len() ==> front[m] == ts[m]);
        lemma_from_trans_uniform(front, f, i);
        if i == f {
            assert(from_trans(ts, i) =~= ts);
        }
    }
}

/// Every transition of an expansion leaves the expanded state.
pub proof fn lemma_expansion_from<S, P: Precondition<S>, O: Outcome<S>>(
    av: Seq<ActionView<P, O>>,
    s: S,
    from: int,
    states: Seq<S>,
)
    ensures
        forall|m: int|
            0 <= m < expansion(av, s, from, states).len() ==> (#[trigger] expansion(
                av,
                s,
                from,
                states,
            )[m]).from == from,
    decreases av.len(),
{
    if av.len() > 0 {
        lemma_expansion_from(av.skip(1), s, from, states);
        let e = expansion(av, s, from, states);
        let b0 = if preconds_hold(av[0].preconditions, s) {
            action_block(av[0], s, from, states)
        } else {
            Seq::<TransitionView>::empty()
        };
        let rest_e = expansion(av.skip(1), s, from, states);
        assert(e == b0 + rest_e);
        assert forall|m: int| 0 <= m < e.len() implies (#[trigger] e[m]).from == from by {
            if m < b0.len() {
                assert(e[m] == b0[m]);
                assert(b0[m] == result_tv(
                    from,
                    av[0],
                    branch_results(av[0].outcomes, s)[m],
                    states,
                ));
            } else {
                assert(e[m] == rest_e[m - b0.len()]);
            }
        }
    }
}

/// The exactness invariant of the search: stack indices are pairwise
/// distinct; a state still on the stack has contributed no transitions; a
/// state already popped has contributed exactly its expansion, with every
/// successor it can produce already discovered.
pub open spec fn exact_inv<S, P: Precondition<S>, O: Outcome<S>>(
    c: BuildCfg<S>,
    av: Seq<ActionView<P, O>>,
) -> bool {
    &&& forall|k1: int, k2: int| 0 <= k1 < k2 < c.work.len() ==> c.work[k1] != c.work[k2]
    &&& forall|i: int|
        0 <= i < c.states.len() && work_contains(c.work, i) ==> from_trans(c.transitions, i)
            == Seq::<TransitionView>::empty()
    &&& forall|i: int|
        0 <= i < c.states.len() && !work_contains(c.work, i) ==> from_trans(c.transitions, i)
            == expansion(av, #[trigger] c.states[i], i, c.states) && successors_present(
            av,
            c.states[i],
            c.states,
        )
}

/// One search step preserves the exactness invariant.
pub proof fn lemma_build_step_exact<S, P: Precondition<S>, O: Outcome<S>>(
    c: BuildCfg<S>,
    av: Seq<ActionView<P, O>>,
)
    requires
        cfg_inv(c),
        exact_inv(c, av),
    ensures
        exact_inv(build_step(c, av), av),
{
    if c.work.len() == 0 {
        return ;
    }
    let i = c.work.last();
    let popped = BuildCfg { states: c.states, work: c.work.drop_last(), transitions: c.transitions };
    let s = c.states[i];
    let c2 = apply_actions(popped, i, s, av);
    lemma_apply_actions_exact(popped, i, s, av);
    lemma_apply_actions_inv(popped, i, s, av);
    let fresh = expansion(av, s, i, c2.states);
    lemma_expansion_from(av, s, i, c2.states);
    assert(forall|k: int| 0 <= k < popped.work.len() ==> popped.work[k] == c.work[k]);
    // Stack indices stay pairwise distinct: old ones were, new ones are
    // fresh and increasing.
    assert(forall|k1: int, k2: int| 0 <= k1 < k2 < c2.work.len() ==> c2.work[k1] != c2.work[k2])
        by {
        assert forall|k1: int, k2: int|
            0 <= k1 < k2 < c2.work.len() implies c2.work[k1] != c2.work[k2] by {
            if k2 < popped.work.len() {
                assert(c2.work[k1] == c.work[k1] && c2.work[k2] == c.work[k2]);
            } else if k1 < popped.work.len() {
                assert(c2.work[k1] == c.work[k1]);
                assert(c.work[k1] < c.states.len());
                assert(c2.work[k2] >= c.states.len());
            }
        }
    }
    // The popped index is gone from the stack for good.
    assert(!work_contains(c2.work, i)) by {
        assert forall|k: int| 0 <= k < c2.work.len() implies c2.work[k] != i by {
            if k < popped.work.len() {
                assert(c2.work[k] == c.work[k]);
                assert(c.work[k] != c.work.last());
            } else {
                assert(c2.work[k] >= c.states.len());
                assert(i < c.states.len());
            }
        }
    }
    assert forall|j: int|
        0 <= j < c2.states.len() && work_contains(c2.work, j) implies from_trans(
        c2.transitions,
        j,
    ) == Seq::<TransitionView>::empty() by {
        lemma_from_trans_app(c.transitions, fresh, j);
        assert(j != i);
        lemma_from_trans_uniform(fresh, i, j);
        if j < c.states.len() {
            // A state on the new stack below the fresh entries was on the
            // old stack too.
            assert(work_contains(c.work, j)) by {
                let k = choose|k: int| 0 <= k < c2.work.len() && c2.work[k] == j;
                assert(k < popped.work.len());
                assert(c.work[k] == j);
            }
            assert(from_trans(c.transitions, j) == Seq::<TransitionView>::empty());
        } else {
            // A freshly discovered state: nothing recorded leaves it.
            assert forall|m: int|
                0 <= m < c.transitions.len() implies (#[trigger] c.transitions[m]).from != j by {}
            lemma_from_trans_uniform_absent(c.transitions, j);
        }
        assert(from_trans(c2.transitions, j) =~= Seq::<TransitionView>::empty());
    }
    assert forall|j: int|
        0 <= j < c2.states.len() && !work_contains(c2.work, j) implies from_trans(
        c2.transitions,
        j,
    ) == expansion(av, #[trigger] c2.states[j], j, c2.states) && successors_present(
        av,
        c2.states[j],
        c2.states,
    ) by {
        lemma_from_trans_app(c.transitions, fresh, j);
        lemma_from_trans_uniform(fresh, i, j);
        if j == i {
            assert(from_trans(c.transitions, i) == Seq::<TransitionView>::empty()) by {
                assert(work_contains(c.work, i));
            }
            assert(from_trans(c2.transitions, j) =~= fresh);
        } else if j < c.states.len() {
            // j is absent from the new stack, whose lower part is the old
            // stack minus its top, so j was absent from the old stack too.
            assert(!work_contains(c.work, j)) by {
                if work_contains(c.work, j) {
                    let k = choose|k: int| 0 <= k < c.work.len() && c.work[k] == j;
                    assert(k < c.work.len() - 1);
                    assert(c2.work[k] == j);
                }
            }
            assert(from_trans(c.transitions, j) == expansion(av, c.states[j], j, c.states));
            assert(successors_present(av, c.states[j], c.states));
            lemma_expansion_stable(av, c.states[j], j, c.states, c2.states);
            assert(from_trans(c2.transitions, j) =~= expansion(av, c2.states[j], j, c2.states));
            assert(successors_present(av, c2.states[j], c2.states)) by {
                assert forall|k: int, b: int|
                    0 <= k < av.len() && preconds_hold(av[k].preconditions, c2.states[j]) && 0 <= b
                        < av[k].outcomes.len() implies first_index_of(
                    c2.states,
                    ((#[trigger] av[k].outcomes[b]).spec_apply(c2.states[j])).state,
                ) >= 0 by {
                    lemma_first_index_stable(
                        c.states,
                        c2.states,
                        (av[k].outcomes[b].spec_apply(c.states[j])).state,
                    );
                }
            }
        } else {
            // A freshly discovered state is still on the stack.
            assert(false) by {
                assert(stacked_from(c2.work, popped.work.len() as int, j));
                let k = choose|k: int|
                    popped.work.len() <= k < c2.work.len() && #[trigger] c2.work[k] == j;
                assert(work_contains(c2.work, j));
            }
        }
    }
}

/// Nothing recorded leaves an index that no transition names.
pub proof fn lemma_from_trans_uniform_absent(ts: Seq<TransitionView>, j: int)
    requires
        forall|m: int| 0 <= m < ts.len() ==> (#[trigger] ts[m]).from != j,
    ensures
        from_trans(ts, j) == Seq::<TransitionView>::empty(),
    decreases ts.len(),
{
    if ts.len() > 0 {
        let front = ts.drop_last();
        assert(forall|m: int| 0 <= m < front.len() ==> front[m] == ts[m]);
        lemma_from_trans_uniform_absent(front, j);
    }
}


proof fn lemma_iter_from_exact<S, P: Precondition<S>, O: Outcome<S>>(
    c: BuildCfg<S>,
    av: Seq<ActionView<P, O>>,
    n: nat,
)
    requires
        cfg_inv(c),
        exact_inv(c, av),
    ensures
        exact_inv(iter_from(c, av, n), av),
    decreases n,
{
    if n > 0 {
        lemma_build_step_exact(c, av);
        lemma_build_step_inv(c, av);
        lemma_iter_from_exact(build_step(c, av), av, (n - 1) as nat);
    }
}

/// Grouping looks only at the transitions leaving the grouped state.
pub proof fn lemma_groups_of_from_trans(ts: Seq<TransitionView>, i: int)
    ensures
        groups_of(ts, i) == groups_of(from_trans(ts, i), i),
    decreases ts.len(),
{
    if ts.len() > 0 {
        lemma_groups_of_from_trans(ts.drop_last(), i);
        if ts.last().from == i {
            let ft = from_trans(ts, i);
            assert(ft == from_trans(ts.drop_last(), i).push(ts.last()));
            assert(ft.drop_last() =~= from_trans(ts.drop_last(), i));
            assert(ft.last() == ts.last());
        }
    }
}

/// The frozen graph is exact: every state's adjacency is precisely the
/// grouping of its expansion — the enabled actions' branch results, in
/// declaration and branch order, with successors resolved to their state
/// indices.  Nothing else is ever recorded, and nothing is left out.
pub proof fn lemma_built_from_exact<S, P: Precondition<S>, O: Outcome<S>>(
    m: MdpView<S>,
    initial: S,
    av: Seq<ActionView<P, O>>,
)
    requires
        m.is_built_from(initial, av),
    ensures
        forall|i: int|
            0 <= i < m.states.len() ==> m.groups[i] == groups_of(
                expansion(av, #[trigger] m.states[i], i, m.states),
                i,
            ),
        forall|i: int|
            0 <= i < m.states.len() ==> successors_present(av, #[trigger] m.states[i], m.states),
{
    let n = choose|n: nat|
        (#[trigger] build_iter(initial, av, n)).work.len() == 0 && m.matches_cfg(
            build_iter(initial, av, n),
        );
    let c = build_iter(initial, av, n);
    let c0 = init_cfg(initial);
    assert(cfg_inv(c0));
    assert(exact_inv(c0, av)) by {
        assert(work_contains(c0.work, 0)) by {
            assert(c0.work[0] == 0);
        }
        assert(forall|i: int|
            0 <= i < c0.states.len() && work_contains(c0.work, i) ==> from_trans(
                c0.transitions,
                i,
            ) == Seq::<TransitionView>::empty());
        assert forall|i: int|
            0 <= i < c0.states.len() && !work_contains(c0.work, i) implies from_trans(
            c0.transitions,
            i,
        ) == expansion(av, #[trigger] c0.states[i], i, c0.states) && successors_present(
            av,
            c0.states[i],
            c0.states,
        ) by {
            assert(i == 0);
            assert(false);
        }
    }
    lemma_iter_from_exact(c0, av, n);
    assert forall|i: int| 0 <= i < m.states.len() implies m.groups[i] == groups_of(
        expansion(av, #[trigger] m.states[i], i, m.states),
        i,
    ) && successors_present(av, m.states[i], m.states) by {
        assert(!work_contains(c.work, i));
        assert(from_trans(c.transitions, i) == expansion(av, c.states[i], i, c.states));
        lemma_groups_of_from_trans(c.transitions, i);
        assert(m.groups[i] == groups_of(c.transitions, i));
    }
}


/// Files a list of transitions into an existing grouping, in order.
pub open spec fn groups_fold(gs: Seq<GroupView>, ts: Seq<TransitionView>, i: int) -> Seq<GroupView>
    decreases ts.len(),
{
    if ts.len() == 0 {
        gs
    } else {
        let g2 = groups_fold(gs, ts.drop_last(), i);
        if ts.last().from == i {
            add_to_groups(g2, ts.last())
        } else {
            g2
        }
    }
}

/// Grouping a whole list is folding it into the empty grouping.
pub proof fn lemma_groups_of_is_fold(ts: Seq<TransitionView>, i: int)
    ensures
        groups_of(ts, i) == groups_fold(Seq::empty(), ts, i),
    decreases ts.len(),
{
    if ts.len() > 0 {
        lemma_groups_of_is_fold(ts.drop_last(), i);
    }
}

/// Folding distributes over concatenation.
pub proof fn lemma_groups_fold_app(
    gs: Seq<GroupView>,
    x: Seq<TransitionView>,
    y: Seq<TransitionView>,
    i: int,
)
    ensures
        groups_fold(gs, x + y, i) == groups_fold(groups_fold(gs, x, i), y, i),
    decreases y.len(),
{
    if y.len() == 0 {
        assert(x + y =~= x);
    } else {
        assert((x + y).drop_last() =~= x + y.drop_last());
        assert((x + y).last() == y.last());
        lemma_groups_fold_app(gs, x, y.drop_last(), i);
    }
}

/// Folding one identity-homogeneous block whose identity is fresh opens
/// exactly one new group holding the whole block.
pub proof fn lemma_groups_fold_block(
    gs: Seq<GroupView>,
    ts: Seq<TransitionView>,
    i: int,
    ab: ActionBoxView,
)
    requires
        ts.len() > 0,
        forall|m: int|
            0 <= m < ts.len() ==> (#[trigger] ts[m]).from == i && ts[m].action == ab,
        forall|g: int| 0 <= g < gs.len() ==> !same_identity((#[trigger] gs[g]).action, ab),
    ensures
        groups_fold(gs, ts, i) == gs.push(GroupView { action: ab, transitions: ts }),
    decreases ts.len(),
{
    let front = ts.drop_last();
    assert(forall|m: int| 0 <= m < front.len() ==> front[m] == ts[m]);
    if front.len() == 0 {
        lemma_add_to_groups_missing(gs, ts.last());
        assert(seq![ts.last()] =~= ts);
        assert(groups_fold(gs, ts.drop_last(), i) == gs);
        assert(groups_fold(gs, ts, i) == add_to_groups(gs, ts.last()));
        assert(groups_fold(gs, ts, i) == gs.push(
            GroupView { action: ts.last().action, transitions: seq![ts.last()] },
        ));
        assert(GroupView { action: ts.last().action, transitions: seq![ts.last()] } == (GroupView {
            action: ab,
            transitions: ts,
        }));
    } else {
        lemma_groups_fold_block(gs, front, i, ab);
        let mid = gs.push(GroupView { action: ab, transitions: front });
        assert(forall|g: int| 0 <= g < gs.len() ==> mid[g] == gs[g]);
        lemma_add_to_groups_found(mid, ts.last(), gs.len() as int);
        assert(groups_fold(gs, ts, i) == mid.update(
            gs.len() as int,
            GroupView { action: ab, transitions: front.push(ts.last()) },
        ));
        assert(front.push(ts.last()) =~= ts);
        assert(mid.update(
            gs.len() as int,
            GroupView { action: ab, transitions: ts },
        ) =~= gs.push(GroupView { action: ab, transitions: ts }));
    }
}

/// The adjacency a state's expansion groups into: one group per enabled
/// action with at least one outcome branch, in declaration order.
pub open spec fn enabled_groups<S, P: Precondition<S>, O: Outcome<S>>(
    av: Seq<ActionView<P, O>>,
    s: S,
    i: int,
    states: Seq<S>,
) -> Seq<GroupView>
    decreases av.len(),
{
    if av.len() == 0 {
        Seq::empty()
    } else {
        let rest = enabled_groups(av.skip(1), s, i, states);
        if preconds_hold(av[0].preconditions, s) && av[0].outcomes.len() > 0 {
            seq![
                GroupView { action: abox_of(av[0]), transitions: action_block(av[0], s, i, states) },
            ] + rest
        } else {
            rest
        }
    }
}

/// No two action declarations share an identity.
pub open spec fn distinct_identities<P, O>(av: Seq<ActionView<P, O>>) -> bool {
    forall|k1: int, k2: int|
        0 <= k1 < k2 < av.len() ==> !((#[trigger] av[k1]).id == (#[trigger] av[k2]).id
            && av[k1].hash == av[k2].hash)
}

/// Every group an expansion's fold produces is one declared action's group.
proof fn lemma_groups_fold_expansion<S, P: Precondition<S>, O: Outcome<S>>(
    gs: Seq<GroupView>,
    av: Seq<ActionView<P, O>>,
    s: S,
    i: int,
    states: Seq<S>,
)
    requires
        distinct_identities(av),
        forall|g: int, k: int|
            0 <= g < gs.len() && 0 <= k < av.len() ==> !same_identity(
                (#[trigger] gs[g]).action,
                abox_of(#[trigger] av[k]),
            ),
    ensures
        groups_fold(gs, expansion(av, s, i, states), i) == gs + enabled_groups(av, s, i, states),
    decreases av.len(),
{
    if av.len() == 0 {
        assert(gs + enabled_groups(av, s, i, states) =~= gs);
    } else {
        let a0 = av[0];
        let rest = av.skip(1);
        assert(forall|k: int| 0 <= k < rest.len() ==> rest[k] == av[k + 1]);
        let b0 = if preconds_hold(a0.preconditions, s) {
            action_block(a0, s, i, states)
        } else {
            Seq::<TransitionView>::empty()
        };
        let rest_e = expansion(rest, s, i, states);
        assert(expansion(av, s, i, states) == b0 + rest_e);
        lemma_groups_fold_app(gs, b0, rest_e, i);
        if preconds_hold(a0.preconditions, s) && a0.outcomes.len() > 0 {
            assert(b0.len() == a0.outcomes.len());
            assert(forall|m: int|
                0 <= m < b0.len() ==> (#[trigger] b0[m]) == result_tv(
                    i,
                    a0,
                    branch_results(a0.outcomes, s)[m],
                    states,
                ));
            lemma_groups_fold_block(gs, b0, i, abox_of(a0));
            let gs2 = gs.push(GroupView { action: abox_of(a0), transitions: b0 });
            assert(forall|g: int| 0 <= g < gs.len() ==> gs2[g] == gs[g]);
            assert(forall|g: int, k: int|
                0 <= g < gs2.len() && 0 <= k < rest.len() ==> !same_identity(
                    (#[trigger] gs2[g]).action,
                    abox_of(#[trigger] rest[k]),
                ));
            lemma_groups_fold_expansion(gs2, rest, s, i, states);
            assert(gs2 + enabled_groups(rest, s, i, states) =~= gs + enabled_groups(
                av,
                s,
                i,
                states,
            ));
        } else {
            assert(b0.len() == 0);
            assert(groups_fold(gs, b0, i) == gs);
            lemma_groups_fold_expansion(gs, rest, s, i, states);
            assert(gs + enabled_groups(rest, s, i, states) =~= gs + enabled_groups(
                av,
                s,
                i,
                states,
            ));
        }
    }
}

/// Under distinct identities, a state's adjacency is exactly one group per
/// enabled action with at least one branch, in declaration order.
pub proof fn lemma_groups_of_expansion<S, P: Precondition<S>, O: Outcome<S>>(
    av: Seq<ActionView<P, O>>,
    s: S,
    i: int,
    states: Seq<S>,
)
    requires
        distinct_identities(av),
    ensures
        groups_of(expansion(av, s, i, states), i) == enabled_groups(av, s, i, states),
{
    lemma_groups_of_is_fold(expansion(av, s, i, states), i);
    lemma_groups_fold_expansion(Seq::empty(), av, s, i, states);
    assert(Seq::empty() + enabled_groups(av, s, i, states) =~= enabled_groups(av, s, i, states));
}

} // verus!
