//! Action definitions.
//!
//! A client supplies a state type (implementing [`State`]), action payload
//! types (implementing [`ActionType`]) and the gating / outcome logic of each
//! action (implementing [`Precondition`] and [`Outcome`]).  Heterogeneous
//! preconditions or outcomes of one problem are expressed as variants of one
//! client enum, so a single type parameter covers them all.
//!
//! An action's identity is its payload's content hash combined with the
//! disambiguating sequence number assigned when it is registered, so no two
//! registered actions collide — except when two distinct payloads share a
//! hash, a deliberate hazard kept from the identity contract.

use core::marker::PhantomData;
use vstd::prelude::*;

verus! {

/// A client-supplied state: an opaque value with decidable value equality
/// and a deterministic content hash.
pub trait State: Sized {
    /// The content hash, as a mathematical function of the state value.
    spec fn spec_hash(&self) -> u64;

    /// Decides value equality of two states.
    fn eq_state(&self, other: &Self) -> (r: bool)
        ensures
            r == (self == other),
    ;

    /// A deterministic hash over the full contents of the state.
    fn get_hash(&self) -> (r: u64)
        ensures
            r == self.spec_hash(),
    ;
}

/// An action payload: anything with a content hash and a display form, both
/// deterministic in the payload value.
pub trait ActionType: Sized {
    /// The content hash, as a mathematical function of the payload.
    spec fn spec_hash(&self) -> u64;

    /// The display form, as a mathematical function of the payload.
    spec fn spec_name(&self) -> Seq<char>;

    /// The content hash used for action identity.
    fn hash(&self) -> (r: u64)
        ensures
            r == self.spec_hash(),
    ;

    /// The human-readable form of the payload.
    fn to_string(&self) -> (r: String)
        ensures
            r@ == self.spec_name(),
    ;
}

/// One gating predicate of an action: a pure function of the state.
pub trait Precondition<S>: Sized {
    /// What the predicate decides, at the specification level.
    spec fn spec_holds(&self, s: S) -> bool;

    /// Evaluates the predicate on a state.
    fn holds(&self, s: &S) -> (r: bool)
        ensures
            r == self.spec_holds(*s),
    ;
}

/// One probabilistic outcome branch of an action: from a given state it
/// produces a successor state, the branch probability and the reward, all
/// as a pure function of the state.  The probability is taken at face
/// value; nothing checks that one action's branches sum to one.
pub trait Outcome<S>: Sized {
    /// The branch's result, at the specification level.
    spec fn spec_apply(&self, s: S) -> ActionResult<S>;

    /// Evaluates the branch on a state.
    fn apply(&self, s: &S) -> (r: ActionResult<S>)
        ensures
            r == self.spec_apply(*s),
    ;
}

/// What evaluating one outcome branch at one state yields: a successor
/// state, the branch probability and the reward (both fixed-point).
pub struct ActionResult<S> {
    pub state: S,
    pub probability: i64,
    pub reward: i64,
}

/// The identity and display form of a registered action: the payload's
/// content hash plus the sequence number assigned at registration.
pub struct ActionBox {
    id: usize,
    hash: u64,
    name: String,
}

/// The mathematical content of an [`ActionBox`].
#[verifier::ext_equal]
pub ghost struct ActionBoxView {
    pub id: int,
    pub hash: int,
    pub name: Seq<char>,
}

impl View for ActionBox {
    type V = ActionBoxView;

    closed spec fn view(&self) -> ActionBoxView {
        ActionBoxView { id: self.id as int, hash: self.hash as int, name: self.name@ }
    }
}

impl ActionBox {
    /// Packs an identity: sequence number, payload hash, display form.
    pub(crate) fn new(id: usize, hash: u64, name: String) -> (r: ActionBox)
        ensures
            r@ == (ActionBoxView { id: id as int, hash: hash as int, name: name@ }),
    {
        ActionBox { id, hash, name }
    }

    /// The display form of the action's payload.
    pub fn to_string(&self) -> (r: String)
        ensures
            r@ == self@.name,
    {
        self.name.clone()
    }

    /// The sequence number assigned when the action was registered.
    pub fn id(&self) -> (r: usize)
        ensures
            r as int == self@.id,
    {
        self.id
    }

    /// The content hash of the action's payload.
    pub fn content_hash(&self) -> (r: u64)
        ensures
            r as int == self@.hash,
    {
        self.hash
    }
}

impl Clone for ActionBox {
    fn clone(&self) -> (r: Self)
        ensures
            r == *self,
    {
        ActionBox { id: self.id, hash: self.hash, name: self.name.clone() }
    }
}

impl PartialEq for ActionBox {
    /// Identity equality: hash plus sequence number; the display form does
    /// not take part, matching the identity contract.
    fn eq(&self, other: &Self) -> (r: bool) {
        self.id == other.id && self.hash == other.hash
    }
}

impl vstd::std_specs::cmp::PartialEqSpecImpl for ActionBox {
    open spec fn obeys_eq_spec() -> bool {
        true
    }

    open spec fn eq_spec(&self, other: &Self) -> bool {
        self@.id == other@.id && self@.hash == other@.hash
    }
}

/// All preconditions hold at `s`; vacuously true of an empty list.
pub open spec fn preconds_hold<S, P: Precondition<S>>(pres: Seq<P>, s: S) -> bool {
    forall|k: int| 0 <= k < pres.len() ==> #[trigger] pres[k].spec_holds(s)
}

/// One candidate result per outcome branch, in branch order.
pub open spec fn branch_results<S, O: Outcome<S>>(outs: Seq<O>, s: S) -> Seq<ActionResult<S>> {
    outs.map_values(|o: O| o.spec_apply(s))
}

/// A registered concrete action: identity, ordered gating predicates and
/// ordered outcome branches.
pub struct Action<S, P, O> {
    action: ActionBox,
    preconditions: Vec<P>,
    outcomes: Vec<O>,
    state_type: PhantomData<S>,
}

/// The mathematical content of an [`Action`].
#[verifier::ext_equal]
pub ghost struct ActionView<P, O> {
    pub id: int,
    pub hash: int,
    pub name: Seq<char>,
    pub preconditions: Seq<P>,
    pub outcomes: Seq<O>,
}

impl<S, P, O> View for Action<S, P, O> {
    type V = ActionView<P, O>;

    closed spec fn view(&self) -> ActionView<P, O> {
        ActionView {
            id: self.action@.id,
            hash: self.action@.hash,
            name: self.action@.name,
            preconditions: self.preconditions@,
            outcomes: self.outcomes@,
        }
    }
}

impl<S, P: Precondition<S>, O: Outcome<S>> Action<S, P, O> {
    /// The action applies at `s`: the conjunction of its preconditions.
    pub open spec fn spec_enabled(&self, s: S) -> bool {
        preconds_hold(self@.preconditions, s)
    }

    /// Evaluates the conjunction of the action's preconditions at a state.
    pub fn preconditions_valid(&self, state: &S) -> (r: bool)
        ensures
            r == self.spec_enabled(*state),
    {
        let mut k: usize = 0;
        while k < self.preconditions.len()
            invariant
                k <= self.preconditions.len(),
                forall|j: int| 0 <= j < k ==> #[trigger] self.preconditions@[j].spec_holds(
                    *state,
                ),
            decreases self.preconditions.len() - k,
        {
            if !self.preconditions[k].holds(state) {
                return false;
            }
            k += 1;
        }
        true
    }

    /// Evaluates every outcome branch against the given state, returning one
    /// candidate (successor, probability, reward) per branch, in branch order.
    pub fn get_successor_states(&self, state: &S) -> (r: Vec<ActionResult<S>>)
        ensures
            r@ == branch_results(self@.outcomes, *state),
    {
        let mut r: Vec<ActionResult<S>> = Vec::new();
        let mut k: usize = 0;
        while k < self.outcomes.len()
            invariant
                k <= self.outcomes.len(),
                r@.len() == k,
                forall|j: int| 0 <= j < k ==> r@[j] == #[trigger] self.outcomes@[j].spec_apply(
                    *state,
                ),
            decreases self.outcomes.len() - k,
        {
            r.push(self.outcomes[k].apply(state));
            k += 1;
        }
        proof {
            assert(r@ =~= branch_results(self@.outcomes, *state));
        }
        r
    }

    /// The identity of this action.
    pub fn action(&self) -> (r: ActionBox)
        ensures
            r@.id == self@.id,
            r@.hash == self@.hash,
            r@.name == self@.name,
    {
        self.action.clone()
    }
}

/// Builds one concrete action out of a payload, explicitly added
/// preconditions and explicitly added outcome branches.
pub struct SingleActionBuilder<S, A, P, O> {
    action: A,
    preconditions: Vec<P>,
    outcomes: Vec<O>,
    state_type: PhantomData<S>,
}

/// The mathematical content of a [`SingleActionBuilder`].
#[verifier::ext_equal]
pub ghost struct SingleActionBuilderView<A, P, O> {
    pub action: A,
    pub preconditions: Seq<P>,
    pub outcomes: Seq<O>,
}

impl<S, A, P, O> View for SingleActionBuilder<S, A, P, O> {
    type V = SingleActionBuilderView<A, P, O>;

    closed spec fn view(&self) -> SingleActionBuilderView<A, P, O> {
        SingleActionBuilderView {
            action: self.action,
            preconditions: self.preconditions@,
            outcomes: self.outcomes@,
        }
    }
}

impl<S, A: ActionType, P: Precondition<S>, O: Outcome<S>> SingleActionBuilder<S, A, P, O> {
    /// Starts a builder around one action payload, with no preconditions and
    /// no outcomes yet.
    pub fn new(action: A) -> (r: Self)
        ensures
            r@.action == action,
            r@.preconditions =~= Seq::<P>::empty(),
            r@.outcomes =~= Seq::<O>::empty(),
    {
        SingleActionBuilder {
            action,
            preconditions: Vec::new(),
            outcomes: Vec::new(),
            state_type: PhantomData,
        }
    }

    /// Appends one gating predicate.
    pub fn precondition(self, valid: P) -> (r: Self)
        ensures
            r@.action == self@.action,
            r@.preconditions == self@.preconditions.push(valid),
            r@.outcomes == self@.outcomes,
    {
        let mut s = self;
        s.preconditions.push(valid);
        s
    }

    /// Appends one outcome branch.
    pub fn outcome(self, effect: O) -> (r: Self)
        ensures
            r@.action == self@.action,
            r@.preconditions == self@.preconditions,
            r@.outcomes == self@.outcomes.push(effect),
    {
        let mut s = self;
        s.outcomes.push(effect);
        s
    }
}

/// A source of registered actions; the sequence number handed to `build`
/// becomes part of the identity of every action it produces.
pub trait IActionBuilder<S, P: Precondition<S>, O: Outcome<S>>: Sized {
    /// The actions `build` produces, at the specification level.
    spec fn spec_build(&self, action_index: int) -> Seq<ActionView<P, O>>;

    /// Produces the concrete actions registered under `action_index`.
    fn build(self, action_index: usize) -> (r: Vec<Action<S, P, O>>)
        ensures
            r@.map_values(|a: Action<S, P, O>| a@) == self.spec_build(action_index as int),
    ;
}

impl<S, A: ActionType, P: Precondition<S>, O: Outcome<S>> IActionBuilder<S, P, O>
    for SingleActionBuilder<S, A, P, O> {
    open spec fn spec_build(&self, action_index: int) -> Seq<ActionView<P, O>> {
        seq![
            ActionView {
                id: action_index,
                hash: self@.action.spec_hash() as int,
                name: self@.action.spec_name(),
                preconditions: self@.preconditions,
                outcomes: self@.outcomes,
            },
        ]
    }

    fn build(self, action_index: usize) -> (r: Vec<Action<S, P, O>>) {
        let hash = self.action.hash();
        let name = self.action.to_string();
        let built: Action<S, P, O> = Action {
            action: ActionBox::new(action_index, hash, name),
            preconditions: self.preconditions,
            outcomes: self.outcomes,
            state_type: PhantomData,
        };
        let mut r: Vec<Action<S, P, O>> = Vec::new();
        r.push(built);
        proof {
            assert(r@.map_values(|a: Action<S, P, O>| a@) =~= self.spec_build(
                action_index as int,
            ));
        }
        r
    }
}

/// A parameter domain for a grounding action family: a finite, enumerable
/// set of payload values.
pub trait GrounableAction: Sized {
    /// The domain, at the specification level, in enumeration order.
    spec fn spec_enumerate() -> Seq<Self>;

    /// Enumerates the whole domain.
    fn enumerate() -> (r: Vec<Self>)
        ensures
            r@ == Self::spec_enumerate(),
    ;
}

/// A template of a grounding action family: given one concrete domain value
/// it produces that instance's gating predicate or outcome branch, as a pure
/// function of the domain value.
pub trait Ground<A, T>: Sized {
    /// What grounding yields, at the specification level.
    spec fn spec_ground(&self, instance: A) -> T;

    /// Produces the concrete predicate or branch for one domain value.
    fn ground(&self, instance: &A) -> (r: T)
        ensures
            r == self.spec_ground(*instance),
    ;
}

/// Builds a parametrized action family: templates declared once are expanded,
/// at build time, into one concrete action per domain value, all sharing one
/// sequence number and distinguished by their payload hashes.
pub struct GroundingActionBuilder<S, A, TP, TO, P, O> {
    preconditions: Vec<TP>,
    outcomes: Vec<TO>,
    state_type: PhantomData<(S, A, P, O)>,
}

/// The mathematical content of a [`GroundingActionBuilder`].
#[verifier::ext_equal]
pub ghost struct GroundingActionBuilderView<TP, TO> {
    pub preconditions: Seq<TP>,
    pub outcomes: Seq<TO>,
}

impl<S, A, TP, TO, P, O> View for GroundingActionBuilder<S, A, TP, TO, P, O> {
    type V = GroundingActionBuilderView<TP, TO>;

    closed spec fn view(&self) -> GroundingActionBuilderView<TP, TO> {
        GroundingActionBuilderView {
            preconditions: self.preconditions@,
            outcomes: self.outcomes@,
        }
    }
}

impl<
    S,
    A: ActionType + GrounableAction,
    TP: Ground<A, P>,
    TO: Ground<A, O>,
    P: Precondition<S>,
    O: Outcome<S>,
> GroundingActionBuilder<S, A, TP, TO, P, O> {
    /// Starts an empty family builder.
    pub fn new() -> (r: Self)
        ensures
            r@.preconditions =~= Seq::<TP>::empty(),
            r@.outcomes =~= Seq::<TO>::empty(),
    {
        GroundingActionBuilder {
            preconditions: Vec::new(),
            outcomes: Vec::new(),
            state_type: PhantomData,
        }
    }

    /// Appends one gating-predicate template.
    pub fn precondition(self, valid: TP) -> (r: Self)
        ensures
            r@.preconditions == self@.preconditions.push(valid),
            r@.outcomes == self@.outcomes,
    {
        let mut s = self;
        s.preconditions.push(valid);
        s
    }

    /// Appends one outcome-branch template.
    pub fn outcome(self, effect: TO) -> (r: Self)
        ensures
            r@.preconditions == self@.preconditions,
            r@.outcomes == self@.outcomes.push(effect),
    {
        let mut s = self;
        s.outcomes.push(effect);
        s
    }
}

/// The view of the one grounded action that a family's templates produce for
/// the domain value `a` under sequence number `action_index`.
pub open spec fn grounded_view<S, A: ActionType, TP: Ground<A, P>, TO: Ground<A, O>, P: Precondition<
    S,
>, O: Outcome<S>>(preconditions: Seq<TP>, outcomes: Seq<TO>, action_index: int, a: A) -> ActionView<
    P,
    O,
> {
    ActionView {
        id: action_index,
        hash: a.spec_hash() as int,
        name: a.spec_name(),
        preconditions: preconditions.map_values(|t: TP| t.spec_ground(a)),
        outcomes: outcomes.map_values(|t: TO| t.spec_ground(a)),
    }
}

impl<
    S,
    A: ActionType + GrounableAction,
    TP: Ground<A, P>,
    TO: Ground<A, O>,
    P: Precondition<S>,
    O: Outcome<S>,
> IActionBuilder<S, P, O> for GroundingActionBuilder<S, A, TP, TO, P, O> {
    open spec fn spec_build(&self, action_index: int) -> Seq<ActionView<P, O>> {
        A::spec_enumerate().map_values(
            |a: A| grounded_view(self@.preconditions, self@.outcomes, action_index, a),
        )
    }

    fn build(self, action_index: usize) -> (r: Vec<Action<S, P, O>>) {
        let instances = A::enumerate();
        let mut r: Vec<Action<S, P, O>> = Vec::new();
        let mut i: usize = 0;
        while i < instances.len()
            invariant
                i <= instances.len(),
                instances@ == A::spec_enumerate(),
                r@.len() == i,
                forall|j: int| 0 <= j < i ==> #[trigger] r@[j]@ == grounded_view(
                    self.preconditions@,
                    self.outcomes@,
                    action_index as int,
                    instances@[j],
                ),
            decreases instances.len() - i,
        {
            let instance = &instances[i];
            let mut pres: Vec<P> = Vec::new();
            let mut k: usize = 0;
            while k < self.preconditions.len()
                invariant
                    k <= self.preconditions.len(),
                    pres@.len() == k,
                    forall|j: int| 0 <= j < k ==> pres@[j]
                        == #[trigger] self.preconditions@[j].spec_ground(*instance),
                decreases self.preconditions.len() - k,
            {
                pres.push(self.preconditions[k].ground(instance));
                k += 1;
            }
            let mut outs: Vec<O> = Vec::new();
            let mut k: usize = 0;
            while k < self.outcomes.len()
                invariant
                    k <= self.outcomes.len(),
                    outs@.len() == k,
                    forall|j: int| 0 <= j < k ==> outs@[j]
                        == #[trigger] self.outcomes@[j].spec_ground(*instance),
                decreases self.outcomes.len() - k,
            {
                outs.push(self.outcomes[k].ground(instance));
                k += 1;
            }
            let hash = instance.hash();
            let name = instance.to_string();
            let built: Action<S, P, O> = Action {
                action: ActionBox::new(action_index, hash, name),
                preconditions: pres,
                outcomes: outs,
                state_type: PhantomData,
            };
            proof {
                assert(pres@ =~= self.preconditions@.map_values(
                    |t: TP| t.spec_ground(instances@[i as int]),
                ));
                assert(outs@ =~= self.outcomes@.map_values(
                    |t: TO| t.spec_ground(instances@[i as int]),
                ));
                assert(built@ =~= grounded_view(
                    self.preconditions@,
                    self.outcomes@,
                    action_index as int,
                    instances@[i as int],
                ));
            }
            r.push(built);
            i += 1;
        }
        proof {
            assert(r@.map_values(|a: Action<S, P, O>| a@) =~= self.spec_build(
                action_index as int,
            ));
        }
        r
    }
}


/// A gating predicate that always holds, for actions declared with no
/// preconditions at all.
pub struct Ungated {}

impl<S> Precondition<S> for Ungated {
    open spec fn spec_holds(&self, s: S) -> bool {
        true
    }

    fn holds(&self, s: &S) -> (r: bool) {
        true
    }
}


/// A template producing [`Ungated`] for every domain value, for grounding
/// action families declared with no preconditions.
pub struct UngatedTemplate {}

impl<A> Ground<A, Ungated> for UngatedTemplate {
    open spec fn spec_ground(&self, instance: A) -> Ungated {
        Ungated {  }
    }

    fn ground(&self, instance: &A) -> (r: Ungated) {
        Ungated {  }
    }
}

} // verus!
