//! The computed policy: per state, the optional best action.

use crate::model::ActionBox;
use crate::model::ActionBoxView;
use vstd::prelude::*;

verus! {

/// An immutable, index-addressable sequence of optional action identities,
/// one per state; `None` means no action is enabled there.
pub struct Policy {
    actions: Vec<Option<ActionBox>>,
}

/// The view of one policy entry.
pub open spec fn policy_entry_view(e: Option<ActionBox>) -> Option<ActionBoxView> {
    match e {
        Some(a) => Some(a@),
        None => None,
    }
}

impl View for Policy {
    type V = Seq<Option<ActionBoxView>>;

    closed spec fn view(&self) -> Seq<Option<ActionBoxView>> {
        self.actions@.map_values(|e: Option<ActionBox>| policy_entry_view(e))
    }
}

impl Policy {
    /// Wraps a per-state selection as an immutable policy.
    pub fn new(actions: Vec<Option<ActionBox>>) -> (r: Self)
        ensures
            r@ == actions@.map_values(|e: Option<ActionBox>| policy_entry_view(e)),
    {
        Policy { actions }
    }

    /// All selections, by state index.
    pub fn actions(&self) -> (r: &Vec<Option<ActionBox>>)
        ensures
            r@.map_values(|e: Option<ActionBox>| policy_entry_view(e)) == self@,
            r@.len() == self@.len(),
    {
        proof {
            assert(self.actions@.map_values(|e: Option<ActionBox>| policy_entry_view(e)).len()
                == self.actions@.len());
        }
        &self.actions
    }

    /// The selection for one state.
    pub fn get_action(&self, state: usize) -> (r: Option<&ActionBox>)
        requires
            (state as int) < self@.len(),
        ensures
            match r {
                Some(a) => self@[state as int] == Some(a@),
                None => self@[state as int] is None,
            },
    {
        self.actions[state].as_ref()
    }
}

} // verus!
