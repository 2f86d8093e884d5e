//! The tags of the states.

use vstd::prelude::*;
use vstd::string::*;

use crate::automata::{Automata, State};
use crate::text::{numbered, spec_decimal_text};

verus! {

/// The tag of the state with index `id`: `State` and the index in decimal
/// digits.
pub open spec fn state_tag(id: nat) -> Seq<char> {
    "State"@ + spec_decimal_text(id)
}

/// The tags of the states of an automaton, one for each state.
pub struct StateEnum {
    states: Vec<String>,
}

impl View for StateEnum {
    type V = Seq<Seq<char>>;

    closed spec fn view(&self) -> Seq<Seq<char>> {
        Seq::new(self.states@.len(), |i: int| self.states@[i]@)
    }
}

impl StateEnum {
    /// Whether there is a tag for each of `count` states, and each is the
    /// tag of its state.
    pub open spec fn covers(&self, count: nat) -> bool {
        self@.len() == count && forall|i: int| 0 <= i < count ==> #[trigger] self@[i] == state_tag(i as nat)
    }

    /// The tags of the states of `automaton`.
    pub fn new(automaton: &Automata) -> (state_enum: StateEnum)
        ensures
            state_enum.covers(automaton@.states.len()),
    {
        let states = automaton.states();
        let mut tags: Vec<String> = Vec::new();
        let mut i: usize = 0;
        while i < states.len()
            invariant
                i <= states.len(),
                crate::automata::ids_dense(states@),
                tags@.len() == i,
                forall|j: int| 0 <= j < i ==> (#[trigger] tags@[j])@ == state_tag(j as nat),
            decreases states.len() - i,
        {
            tags.push(numbered("State", states[i].id));
            i += 1;
        }
        StateEnum { states: tags }
    }

    /// The number of tags.
    pub fn len(&self) -> (count: usize)
        ensures
            count == self@.len(),
    {
        self.states.len()
    }

    /// The tag of the state with index `id`.
    pub fn reference_id(&self, id: usize) -> (tag: &String)
        requires
            id < self@.len(),
        ensures
            tag@ == self@[id as int],
    {
        &self.states[id]
    }

    /// The tag of `state`.
    pub fn reference_state(&self, state: &State) -> (tag: &String)
        requires
            state.id < self@.len(),
        ensures
            tag@ == self@[state.id as int],
    {
        self.reference_id(state.id)
    }
}

} // verus!
