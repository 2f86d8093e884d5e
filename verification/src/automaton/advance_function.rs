//! The advance table: what a matcher does for each transition of each
//! active state.

use vstd::prelude::*;

use crate::automata::{Automata, State, Transition, TransitionCondition, TransitionModel};
use crate::automaton::state_enum::{state_tag, StateEnum};

verus! {

/// What a matcher does for one transition of an active state: where the
/// scalar read meets the condition and the target is not yet among the
/// states active next, the target joins them.
pub struct TransitionHandler {
    pub target_state: String,
    pub condition: TransitionCondition,
    pub target_state_id: usize,
}

/// What a matcher does for one active state: the handlers of its
/// transitions, in their order.
pub struct StateHandler {
    pub state: String,
    pub transitions: Vec<TransitionHandler>,
}

impl TransitionHandler {
    /// Whether the handler is the one of `transition`.
    pub open spec fn handles(&self, transition: TransitionModel) -> bool {
        &&& self.condition@ == transition.condition
        &&& self.target_state_id == transition.next_state_id
        &&& self.target_state@ == state_tag(self.target_state_id as nat)
    }
}

impl StateHandler {
    /// Whether the handler is the one of the state with index `id` and the
    /// given transitions.
    pub open spec fn handles(&self, id: int, transitions: Seq<TransitionModel>) -> bool {
        &&& self.state@ == state_tag(id as nat)
        &&& self.transitions@.len() == transitions.len()
        &&& forall|i: int|
            0 <= i < transitions.len() ==> (#[trigger] self.transitions@[i]).handles(transitions[i])
    }
}

/// The advance table of an automaton: for each state, in the order of the
/// states, the handlers of its transitions.
pub fn emit_advance_function(automaton: &Automata, state_enum: &StateEnum) -> (handlers: Vec<
    StateHandler,
>)
    requires
        state_enum.covers(automaton@.states.len()),
    ensures
        handlers@.len() == automaton@.states.len(),
        forall|s: int|
            0 <= s < handlers@.len() ==> (#[trigger] handlers@[s]).handles(s, automaton@.states[s]),
{
    let count = automaton.state_count();
    let mut handlers: Vec<StateHandler> = Vec::new();
    let mut s: usize = 0;
    while s < count
        invariant
            s <= count,
            count == automaton@.states.len(),
            state_enum.covers(automaton@.states.len()),
            handlers@.len() == s,
            forall|t: int|
                0 <= t < s ==> (#[trigger] handlers@[t]).handles(t, automaton@.states[t]),
        decreases count - s,
    {
        let state = automaton.get_state(s);
        handlers.push(emit_state_handler(state, state_enum));
        s += 1;
    }
    handlers
}

fn emit_state_handler(state: &State, state_enum: &StateEnum) -> (handler: StateHandler)
    requires
        state.id < state_enum@.len(),
        state_enum.covers(state_enum@.len()),
        forall|i: int|
            0 <= i < state.transitions@.len() ==> (#[trigger] state.transitions@[i]).next_state_id
                < state_enum@.len(),
    ensures
        handler.handles(state.id as int, state@),
{
    let state_identifier = state_enum.reference_state(state).clone();
    let mut transition_handlers: Vec<TransitionHandler> = Vec::new();
    let mut i: usize = 0;
    while i < state.transitions.len()
        invariant
            i <= state.transitions.len(),
            state_enum.covers(state_enum@.len()),
            forall|i: int|
                0 <= i < state.transitions@.len() ==> (
                #[trigger] state.transitions@[i]).next_state_id < state_enum@.len(),
            transition_handlers@.len() == i,
            forall|j: int|
                0 <= j < i ==> (#[trigger] transition_handlers@[j]).handles(state@[j]),
        decreases state.transitions.len() - i,
    {
        transition_handlers.push(emit_state_transition_handler(&state.transitions[i], state_enum));
        i += 1;
    }
    StateHandler { state: state_identifier, transitions: transition_handlers }
}

fn emit_state_transition_handler(transition: &Transition, state_enum: &StateEnum) -> (handler:
    TransitionHandler)
    requires
        transition.next_state_id < state_enum@.len(),
        state_enum.covers(state_enum@.len()),
    ensures
        handler.handles(transition@),
{
    let condition_checker = transition.condition.duplicate();
    let target_state_id = transition.next_state_id;
    let target_state_ident = state_enum.reference_id(transition.next_state_id).clone();
    TransitionHandler {
        target_state: target_state_ident,
        condition: condition_checker,
        target_state_id,
    }
}

} // verus!
