//! The terminal set: the tags of the states that accept.

use vstd::prelude::*;

use crate::automata::Automata;
use crate::automaton::state_enum::{state_tag, StateEnum};

verus! {

/// The tags of the terminal states: a matcher accepts at the end of the
/// input where one of the active states has one of these tags.
pub fn emit_is_terminated_function(automata: &Automata, state_enum: &StateEnum) -> (tags: Vec<
    String,
>)
    requires
        state_enum.covers(automata@.states.len()),
    ensures
        tags@.len() == automata@.terminal_states.len(),
        forall|i: int|
            0 <= i < tags@.len() ==> (#[trigger] tags@[i])@ == state_tag(
                automata@.terminal_states[i] as nat,
            ),
{
    let terminal_states = automata.terminal_state_ids();
    let mut tags: Vec<String> = Vec::new();
    let mut i: usize = 0;
    while i < terminal_states.len()
        invariant
            i <= terminal_states.len(),
            state_enum.covers(automata@.states.len()),
            crate::automata::simplify::index_models(terminal_states@) == automata@.terminal_states,
            forall|i: int|
                0 <= i < terminal_states@.len() ==> #[trigger] terminal_states@[i]
                    < automata@.states.len(),
            tags@.len() == i,
            forall|j: int|
                0 <= j < i ==> (#[trigger] tags@[j])@ == state_tag(
                    automata@.terminal_states[j] as nat,
                ),
        decreases terminal_states.len() - i,
    {
        let state_identifier = state_enum.reference_id(terminal_states[i]).clone();
        assert(automata@.terminal_states[i as int] == terminal_states@[i as int] as int);
        tags.push(state_identifier);
        i += 1;
    }
    tags
}

} // verus!
