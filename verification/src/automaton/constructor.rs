//! How a matcher starts.

use vstd::prelude::*;

use crate::automata::model::NfaModel;
use crate::automata::simplify::index_models;
use crate::automata::Automata;
use crate::automaton::state_enum::StateEnum;

verus! {

/// The states that fill the list of active states before any input is
/// read: the start states, and state 0 in every place that is left.
pub open spec fn spec_initial_states(nfa: NfaModel) -> Seq<int> {
    nfa.start_states + Seq::new(
        (nfa.states.len() - nfa.start_states.len()) as nat,
        |i: int| 0int,
    )
}

/// How a matcher starts: the list of active states, as long as there are
/// states, and how many of its places are in use.
pub struct AutomatonConstructor {
    pub initial_states: Vec<usize>,
    pub initial_states_count: usize,
}

impl AutomatonConstructor {
    /// The start of a matcher for `automaton`.
    pub fn new(automaton: &Automata, state_enum: &StateEnum) -> (constructor: AutomatonConstructor)
        requires
            state_enum.covers(automaton@.states.len()),
        ensures
            index_models(constructor.initial_states@) == spec_initial_states(automaton@),
            constructor.initial_states@.len() == automaton@.states.len(),
            constructor.initial_states_count == automaton@.start_states.len(),
            forall|i: int|
                0 <= i < constructor.initial_states@.len() ==> #[trigger] constructor.initial_states@[i]
                    < automaton@.states.len(),
    {
        let start_states = automaton.start_states();
        let count = automaton.state_count();
        let mut initial_states: Vec<usize> = Vec::new();
        let mut i: usize = 0;
        while i < start_states.len()
            invariant
                i <= start_states.len(),
                initial_states@ == start_states@.subrange(0, i as int),
            decreases start_states.len() - i,
        {
            initial_states.push(start_states[i]);
            i += 1;
        }
        assert(start_states@.subrange(0, i as int) =~= start_states@);
        while initial_states.len() < count
            invariant
                start_states@.len() <= initial_states@.len() <= count,
                initial_states@.subrange(0, start_states@.len() as int) == start_states@,
                forall|j: int|
                    start_states@.len() <= j < initial_states@.len() ==> initial_states@[j] == 0,
            decreases count - initial_states.len(),
        {
            initial_states.push(0);
        }
        assert(index_models(initial_states@) =~= spec_initial_states(automaton@)) by {
            assert forall|j: int| 0 <= j < initial_states@.len() implies index_models(
                initial_states@,
            )[j] == spec_initial_states(automaton@)[j] by {
                if j < start_states@.len() {
                    assert(initial_states@.subrange(0, start_states@.len() as int)[j]
                        == start_states@[j]);
                    assert(index_models(start_states@)[j] == start_states@[j] as int);
                }
            }
        }
        assert forall|i: int| 0 <= i < initial_states@.len() implies #[trigger] initial_states@[i]
            < count by {
            if i < start_states@.len() {
                assert(initial_states@.subrange(0, start_states@.len() as int)[i]
                    == start_states@[i]);
            }
        }
        AutomatonConstructor { initial_states, initial_states_count: start_states.len() }
    }
}

} // verus!
