//! An automaton prepared for an emitter, and the matcher that the emitted
//! code is to be.

use vstd::prelude::*;

use crate::automata::language::{read_from_any, read_run, starts_with};
use crate::automata::model::NfaModel;
use crate::automata::simplify::index_models;
use crate::automata::Automata;
use crate::text::{char_at, scalars};

use self::constructor::{spec_initial_states, AutomatonConstructor};
use self::matcher::{
    advance_from, has_prefix, holds_active, lemma_advance_active, lemma_read_run_prefix, listed,
    ScratchSpace,
};
use self::state_enum::StateEnum;

pub mod advance_function;
pub mod constructor;
pub mod is_terminated;
pub mod matcher;
pub mod state_enum;

verus! {

/// An automaton with what an emitter needs to write a matcher for it: the
/// tags of the states, the number of states, and how the matcher starts.
pub struct EmittableAutomaton {
    automaton: Automata,
    state_enum: StateEnum,
    state_count: usize,
    constructor: AutomatonConstructor,
}

impl View for EmittableAutomaton {
    type V = NfaModel;

    closed spec fn view(&self) -> NfaModel {
        self.automaton@
    }
}

/// A copy of a list of states.
fn copy_indices(indices: &Vec<usize>) -> (copy: Vec<usize>)
    ensures
        copy@ == indices@,
{
    let mut copy: Vec<usize> = Vec::new();
    let mut i: usize = 0;
    while i < indices.len()
        invariant
            i <= indices.len(),
            copy@ == indices@.subrange(0, i as int),
        decreases indices.len() - i,
    {
        copy.push(indices[i]);
        i += 1;
    }
    assert(indices@.subrange(0, indices@.len() as int) =~= indices@);
    copy
}

impl EmittableAutomaton {
    /// The tags, the number of states and the start of the matcher are those
    /// of the automaton.
    #[verifier::type_invariant]
    spec fn consistent(&self) -> bool {
        &&& self.state_count == self.automaton@.states.len()
        &&& self.state_enum.covers(self.automaton@.states.len())
        &&& self.constructor.initial_states@.len() == self.automaton@.states.len()
        &&& index_models(self.constructor.initial_states@) == spec_initial_states(self.automaton@)
        &&& self.constructor.initial_states_count == self.automaton@.start_states.len()
    }

    /// The automaton with its tables.
    pub fn new(automaton: Automata) -> (emittable: EmittableAutomaton)
        ensures
            emittable@ == automaton@,
    {
        let state_enum = StateEnum::new(&automaton);
        let constructor = AutomatonConstructor::new(&automaton, &state_enum);
        let state_count = automaton.state_count();
        EmittableAutomaton { constructor, state_enum, state_count, automaton }
    }

    /// The automaton.
    pub fn automaton(&self) -> (automaton: &Automata)
        ensures
            automaton@ == self@,
    {
        &self.automaton
    }

    /// The tags of the states.
    pub fn state_enum(&self) -> (state_enum: &StateEnum)
        ensures
            state_enum.covers(self@.states.len()),
    {
        proof {
            use_type_invariant(self);
        }
        &self.state_enum
    }

    /// The number of states: the length of the lists that a matcher keeps.
    pub fn state_count(&self) -> (count: usize)
        ensures
            count == self@.states.len(),
    {
        proof {
            use_type_invariant(self);
        }
        self.state_count
    }

    /// How a matcher starts.
    pub fn constructor(&self) -> (constructor: &AutomatonConstructor)
        ensures
            index_models(constructor.initial_states@) == spec_initial_states(self@),
            constructor.initial_states@.len() == self@.states.len(),
            constructor.initial_states_count == self@.start_states.len(),
    {
        proof {
            use_type_invariant(self);
        }
        &self.constructor
    }

    /// The scalars that every accepted input starts with.
    pub fn prefix(&self) -> (prefix: &Vec<char>)
        ensures
            prefix@ == self@.prefix,
    {
        self.automaton.prefix()
    }

    /// Runs the matcher that an emitter writes for this automaton: checks
    /// the prefix, then reads the rest of the input scalar by scalar,
    /// keeping the list of the active states, and accepts where a terminal
    /// state is active at the end.
    pub fn matches(&self, input: &str) -> (matched: bool)
        ensures
            matched == self@.accepts_reading(input@),
            !starts_with(input@, self@.prefix) ==> !matched,
    {
        proof {
            use_type_invariant(self);
        }
        let chars = scalars(input);
        let prefix = self.automaton.prefix();
        if !has_prefix(&chars, prefix) {
            return false;
        }
        let states = self.automaton.states();
        let start_states = self.automaton.start_states();
        let count = states.len();
        let ghost graph = self@.states;
        let ghost starts = self@.start_states;
        let ghost rest = chars@.subrange(prefix@.len() as int, chars@.len() as int);
        let mut automaton_a = copy_indices(&self.constructor.initial_states);
        let mut automaton_b = copy_indices(&self.constructor.initial_states);
        let mut valid_state_count = self.constructor.initial_states_count;
        let mut scratch_space = ScratchSpace::new(count);
        let mut pos: usize = prefix.len();
        proof {
            let consumed = rest.subrange(0, 0);
            assert(consumed =~= Seq::<char>::empty());
            assert forall|a: int| 0 <= a < valid_state_count implies #[trigger] automaton_a@[a]
                < graph.len() && read_from_any(graph, starts, consumed, automaton_a@[a] as int) by {
                assert(index_models(automaton_a@)[a] == spec_initial_states(self@)[a]);
                assert(spec_initial_states(self@)[a] == starts[a]);
                assert(read_run(graph, starts[a], consumed, starts[a]));
                assert(starts[a] == start_states@[a] as int);
            }
            assert forall|state: int| #[trigger]
                read_from_any(graph, starts, consumed, state) implies listed(
                automaton_a@,
                valid_state_count as int,
                state,
            ) by {
                let i = choose|i: int|
                    0 <= i < starts.len() && read_run(graph, #[trigger] starts[i], consumed, state);
                assert(index_models(automaton_a@)[i] == spec_initial_states(self@)[i]);
                assert(automaton_a@[i] == state);
            }
        }
        while pos < chars.len()
            invariant
                graph == self@.states,
                graph == crate::automata::state_models(states@),
                crate::automata::model::graph_wf(graph),
                starts == self@.start_states,
                count == states@.len(),
                prefix@.len() <= pos <= chars@.len(),
                chars@ == input@,
                prefix@ == self@.prefix,
                starts_with(chars@, prefix@),
                rest == chars@.subrange(prefix@.len() as int, chars@.len() as int),
                automaton_a@.len() == count,
                automaton_b@.len() == count,
                scratch_space.ready(count as nat),
                scratch_space.did_add_state_value == pos - prefix@.len(),
                holds_active(
                    automaton_a@,
                    valid_state_count as int,
                    graph,
                    starts,
                    rest.subrange(0, pos - prefix@.len()),
                ),
            decreases chars@.len() - pos,
        {
            let next = char_at(&chars, pos);
            let ghost consumed = rest.subrange(0, pos - prefix@.len());
            let added = advance_from(
                states,
                &automaton_a,
                valid_state_count,
                next,
                &mut automaton_b,
                &mut scratch_space,
            );
            proof {
                lemma_advance_active(
                    graph,
                    starts,
                    consumed,
                    next,
                    automaton_a@,
                    valid_state_count as int,
                    automaton_b@,
                    added as int,
                );
                assert(rest.subrange(0, pos + 1 - prefix@.len()) =~= consumed.push(next));
            }
            if added == 0 {
                proof {
                    let longer = rest.subrange(0, pos + 1 - prefix@.len());
                    if self@.reads(rest) {
                        let t = choose|t: int|
                            self@.terminal_states.contains(t) && #[trigger] read_from_any(
                                graph,
                                starts,
                                rest,
                                t,
                            );
                        let i = choose|i: int|
                            0 <= i < starts.len() && read_run(graph, #[trigger] starts[i], rest, t);
                        lemma_read_run_prefix(graph, starts[i], rest, t, pos + 1 - prefix@.len());
                        let mid = choose|mid: int| read_run(graph, starts[i], longer, mid);
                        assert(read_from_any(graph, starts, longer, mid));
                        assert(listed(automaton_b@, added as int, mid));
                    }
                }
                return false;
            }
            let swapped = automaton_a;
            automaton_a = automaton_b;
            automaton_b = swapped;
            valid_state_count = added;
            pos += 1;
        }
        assert(rest.subrange(0, pos - prefix@.len()) =~= rest);
        let mut a: usize = 0;
        while a < valid_state_count
            invariant
                a <= valid_state_count,
                graph == self@.states,
                starts == self@.start_states,
                chars@ == input@,
                prefix@ == self@.prefix,
                starts_with(chars@, prefix@),
                rest == chars@.subrange(prefix@.len() as int, chars@.len() as int),
                holds_active(automaton_a@, valid_state_count as int, graph, starts, rest),
                forall|earlier: int|
                    0 <= earlier < a ==> !self@.terminal_states.contains(
                        #[trigger] automaton_a@[earlier] as int,
                    ),
            decreases valid_state_count - a,
        {
            if self.automaton.is_terminal_state(automaton_a[a]) {
                assert(read_from_any(graph, starts, rest, automaton_a@[a as int] as int));
                return true;
            }
            a += 1;
        }
        proof {
            if self@.reads(rest) {
                let t = choose|t: int|
                    self@.terminal_states.contains(t) && #[trigger] read_from_any(
                        graph,
                        starts,
                        rest,
                        t,
                    );
                let b = choose|b: int| 0 <= b < valid_state_count && #[trigger] automaton_a@[b] == t;
            }
        }
        false
    }
}

} // verus!
