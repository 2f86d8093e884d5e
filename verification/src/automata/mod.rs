//! Nondeterministic finite automata over scalars.

use vstd::prelude::*;

use crate::parser::character_class::{CharacterClass, ClassModel};
use crate::parser::{AstModel, RegexEntry};
use self::model::{added_states, bounds_ordered, lemma_from_regex_wf, spec_from_regex, NfaModel};
use self::properties::{
    is_simplified_nfa, lemma_ascending_bound, lemma_dedup_nfa, lemma_eliminate_nfa, lemma_extract_prefix,
    lemma_remove_dead_nfa, lemma_simplify_nfa,
};
use self::reduction::{
    ascending, spec_dedup_nfa, spec_eliminate, spec_extract_prefix, spec_remove_dead, spec_simplify_nfa,
};
use self::simplify::{contains_index, index_models};
use crate::unicode::{
    categories_accept, categories_accept_char, copy_categories, same_categories, UnicodeCategory,
};

pub mod budget;
pub mod construct;
pub mod equivalence;
pub mod language;
pub mod model;
pub mod paths;
pub mod properties;
pub mod reduction;
pub mod simplify;
pub mod thompson;

verus! {

/// Mathematical value of the condition of a transition.
pub enum ConditionModel {
    AnyCharacter,
    Literal(char),
    CharacterClass(ClassModel),
    UnicodeCharacterClass(Seq<UnicodeCategory>),
    NegatedUnicodeClass(Seq<UnicodeCategory>),
    Epsilon,
}

impl ConditionModel {
    /// Whether a transition with this condition may be taken on reading `c`.
    /// An epsilon transition reads nothing.
    pub open spec fn accepts(self, c: char) -> bool {
        match self {
            ConditionModel::AnyCharacter => true,
            ConditionModel::Literal(literal) => c == literal,
            ConditionModel::CharacterClass(class) => class.accepts(c),
            ConditionModel::UnicodeCharacterClass(categories) => categories_accept(categories, c),
            ConditionModel::NegatedUnicodeClass(categories) => !categories_accept(categories, c),
            ConditionModel::Epsilon => false,
        }
    }
}

/// When a transition may be taken: on reading a scalar that meets the
/// condition, or, for an epsilon transition, without reading.
#[derive(Debug, Eq, PartialEq)]
pub enum TransitionCondition {
    AnyCharacter,
    Literal(char),
    CharacterClass(CharacterClass),
    UnicodeCharacterClass(Vec<UnicodeCategory>),
    NegatedUnicodeClass(Vec<UnicodeCategory>),
    Epsilon,
}

impl View for TransitionCondition {
    type V = ConditionModel;

    open spec fn view(&self) -> ConditionModel {
        match self {
            TransitionCondition::AnyCharacter => ConditionModel::AnyCharacter,
            TransitionCondition::Literal(c) => ConditionModel::Literal(*c),
            TransitionCondition::CharacterClass(class) => ConditionModel::CharacterClass(class@),
            TransitionCondition::UnicodeCharacterClass(categories) =>
                ConditionModel::UnicodeCharacterClass(categories@),
            TransitionCondition::NegatedUnicodeClass(categories) =>
                ConditionModel::NegatedUnicodeClass(categories@),
            TransitionCondition::Epsilon => ConditionModel::Epsilon,
        }
    }
}

impl TransitionCondition {
    /// Whether the transition reads no input.
    pub fn is_epsilon(&self) -> (epsilon: bool)
        ensures
            epsilon == (self@ is Epsilon),
    {
        match self {
            TransitionCondition::Epsilon => true,
            _ => false,
        }
    }

    /// A deep copy with the same value.
    pub fn duplicate(&self) -> (copy: TransitionCondition)
        ensures
            copy@ == self@,
    {
        match self {
            TransitionCondition::AnyCharacter => TransitionCondition::AnyCharacter,
            TransitionCondition::Literal(c) => TransitionCondition::Literal(*c),
            TransitionCondition::CharacterClass(class) => TransitionCondition::CharacterClass(
                class.duplicate(),
            ),
            TransitionCondition::UnicodeCharacterClass(categories) =>
                TransitionCondition::UnicodeCharacterClass(copy_categories(categories)),
            TransitionCondition::NegatedUnicodeClass(categories) =>
                TransitionCondition::NegatedUnicodeClass(copy_categories(categories)),
            TransitionCondition::Epsilon => TransitionCondition::Epsilon,
        }
    }

    /// Whether two conditions have the same value.
    pub fn same(&self, other: &TransitionCondition) -> (same: bool)
        ensures
            same == (self@ == other@),
    {
        match (self, other) {
            (TransitionCondition::AnyCharacter, TransitionCondition::AnyCharacter) => true,
            (TransitionCondition::Literal(a), TransitionCondition::Literal(b)) => *a == *b,
            (TransitionCondition::CharacterClass(a), TransitionCondition::CharacterClass(b)) =>
                a.same(b),
            (
                TransitionCondition::UnicodeCharacterClass(a),
                TransitionCondition::UnicodeCharacterClass(b),
            ) => same_categories(a, b),
            (
                TransitionCondition::NegatedUnicodeClass(a),
                TransitionCondition::NegatedUnicodeClass(b),
            ) => same_categories(a, b),
            (TransitionCondition::Epsilon, TransitionCondition::Epsilon) => true,
            _ => false,
        }
    }

    /// Whether a transition with this condition may be taken on reading `c`.
    pub fn accepts(&self, c: char) -> (accepted: bool)
        ensures
            accepted == self@.accepts(c),
    {
        match self {
            TransitionCondition::AnyCharacter => true,
            TransitionCondition::Literal(literal) => c == *literal,
            TransitionCondition::CharacterClass(class) => class.matches(c),
            TransitionCondition::UnicodeCharacterClass(categories) => categories_accept_char(
                categories,
                c,
            ),
            TransitionCondition::NegatedUnicodeClass(categories) => !categories_accept_char(
                categories,
                c,
            ),
            TransitionCondition::Epsilon => false,
        }
    }
}

impl Clone for TransitionCondition {
    fn clone(&self) -> (copy: TransitionCondition)
        ensures
            copy@ == self@,
    {
        self.duplicate()
    }
}

/// Mathematical value of a transition.
pub struct TransitionModel {
    pub next_state_id: int,
    pub condition: ConditionModel,
}

/// A transition: the state that it leads to, and when it may be taken.
#[derive(Debug, Eq, PartialEq)]
pub struct Transition {
    pub next_state_id: usize,
    pub condition: TransitionCondition,
}

impl View for Transition {
    type V = TransitionModel;

    open spec fn view(&self) -> TransitionModel {
        TransitionModel { next_state_id: self.next_state_id as int, condition: self.condition@ }
    }
}

impl Transition {
    /// The transition to `next_state_id` under `condition`.
    pub fn new(next_state_id: usize, condition: TransitionCondition) -> (transition: Transition)
        ensures
            transition.next_state_id == next_state_id,
            transition.condition == condition,
    {
        Self { next_state_id, condition }
    }

    /// A deep copy with the same value.
    pub fn duplicate(&self) -> (copy: Transition)
        ensures
            copy@ == self@,
    {
        Self { next_state_id: self.next_state_id, condition: self.condition.duplicate() }
    }

    /// Whether two transitions lead to the same state under the same condition.
    pub fn same(&self, other: &Transition) -> (same: bool)
        ensures
            same == (self@ == other@),
    {
        self.next_state_id == other.next_state_id && self.condition.same(&other.condition)
    }
}

impl Clone for Transition {
    fn clone(&self) -> (copy: Transition)
        ensures
            copy@ == self@,
    {
        self.duplicate()
    }
}

/// The values of a list of transitions.
pub open spec fn transition_models(transitions: Seq<Transition>) -> Seq<TransitionModel> {
    Seq::new(transitions.len(), |i: int| transitions[i]@)
}

/// A state: its index among the states of its automaton, and the transitions
/// that leave it.
#[derive(Debug, Eq, PartialEq)]
pub struct State {
    pub id: usize,
    pub transitions: Vec<Transition>,
}

impl View for State {
    type V = Seq<TransitionModel>;

    open spec fn view(&self) -> Seq<TransitionModel> {
        transition_models(self.transitions@)
    }
}

impl State {
    /// A deep copy with the same index and the same transitions.
    pub fn duplicate(&self) -> (copy: State)
        ensures
            copy.id == self.id,
            copy@ == self@,
    {
        let mut transitions: Vec<Transition> = Vec::new();
        let mut i: usize = 0;
        while i < self.transitions.len()
            invariant
                i <= self.transitions.len(),
                transitions@.len() == i,
                forall|j: int| 0 <= j < i ==> (#[trigger] transitions@[j])@ == self.transitions@[j]@,
            decreases self.transitions.len() - i,
        {
            transitions.push(self.transitions[i].duplicate());
            i += 1;
        }
        let copy = State { id: self.id, transitions };
        assert(copy@ =~= self@);
        copy
    }
}

impl Clone for State {
    fn clone(&self) -> (copy: State)
        ensures
            copy.id == self.id,
            copy@ == self@,
    {
        self.duplicate()
    }
}

/// The values of a list of states.
pub open spec fn state_models(states: Seq<State>) -> Seq<Seq<TransitionModel>> {
    Seq::new(states.len(), |i: int| states[i]@)
}

/// Whether each state of the list knows its own index.
pub open spec fn ids_dense(states: Seq<State>) -> bool {
    forall|i: int| 0 <= i < states.len() ==> (#[trigger] states[i]).id == i
}

/// A nondeterministic finite automaton over scalars. An input is accepted
/// where it starts with the literal prefix and the rest of it leads from a
/// start state to a terminal state.
pub struct Automata {
    states: Vec<State>,
    terminal_states: Vec<usize>,
    start_states: Vec<usize>,
    prefix: Vec<char>,
}

impl View for Automata {
    type V = NfaModel;

    closed spec fn view(&self) -> NfaModel {
        NfaModel {
            states: state_models(self.states@),
            start_states: index_models(self.start_states@),
            terminal_states: index_models(self.terminal_states@),
            prefix: self.prefix@,
        }
    }
}

impl Clone for Automata {
    fn clone(&self) -> (copy: Automata)
        ensures
            copy@ == self@,
    {
        self.duplicate()
    }
}

/// A copy of a list of states.
fn copy_indices(indices: &Vec<usize>) -> (copy: Vec<usize>)
    ensures
        copy@ == indices@,
{
    let mut copy: Vec<usize> = Vec::new();
    let mut i: usize = 0;
    while i < indices.len()
        invariant
            i <= indices.len(),
            copy@ == indices@.subrange(0, i as int),
        decreases indices.len() - i,
    {
        copy.push(indices[i]);
        i += 1;
    }
    assert(indices@.subrange(0, indices@.len() as int) =~= indices@);
    copy
}

/// A copy of a list of scalars.
fn copy_chars(chars: &Vec<char>) -> (copy: Vec<char>)
    ensures
        copy@ == chars@,
{
    let mut copy: Vec<char> = Vec::new();
    let mut i: usize = 0;
    while i < chars.len()
        invariant
            i <= chars.len(),
            copy@ == chars@.subrange(0, i as int),
        decreases chars.len() - i,
    {
        copy.push(chars[i]);
        i += 1;
    }
    assert(chars@.subrange(0, chars@.len() as int) =~= chars@);
    copy
}

impl Automata {
    /// Every state knows its index, and every index that the automaton
    /// holds names one of its states.
    #[verifier::type_invariant]
    spec fn well_formed(&self) -> bool {
        ids_dense(self.states@) && self@.wf() && ascending(self@.start_states)
    }

    /// The automaton of a syntax tree, as built and not yet simplified.
    pub fn from_regex(regex: RegexEntry) -> (automata: Automata)
        requires
            bounds_ordered(regex@),
            added_states(regex@) < usize::MAX,
        ensures
            automata@ == spec_from_regex(regex@),
            automata@.wf(),
    {
        let mut states: Vec<State> = Vec::new();
        let terminal = State { id: 0, transitions: Vec::new() };
        assert(terminal@ =~= Seq::<TransitionModel>::empty());
        assert(state_models(states@) =~= Seq::<Seq<TransitionModel>>::empty());
        let terminal_state_id = Self::add_state(&mut states, terminal);
        assert(state_models(states@) =~= seq![Seq::<TransitionModel>::empty()]);
        let mut terminal_states: Vec<usize> = Vec::new();
        terminal_states.push(terminal_state_id);
        let start_state = Self::add_regex_entry(&mut states, &regex, terminal_state_id);
        let mut start_states: Vec<usize> = Vec::new();
        start_states.push(start_state);
        proof {
            lemma_from_regex_wf(regex@);
            assert(index_models(start_states@) =~= seq![start_state as int]);
            assert(index_models(terminal_states@) =~= seq![0int]);
        }
        Automata { states, terminal_states, start_states, prefix: Vec::new() }
    }

    /// Simplifies the automaton: removes the repeated transitions of each
    /// state, eliminates the epsilon transitions, removes the dead states
    /// and takes out the literal prefix.
    pub fn simplify(&mut self)
        ensures
            final(self)@ == spec_simplify_nfa(old(self)@),
            is_simplified_nfa(final(self)@),
    {
        proof {
            use_type_invariant(&*self);
        }
        let ghost given = self@;
        proof {
            lemma_dedup_nfa(given);
            lemma_eliminate_nfa(spec_dedup_nfa(given));
            lemma_remove_dead_nfa(spec_eliminate(spec_dedup_nfa(given)));
            let reduced = spec_remove_dead(spec_eliminate(spec_dedup_nfa(given)));
            lemma_extract_prefix(reduced, reduced.states.len());
            lemma_simplify_nfa(given);
        }
        let deduped = Self::remove_duplicate_transitions(&self.states);
        proof {
            assert forall|i: int| 0 <= i < self.start_states@.len() implies self.start_states@[i]
                < deduped@.len() by {
                assert(given.start_states[i] == self.start_states@[i] as int);
            }
        }
        let (eliminated, closed_starts) = Self::simplify_states(&deduped, &self.start_states);
        proof {
            let before = spec_eliminate(spec_dedup_nfa(given));
            assert forall|i: int| 0 <= i < closed_starts@.len() implies closed_starts@[i]
                < eliminated@.len() by {
                assert(before.start_states[i] == closed_starts@[i] as int);
            }
            assert forall|i: int| 0 <= i < self.terminal_states@.len() implies
                self.terminal_states@[i] < eliminated@.len() by {
                assert(given.terminal_states[i] == self.terminal_states@[i] as int);
            }
        }
        let (states, start_states, terminal_states) = Self::remove_dead_states(
            &eliminated,
            &closed_starts,
            &self.terminal_states,
        );
        let prefix = copy_chars(&self.prefix);
        let (start_states, prefix) = Self::extract_prefix(
            &states,
            start_states,
            &terminal_states,
            prefix,
        );
        *self = Automata { states, terminal_states, start_states, prefix };
    }

    /// A deep copy with the same value.
    pub fn duplicate(&self) -> (copy: Automata)
        ensures
            copy@ == self@,
    {
        proof {
            use_type_invariant(self);
        }
        let mut states: Vec<State> = Vec::new();
        let mut i: usize = 0;
        while i < self.states.len()
            invariant
                i <= self.states.len(),
                states@.len() == i,
                forall|j: int|
                    0 <= j < i ==> (#[trigger] states@[j])@ == self.states@[j]@ && states@[j].id
                        == self.states@[j].id,
            decreases self.states.len() - i,
        {
            states.push(self.states[i].duplicate());
            i += 1;
        }
        assert(state_models(states@) =~= state_models(self.states@));
        Automata {
            states,
            terminal_states: copy_indices(&self.terminal_states),
            start_states: copy_indices(&self.start_states),
            prefix: copy_chars(&self.prefix),
        }
    }

    /// The number of states.
    pub fn state_count(&self) -> (count: usize)
        ensures
            count == self@.states.len(),
            self@.wf(),
    {
        proof {
            use_type_invariant(self);
        }
        self.states.len()
    }

    /// The state with the given index.
    pub fn get_state(&self, state_id: usize) -> (state: &State)
        requires
            state_id < self@.states.len(),
        ensures
            state.id == state_id,
            state@ == self@.states[state_id as int],
            forall|i: int|
                0 <= i < state.transitions@.len() ==> (
                #[trigger] state.transitions@[i]).next_state_id < self@.states.len(),
    {
        proof {
            use_type_invariant(self);
            assert forall|i: int| 0 <= i < self.states@[state_id as int].transitions@.len() implies (
            #[trigger] self.states@[state_id as int].transitions@[i]).next_state_id
                < self@.states.len() by {
                assert(self@.states[state_id as int][i]
                    == self.states@[state_id as int].transitions@[i]@);
            }
        }
        &self.states[state_id]
    }

    /// The states, in the order of their indices.
    pub fn states(&self) -> (states: &Vec<State>)
        ensures
            state_models(states@) == self@.states,
            ids_dense(states@),
            self@.wf(),
    {
        proof {
            use_type_invariant(self);
        }
        &self.states
    }

    /// Whether the state with the given index is a terminal state.
    pub fn is_terminal_state(&self, state_id: usize) -> (terminal: bool)
        ensures
            terminal == self@.terminal_states.contains(state_id as int),
    {
        contains_index(&self.terminal_states, state_id)
    }

    /// The indices of the start states, in ascending order.
    pub fn start_states(&self) -> (start_states: &Vec<usize>)
        ensures
            index_models(start_states@) == self@.start_states,
            forall|i: int|
                0 <= i < start_states@.len() ==> #[trigger] start_states@[i] < self@.states.len(),
            ascending(self@.start_states),
            start_states@.len() <= self@.states.len(),
    {
        proof {
            use_type_invariant(self);
            lemma_ascending_bound(self@.start_states, self@.states.len() as int);
            assert forall|i: int| 0 <= i < self.start_states@.len() implies
                #[trigger] self.start_states@[i] < self@.states.len() by {
                assert(self@.start_states[i] == self.start_states@[i] as int);
            }
        }
        &self.start_states
    }

    /// The indices of the terminal states.
    pub fn terminal_state_ids(&self) -> (terminal_states: &Vec<usize>)
        ensures
            index_models(terminal_states@) == self@.terminal_states,
            forall|i: int|
                0 <= i < terminal_states@.len() ==> #[trigger] terminal_states@[i]
                    < self@.states.len(),
    {
        proof {
            use_type_invariant(self);
            assert forall|i: int| 0 <= i < self.terminal_states@.len() implies
                #[trigger] self.terminal_states@[i] < self@.states.len() by {
                assert(self@.terminal_states[i] == self.terminal_states@[i] as int);
            }
        }
        &self.terminal_states
    }

    /// The scalars that every accepted input starts with, and that the
    /// states of the automaton no longer read.
    pub fn prefix(&self) -> (prefix: &Vec<char>)
        ensures
            prefix@ == self@.prefix,
    {
        &self.prefix
    }
}

} // verus!
