//! Building the automaton of a syntax tree, from its end to its start.

use vstd::prelude::*;

use crate::automata::model::{
    added_by_all, added_states, arc, bounds_ordered, extends, leaf_condition, least_count,
    lemma_add_extends, lemma_added_by_prefix, lemma_branches_extends, lemma_chain_extends,
    lemma_exact_extends, lemma_optional_extends, spec_add, spec_branches, spec_chain, spec_exact,
    spec_optional, Graph,
};
use crate::automata::{
    ids_dense, state_models, transition_models, Automata, ConditionModel, State, Transition,
    TransitionCondition,
};
use crate::parser::{ast_models, AstModel, RegexEntry};
use crate::unicode::copy_categories;

verus! {

impl Automata {
    /// Adds one state with the given transitions and gives its index.
    pub(crate) fn construct_state(states: &mut Vec<State>, transitions: Vec<Transition>) -> (id:
        usize)
        requires
            ids_dense(old(states)@),
            old(states).len() < usize::MAX,
        ensures
            ids_dense(final(states)@),
            id == old(states).len(),
            state_models(final(states)@) == state_models(old(states)@).push(
                transition_models(transitions@),
            ),
    {
        Self::add_state(states, State { id: 0, transitions })
    }

    /// Adds a state under the index that is free next.
    pub(crate) fn add_state(states: &mut Vec<State>, state: State) -> (id: usize)
        requires
            ids_dense(old(states)@),
            old(states).len() < usize::MAX,
        ensures
            ids_dense(final(states)@),
            id == old(states).len(),
            state_models(final(states)@) == state_models(old(states)@).push(state@),
    {
        let id = states.len();
        let mut state = state;
        state.id = id;
        states.push(state);
        assert(state_models(states@) =~= state_models(old(states)@).push(state@));
        id
    }

    /// One transition as a list.
    fn single(transition: Transition) -> (transitions: Vec<Transition>)
        ensures
            transition_models(transitions@) == seq![transition@],
    {
        let mut transitions: Vec<Transition> = Vec::new();
        transitions.push(transition);
        assert(transition_models(transitions@) =~= seq![transition@]);
        transitions
    }

    /// Two transitions as a list.
    fn pair(first: Transition, second: Transition) -> (transitions: Vec<Transition>)
        ensures
            transition_models(transitions@) == seq![first@, second@],
    {
        let mut transitions: Vec<Transition> = Vec::new();
        transitions.push(first);
        transitions.push(second);
        assert(transition_models(transitions@) =~= seq![first@, second@]);
        transitions
    }

    /// Adds the automaton of `entry`, which leads into `target`, and gives the
    /// state at which it is entered.
    pub(crate) fn add_regex_entry(states: &mut Vec<State>, entry: &RegexEntry, target: usize) -> (start:
        usize)
        requires
            ids_dense(old(states)@),
            bounds_ordered(entry@),
            old(states).len() + added_states(entry@) <= usize::MAX,
        ensures
            ids_dense(final(states)@),
            (state_models(final(states)@), start as int) == spec_add(
                state_models(old(states)@),
                entry@,
                target as int,
            ),
        decreases entry, 0nat, 0nat,
    {
        match entry {
            RegexEntry::AnyCharacter => Self::construct_state(
                states,
                Self::single(Transition::new(target, TransitionCondition::AnyCharacter)),
            ),
            RegexEntry::UnicodeCharacterClass(classes) => Self::construct_state(
                states,
                Self::single(
                    Transition::new(
                        target,
                        TransitionCondition::UnicodeCharacterClass(copy_categories(classes)),
                    ),
                ),
            ),
            RegexEntry::NegatedUnicodeCharacterClass(classes) => Self::construct_state(
                states,
                Self::single(
                    Transition::new(
                        target,
                        TransitionCondition::NegatedUnicodeClass(copy_categories(classes)),
                    ),
                ),
            ),
            RegexEntry::NonUnicodeCharacterClass(class) => Self::construct_state(
                states,
                Self::single(
                    Transition::new(target, TransitionCondition::CharacterClass(class.duplicate())),
                ),
            ),
            RegexEntry::Literal(c) => Self::construct_state(
                states,
                Self::single(Transition::new(target, TransitionCondition::Literal(*c))),
            ),
            RegexEntry::Concatenation(entries) => {
                proof {
                    assert(decreases_to!(*entry => entry->Concatenation_0));
                    assert(entry@->Concatenation_0 =~= ast_models(entries@));
                    assert forall|i: int| 0 <= i < entries@.len() implies bounds_ordered(
                        #[trigger] entries@[i]@,
                    ) by {
                        assert(entry@->Concatenation_0[i] == entries@[i]@);
                    }
                }
                Self::add_chain(states, entries, target)
            },
            RegexEntry::Alternation(entries) => {
                proof {
                    assert(decreases_to!(*entry => entry->Alternation_0));
                    assert(entry@->Alternation_0 =~= ast_models(entries@));
                    assert forall|i: int| 0 <= i < entries@.len() implies bounds_ordered(
                        #[trigger] entries@[i]@,
                    ) by {
                        assert(entry@->Alternation_0[i] == entries@[i]@);
                    }
                    lemma_branches_extends(
                        state_models(states@),
                        ast_models(entries@),
                        target as int,
                    );
                }
                let start_states = Self::add_branches(states, entries, target);
                let mut transitions: Vec<Transition> = Vec::new();
                let mut i: usize = 0;
                while i < start_states.len()
                    invariant
                        i <= start_states.len(),
                        transitions@.len() == i,
                        forall|j: int|
                            0 <= j < i ==> (#[trigger] transitions@[j])@ == arc(
                                start_states@[j] as int,
                                ConditionModel::Epsilon,
                            ),
                    decreases start_states.len() - i,
                {
                    transitions.push(Transition::new(start_states[i], TransitionCondition::Epsilon));
                    i += 1;
                }
                proof {
                    let entries_model = spec_branches(
                        state_models(old(states)@),
                        ast_models(entries@),
                        target as int,
                    ).1;
                    assert(transition_models(transitions@) =~= Seq::new(
                        entries_model.len(),
                        |i: int| arc(entries_model[i], ConditionModel::Epsilon),
                    ));
                }
                Self::construct_state(states, transitions)
            },
            RegexEntry::Repetition { base, min, max: Some(max) } => {
                let least: u64 = match min {
                    Some(count) => *count,
                    None => 0,
                };
                let ghost graph = state_models(states@);
                let ghost count = (*max - least) as nat;
                proof {
                    lemma_optional_extends(graph, base@, count, target as int);
                    let optional = spec_optional(graph, base@, count, target as int);
                    lemma_exact_extends(optional.0, base@, least as nat, optional.1);
                }
                let new_target = Self::construct_maximum_repetition_count(
                    states,
                    target,
                    base,
                    *max - least,
                );
                Self::construct_exact_repetition_count(states, new_target, base, least)
            },
            RegexEntry::Repetition { base, min, max: None } => {
                let least: u64 = match min {
                    Some(count) => *count,
                    None => 0,
                };
                let ghost graph = state_models(states@);
                let epsilon_trampoline = Self::construct_state(
                    states,
                    Self::single(Transition::new(target, TransitionCondition::Epsilon)),
                );
                let ghost opened = state_models(states@);
                proof {
                    lemma_add_extends(opened, base@, epsilon_trampoline as int);
                    assert(least as nat * added_states(base@) >= 0) by (nonlinear_arith);
                }
                let loop_start = Self::add_regex_entry(states, base, epsilon_trampoline);
                let ghost looped = state_models(states@);
                states.set(
                    epsilon_trampoline,
                    State {
                        id: epsilon_trampoline,
                        transitions: Self::pair(
                            Transition::new(target, TransitionCondition::Epsilon),
                            Transition::new(loop_start, TransitionCondition::Epsilon),
                        ),
                    },
                );
                proof {
                    let closed = looped.update(
                        epsilon_trampoline as int,
                        looped[epsilon_trampoline as int].push(
                            arc(loop_start as int, ConditionModel::Epsilon),
                        ),
                    );
                    assert(looped[epsilon_trampoline as int].push(
                        arc(loop_start as int, ConditionModel::Epsilon),
                    ) =~= seq![
                        arc(target as int, ConditionModel::Epsilon),
                        arc(loop_start as int, ConditionModel::Epsilon),
                    ]);
                    assert(state_models(states@) =~= closed);
                    lemma_exact_extends(closed, base@, least as nat, epsilon_trampoline as int);
                }
                Self::construct_exact_repetition_count(states, epsilon_trampoline, base, least)
            },
        }
    }

    /// Adds the automata of `entries` from the last to the first, each leading
    /// into the one added before it.
    fn add_chain(states: &mut Vec<State>, entries: &Vec<RegexEntry>, target: usize) -> (start: usize)
        requires
            ids_dense(old(states)@),
            forall|i: int| 0 <= i < entries@.len() ==> bounds_ordered(#[trigger] entries@[i]@),
            old(states).len() + added_by_all(ast_models(entries@)) <= usize::MAX,
        ensures
            ids_dense(final(states)@),
            (state_models(final(states)@), start as int) == spec_chain(
                state_models(old(states)@),
                ast_models(entries@),
                target as int,
            ),
        decreases entries, 0nat, 0nat,
    {
        let ghost members = ast_models(entries@);
        let ghost graph = state_models(states@);
        let mut last_target = target;
        let mut i: usize = entries.len();
        assert(members.subrange(0, i as int) =~= members);
        while i > 0
            invariant
                i <= entries.len(),
                members == ast_models(entries@),
                ids_dense(states@),
                forall|i: int| 0 <= i < entries@.len() ==> bounds_ordered(#[trigger] entries@[i]@),
                states.len() + added_by_all(members.subrange(0, i as int)) <= usize::MAX,
                spec_chain(graph, members, target as int) == spec_chain(
                    state_models(states@),
                    members.subrange(0, i as int),
                    last_target as int,
                ),
            decreases i,
        {
            i -= 1;
            proof {
                vstd::std_specs::vec::axiom_vec_index_decreases(*entries, i as int);
                assert(members.subrange(0, i + 1).drop_last() =~= members.subrange(0, i as int));
                assert(members.subrange(0, i + 1).last() == entries@[i as int]@);
                lemma_add_extends(state_models(states@), entries@[i as int]@, last_target as int);
            }
            last_target = Self::add_regex_entry(states, &entries[i], last_target);
        }
        last_target
    }

    /// Adds the automata of `entries` from the first to the last, each leading
    /// to `target`, and gives the states at which they are entered.
    fn add_branches(states: &mut Vec<State>, entries: &Vec<RegexEntry>, target: usize) -> (starts:
        Vec<usize>)
        requires
            ids_dense(old(states)@),
            forall|i: int| 0 <= i < entries@.len() ==> bounds_ordered(#[trigger] entries@[i]@),
            old(states).len() + added_by_all(ast_models(entries@)) <= usize::MAX,
        ensures
            ids_dense(final(states)@),
            state_models(final(states)@) == spec_branches(
                state_models(old(states)@),
                ast_models(entries@),
                target as int,
            ).0,
            starts@.map_values(|start: usize| start as int) == spec_branches(
                state_models(old(states)@),
                ast_models(entries@),
                target as int,
            ).1,
        decreases entries, 0nat, 0nat,
    {
        let ghost members = ast_models(entries@);
        let ghost graph = state_models(states@);
        let mut starts: Vec<usize> = Vec::new();
        let mut i: usize = 0;
        assert(members.subrange(0, 0) =~= Seq::<AstModel>::empty());
        assert(starts@.map_values(|start: usize| start as int) =~= Seq::<int>::empty());
        while i < entries.len()
            invariant
                i <= entries.len(),
                members == ast_models(entries@),
                graph == state_models(old(states)@),
                ids_dense(states@),
                forall|i: int| 0 <= i < entries@.len() ==> bounds_ordered(#[trigger] entries@[i]@),
                graph.len() + added_by_all(members) <= usize::MAX,
                states.len() == graph.len() + added_by_all(members.subrange(0, i as int)),
                spec_branches(graph, members.subrange(0, i as int), target as int) == (
                    state_models(states@),
                    starts@.map_values(|start: usize| start as int),
                ),
            decreases entries.len() - i,
        {
            proof {
                vstd::std_specs::vec::axiom_vec_index_decreases(*entries, i as int);
                assert(members.subrange(0, i + 1).drop_last() =~= members.subrange(0, i as int));
                assert(members.subrange(0, i + 1).last() == entries@[i as int]@);
                lemma_added_by_prefix(members, i + 1);
                lemma_add_extends(state_models(states@), entries@[i as int]@, target as int);
            }
            let start = Self::add_regex_entry(states, &entries[i], target);
            proof {
                assert(starts@.push(start).map_values(|start: usize| start as int)
                    =~= starts@.map_values(|start: usize| start as int).push(start as int));
            }
            starts.push(start);
            i += 1;
        }
        assert(members.subrange(0, i as int) =~= members);
        starts
    }

    /// Adds `count` copies of the automaton of `base` in a row, the last
    /// leading into `target`.
    pub(crate) fn construct_exact_repetition_count(
        states: &mut Vec<State>,
        target: usize,
        base: &RegexEntry,
        count: u64,
    ) -> (start: usize)
        requires
            ids_dense(old(states)@),
            bounds_ordered(base@),
            old(states).len() + count * added_states(base@) <= usize::MAX,
        ensures
            ids_dense(final(states)@),
            (state_models(final(states)@), start as int) == spec_exact(
                state_models(old(states)@),
                base@,
                count as nat,
                target as int,
            ),
        decreases base, 1nat, count,
    {
        let ghost graph = state_models(states@);
        let mut new_target = target;
        let mut done: u64 = 0;
        while done < count
            invariant
                done <= count,
                graph == state_models(old(states)@),
                ids_dense(states@),
                bounds_ordered(base@),
                graph.len() + count * added_states(base@) <= usize::MAX,
                states.len() == graph.len() + done * added_states(base@),
                spec_exact(graph, base@, done as nat, target as int) == (
                    state_models(states@),
                    new_target as int,
                ),
            decreases count - done,
        {
            proof {
                let size = added_states(base@);
                assert((done + 1) * size == done * size + size) by (nonlinear_arith);
                assert((done + 1) * size <= count * size) by (nonlinear_arith)
                    requires
                        done + 1 <= count,
                ;
                lemma_add_extends(state_models(states@), base@, new_target as int);
            }
            new_target = Self::add_regex_entry(states, base, new_target);
            done += 1;
        }
        new_target
    }

    /// Adds `max` copies of the automaton of `base` in a row, each entered
    /// through a state from which `target` is reached at once as well.
    pub(crate) fn construct_maximum_repetition_count(
        states: &mut Vec<State>,
        target: usize,
        base: &RegexEntry,
        max: u64,
    ) -> (start: usize)
        requires
            ids_dense(old(states)@),
            bounds_ordered(base@),
            old(states).len() + max * (added_states(base@) + 1) <= usize::MAX,
        ensures
            ids_dense(final(states)@),
            (state_models(final(states)@), start as int) == spec_optional(
                state_models(old(states)@),
                base@,
                max as nat,
                target as int,
            ),
        decreases base, 1nat, max,
    {
        let ghost graph = state_models(states@);
        let mut last_target = target;
        let mut done: u64 = 0;
        while done < max
            invariant
                done <= max,
                graph == state_models(old(states)@),
                ids_dense(states@),
                bounds_ordered(base@),
                graph.len() + max * (added_states(base@) + 1) <= usize::MAX,
                states.len() == graph.len() + done * (added_states(base@) + 1),
                spec_optional(graph, base@, done as nat, target as int) == (
                    state_models(states@),
                    last_target as int,
                ),
            decreases max - done,
        {
            proof {
                let size = added_states(base@) + 1;
                assert((done + 1) * size == done * size + size) by (nonlinear_arith);
                assert((done + 1) * size <= max * size) by (nonlinear_arith)
                    requires
                        done + 1 <= max,
                ;
                assert((done + 1) * (added_states(base@) + 1) == done * (added_states(base@) + 1)
                    + added_states(base@) + 1);
                lemma_add_extends(state_models(states@), base@, last_target as int);
            }
            let ghost before = states.len();
            let this_iteration_start = Self::add_regex_entry(states, base, last_target);
            assert(state_models(states@).len() == before + added_states(base@));
            assert(states.len() == before + added_states(base@));
            last_target = Self::construct_state(
                states,
                Self::pair(
                    Transition::new(this_iteration_start, TransitionCondition::Epsilon),
                    Transition::new(target, TransitionCondition::Epsilon),
                ),
            );
            assert(state_models(states@).len() == before + added_states(base@) + 1);
            done += 1;
        }
        last_target
    }
}

} // verus!
