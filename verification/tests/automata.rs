use regexlib::automata::{Automata, State, Transition, TransitionCondition};
use regexlib::automaton::advance_function::emit_advance_function;
use regexlib::automaton::constructor::AutomatonConstructor;
use regexlib::automaton::is_terminated::emit_is_terminated_function;
use regexlib::automaton::matcher::{advance_from, has_prefix, ScratchSpace};
use regexlib::automaton::state_enum::StateEnum;
use regexlib::automaton::EmittableAutomaton;
use regexlib::parser::RegexEntry;
use regexlib::unicode::UnicodeCategory;

fn built(pattern: &str) -> Automata {
    Automata::try_from_regex(RegexEntry::parse(pattern).unwrap()).unwrap()
}

fn simplified(pattern: &str) -> Automata {
    let mut automata = built(pattern);
    automata.simplify();
    automata
}

fn epsilon(next_state_id: usize) -> Transition {
    Transition::new(next_state_id, TransitionCondition::Epsilon)
}

fn literal(next_state_id: usize, c: char) -> Transition {
    Transition::new(next_state_id, TransitionCondition::Literal(c))
}

#[test]
fn literal_is_one_state_before_the_terminal() {
    let automata = built("a");
    assert_eq!(automata.state_count(), 2);
    assert_eq!(
        automata.states(),
        &vec![
            State {
                id: 0,
                transitions: vec![]
            },
            State {
                id: 1,
                transitions: vec![literal(0, 'a')]
            },
        ]
    );
    assert_eq!(automata.start_states(), &vec![1]);
    assert_eq!(automata.terminal_state_ids(), &vec![0]);
    assert!(automata.is_terminal_state(0));
    assert!(!automata.is_terminal_state(1));
    assert!(automata.prefix().is_empty());
    assert_eq!(automata.get_state(1).transitions.len(), 1);
}

#[test]
fn concatenation_is_built_back_to_front() {
    let automata = built("ab");
    assert_eq!(
        automata.states(),
        &vec![
            State {
                id: 0,
                transitions: vec![]
            },
            State {
                id: 1,
                transitions: vec![literal(0, 'b')]
            },
            State {
                id: 2,
                transitions: vec![literal(1, 'a')]
            },
        ]
    );
    assert_eq!(automata.start_states(), &vec![2]);
}

#[test]
fn alternation_enters_through_a_trampoline() {
    let automata = built("a|b");
    assert_eq!(
        automata.states(),
        &vec![
            State {
                id: 0,
                transitions: vec![]
            },
            State {
                id: 1,
                transitions: vec![literal(0, 'a')]
            },
            State {
                id: 2,
                transitions: vec![literal(0, 'b')]
            },
            State {
                id: 3,
                transitions: vec![epsilon(1), epsilon(2)]
            },
        ]
    );
    assert_eq!(automata.start_states(), &vec![3]);
}

#[test]
fn unbounded_repetition_loops_through_its_trampoline() {
    let automata = built("a+");
    assert_eq!(
        automata.states(),
        &vec![
            State {
                id: 0,
                transitions: vec![]
            },
            State {
                id: 1,
                transitions: vec![epsilon(0), epsilon(2)]
            },
            State {
                id: 2,
                transitions: vec![literal(1, 'a')]
            },
            State {
                id: 3,
                transitions: vec![literal(1, 'a')]
            },
        ]
    );
    assert_eq!(automata.start_states(), &vec![3]);
}

#[test]
fn bounded_repetition_chains_optional_and_mandatory_copies() {
    let automata = built("a{1,2}");
    assert_eq!(
        automata.states(),
        &vec![
            State {
                id: 0,
                transitions: vec![]
            },
            State {
                id: 1,
                transitions: vec![literal(0, 'a')]
            },
            State {
                id: 2,
                transitions: vec![epsilon(1), epsilon(0)]
            },
            State {
                id: 3,
                transitions: vec![literal(2, 'a')]
            },
        ]
    );
    assert_eq!(automata.start_states(), &vec![3]);
}

#[test]
fn classes_become_conditions() {
    let automata = built(r"\d.");
    assert_eq!(
        automata.get_state(2).transitions[0].condition,
        TransitionCondition::UnicodeCharacterClass(vec![
            UnicodeCategory::DecimalNumber,
            UnicodeCategory::OtherNumber,
            UnicodeCategory::LetterNumber,
        ])
    );
    assert_eq!(
        automata.get_state(1).transitions[0].condition,
        TransitionCondition::AnyCharacter
    );
}

#[test]
fn simplified_automaton_has_no_epsilon_no_duplicate_no_dead_state() {
    for pattern in [
        "",
        "a",
        "a*",
        "(a|b)*c",
        "a{2,4}b?",
        "(a|a)(b|b)",
        "((ab)|(cd))*",
        "https?://(([A-Za-z.]+/)+([A-Za-z.]+)?)|([A-Za-z.]+)",
        r"(\d+|\pL*)+x{,3}",
    ] {
        let automata = simplified(pattern);
        let count = automata.state_count();
        assert!(count >= 1);
        for state in automata.states() {
            for (i, transition) in state.transitions.iter().enumerate() {
                assert!(!transition.condition.is_epsilon());
                assert!(transition.next_state_id < count);
                for other in &state.transitions[..i] {
                    assert!(!transition.same(other));
                }
            }
        }
        // every state leads to a terminal state
        let mut live: Vec<bool> = (0..count).map(|s| automata.is_terminal_state(s)).collect();
        let mut changed = true;
        while changed {
            changed = false;
            for state in automata.states() {
                if !live[state.id]
                    && state.transitions.iter().any(|t| live[t.next_state_id])
                {
                    live[state.id] = true;
                    changed = true;
                }
            }
        }
        assert!(live.iter().all(|l| *l));
        for (index, state) in automata.states().iter().enumerate() {
            assert_eq!(state.id, index);
        }
        let starts = automata.start_states();
        for pair in starts.windows(2) {
            assert!(pair[0] < pair[1]);
        }
    }
}

#[test]
fn simplification_of_an_alternation() {
    let automata = simplified("a|b");
    assert_eq!(
        automata.states(),
        &vec![
            State {
                id: 0,
                transitions: vec![]
            },
            State {
                id: 1,
                transitions: vec![literal(0, 'a')]
            },
            State {
                id: 2,
                transitions: vec![literal(0, 'b')]
            },
            State {
                id: 3,
                transitions: vec![literal(0, 'a'), literal(0, 'b')]
            },
        ]
    );
    assert_eq!(automata.start_states(), &vec![1, 2, 3]);
    assert_eq!(automata.terminal_state_ids(), &vec![0]);
}

#[test]
fn prefix_is_peeled_while_the_target_reads_a_literal() {
    let automata = simplified("abc");
    let prefix: String = automata.prefix().iter().collect();
    assert_eq!(prefix, "ab");
    assert_eq!(automata.start_states(), &vec![1]);
    let automata = simplified("ab*");
    assert!(automata.prefix().is_empty());
    let automata = simplified("(a|b)c");
    assert!(automata.prefix().is_empty());
}

#[test]
fn bounds_and_budget() {
    let ordered = RegexEntry::parse("(a{2,3}|b)c{4}").unwrap();
    assert!(Automata::bounds_are_ordered(&ordered));
    assert_eq!(Automata::added_state_count(&ordered), Some(2 + 2 + 1 + 1 + 4));
    let disordered = RegexEntry::parse("x(a{3,2})*").unwrap();
    assert!(!Automata::bounds_are_ordered(&disordered));
    assert!(Automata::try_from_regex(disordered).is_none());
    let huge = RegexEntry::parse("(a{4294967296}){4294967296}").unwrap();
    assert_eq!(Automata::added_state_count(&huge), None);
    let nothing = RegexEntry::parse("((a{4294967296}){4294967296}){0,0}").unwrap();
    assert_eq!(Automata::added_state_count(&nothing), Some(0));
    assert_eq!(built("((a{4294967296}){4294967296}){0,0}").state_count(), 1);
}

#[test]
fn emitted_tables() {
    let automata = simplified("a|b");
    let state_enum = StateEnum::new(&automata);
    assert_eq!(state_enum.len(), 4);
    assert_eq!(state_enum.reference_id(0), "State0");
    assert_eq!(state_enum.reference_id(3), "State3");
    assert_eq!(state_enum.reference_state(automata.get_state(2)), "State2");

    let constructor = AutomatonConstructor::new(&automata, &state_enum);
    assert_eq!(constructor.initial_states, vec![1, 2, 3, 0]);
    assert_eq!(constructor.initial_states_count, 3);

    let handlers = emit_advance_function(&automata, &state_enum);
    assert_eq!(handlers.len(), 4);
    assert_eq!(handlers[0].state, "State0");
    assert!(handlers[0].transitions.is_empty());
    assert_eq!(handlers[3].state, "State3");
    assert_eq!(handlers[3].transitions.len(), 2);
    assert_eq!(handlers[3].transitions[1].target_state, "State0");
    assert_eq!(handlers[3].transitions[1].target_state_id, 0);
    assert_eq!(
        handlers[3].transitions[1].condition,
        TransitionCondition::Literal('b')
    );

    assert_eq!(
        emit_is_terminated_function(&automata, &state_enum),
        vec!["State0".to_string()]
    );

    let emittable = EmittableAutomaton::new(automata);
    assert_eq!(emittable.state_count(), 4);
    assert_eq!(emittable.constructor().initial_states_count, 3);
    assert_eq!(emittable.state_enum().len(), 4);
    assert_eq!(emittable.automaton().state_count(), 4);
    assert!(emittable.matches("a"));
    assert!(!emittable.matches("ab"));
}

#[test]
fn state_tags_count_in_decimal() {
    let automata = built("a{12}");
    let state_enum = StateEnum::new(&automata);
    assert_eq!(state_enum.len(), 13);
    assert_eq!(state_enum.reference_id(9), "State9");
    assert_eq!(state_enum.reference_id(10), "State10");
    assert_eq!(state_enum.reference_id(12), "State12");
}

#[test]
fn unsimplified_automaton_is_matched_without_its_epsilon_transitions() {
    let emittable = EmittableAutomaton::new(built("ab"));
    assert!(emittable.matches("ab"));
    let emittable = EmittableAutomaton::new(built("a|b"));
    assert!(!emittable.matches("a"));
}

#[test]
fn conditions() {
    let class = TransitionCondition::UnicodeCharacterClass(vec![UnicodeCategory::UppercaseLetter]);
    assert!(class.accepts('A'));
    assert!(!class.accepts('a'));
    let negated = TransitionCondition::NegatedUnicodeClass(vec![UnicodeCategory::UppercaseLetter]);
    assert!(!negated.accepts('A'));
    assert!(negated.accepts('a'));
    assert!(TransitionCondition::AnyCharacter.accepts('x'));
    assert!(TransitionCondition::Literal('x').accepts('x'));
    assert!(!TransitionCondition::Literal('x').accepts('y'));
    assert!(!TransitionCondition::Epsilon.accepts('x'));
    assert!(TransitionCondition::Epsilon.is_epsilon());
    assert!(class.same(&class.duplicate()));
    assert!(!class.same(&negated));
    assert_eq!(UnicodeCategory::of('A'), Some(UnicodeCategory::UppercaseLetter));
    assert_eq!(UnicodeCategory::of(' '), Some(UnicodeCategory::SpaceSeparator));
    assert_eq!(UnicodeCategory::of('5'), Some(UnicodeCategory::DecimalNumber));
    assert_eq!(UnicodeCategory::of('!'), Some(UnicodeCategory::OtherPunctuation));
}

#[test]
fn copies_are_equal() {
    let automata = simplified("(a|b)*c[x-z]");
    let copy = automata.clone();
    assert_eq!(copy.states(), automata.states());
    assert_eq!(copy.start_states(), automata.start_states());
    assert_eq!(copy.terminal_state_ids(), automata.terminal_state_ids());
    assert_eq!(copy.prefix(), automata.prefix());
    let state = automata.get_state(1);
    assert_eq!(&state.clone(), state);
    assert_eq!(state.duplicate().id, 1);
    let condition = TransitionCondition::Literal('q');
    assert_eq!(condition.clone(), condition);
    let transition = literal(3, 'q');
    assert_eq!(transition.clone(), transition);
}

#[test]
fn one_step_lists_each_next_state_once() {
    // Both branches lead to the terminal state on `a`.
    let automata = simplified("(a|a)|a");
    let count = automata.state_count();
    let state_enum = StateEnum::new(&automata);
    let constructor = AutomatonConstructor::new(&automata, &state_enum);
    let from = constructor.initial_states.clone();
    let mut to = vec![0; count];
    let mut scratch = ScratchSpace::new(count);
    assert_eq!(scratch.did_add_state, vec![0; count]);
    let added = advance_from(
        automata.states(),
        &from,
        constructor.initial_states_count,
        'a',
        &mut to,
        &mut scratch,
    );
    assert_eq!(added, 1);
    assert_eq!(to[0], 0);
    assert_eq!(scratch.did_add_state_value, 1);
    assert_eq!(scratch.did_add_state[0], 1);
    let mut back = vec![0; count];
    let none = advance_from(automata.states(), &to, added, 'a', &mut back, &mut scratch);
    assert_eq!(none, 0);
    assert_eq!(scratch.did_add_state_value, 2);
    let other = advance_from(
        automata.states(),
        &from,
        constructor.initial_states_count,
        'b',
        &mut back,
        &mut scratch,
    );
    assert_eq!(other, 0);
}

#[test]
fn prefix_of_a_list_of_scalars() {
    let chars: Vec<char> = "hello".chars().collect();
    assert!(has_prefix(&chars, &vec![]));
    assert!(has_prefix(&chars, &vec!['h', 'e']));
    assert!(has_prefix(&chars, &chars));
    assert!(!has_prefix(&chars, &vec!['h', 'a']));
    assert!(!has_prefix(&chars, &"hello!".chars().collect()));
}
