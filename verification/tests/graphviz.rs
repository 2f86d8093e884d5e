use regexlib::automata::{Automata, TransitionCondition};
use regexlib::graphviz::{
    automata_to_graphviz, categories_to_string, category_name, character_class_to_string,
    emit_state, transition_to_string,
};
use regexlib::parser::character_class::CharacterClass;
use regexlib::parser::RegexEntry;
use regexlib::unicode::UnicodeCategory;

fn class(pattern: &str) -> CharacterClass {
    CharacterClass::try_parse(pattern).unwrap().unwrap().0
}

#[test]
fn classes_are_written_as_they_were_read() {
    assert_eq!(character_class_to_string(&class("[a]")), "a");
    assert_eq!(character_class_to_string(&class("[a-z]")), "a-z");
    assert_eq!(character_class_to_string(&class("[^a-z]")), "^a-z");
    assert_eq!(character_class_to_string(&class("[xyz]")), "xyz");
    assert_eq!(character_class_to_string(&class("[a-z0-9_^é]")), "a-z0-9_^é");
}

#[test]
fn labels_of_transitions() {
    assert_eq!(transition_to_string(&TransitionCondition::Epsilon), "ε");
    assert_eq!(transition_to_string(&TransitionCondition::Literal('a')), "'a'");
    assert_eq!(transition_to_string(&TransitionCondition::AnyCharacter), "*");
    assert_eq!(
        transition_to_string(&TransitionCondition::CharacterClass(class("[^ab]"))),
        "[^ab]"
    );
    assert_eq!(
        transition_to_string(&TransitionCondition::UnicodeCharacterClass(vec![
            UnicodeCategory::UppercaseLetter,
            UnicodeCategory::LowercaseLetter,
            UnicodeCategory::MathSymbol,
        ])),
        "UppercaseLetter, LowercaseLetter, MathSymbol"
    );
    assert_eq!(
        transition_to_string(&TransitionCondition::NegatedUnicodeClass(vec![
            UnicodeCategory::DecimalNumber,
        ])),
        "!DecimalNumber"
    );
    assert_eq!(
        transition_to_string(&TransitionCondition::UnicodeCharacterClass(vec![])),
        ""
    );
}

#[test]
fn joined_names_have_separators_between_them_only() {
    assert_eq!(categories_to_string(&vec![]), "");
    assert_eq!(categories_to_string(&vec![UnicodeCategory::Control]), "Control");
    assert_eq!(
        categories_to_string(&vec![UnicodeCategory::Control, UnicodeCategory::Format]),
        "Control, Format"
    );
    assert_eq!(category_name(UnicodeCategory::PrivateUse), "PrivateUse");
    assert_eq!(category_name(UnicodeCategory::Unassigned), "Unassigned");
}

#[test]
fn graph_of_a_literal() {
    let automata = Automata::try_from_regex(RegexEntry::parse("a").unwrap()).unwrap();
    assert_eq!(
        automata_to_graphviz(&automata),
        "digraph NFA{\n\
         \tstate0 [label=\"0\",shape=doublecircle];\n\
         \tstate1 [label=\"1\",shape=oval];\n\
         \tstate1 -> state0 [label=\"'a'\"];\n\
         \tstart [shape=plaintext];\n\
         \tstart->state1;\n\
         }"
    );
}

#[test]
fn graph_of_an_alternation_before_and_after_simplification() {
    let mut automata = Automata::try_from_regex(RegexEntry::parse("a|.").unwrap()).unwrap();
    assert_eq!(
        automata_to_graphviz(&automata),
        "digraph NFA{\n\
         \tstate0 [label=\"0\",shape=doublecircle];\n\
         \tstate1 [label=\"1\",shape=oval];\n\
         \tstate1 -> state0 [label=\"'a'\"];\n\
         \tstate2 [label=\"2\",shape=oval];\n\
         \tstate2 -> state0 [label=\"*\"];\n\
         \tstate3 [label=\"3\",shape=oval];\n\
         \tstate3 -> state1 [label=\"ε\"];\n\
         \tstate3 -> state2 [label=\"ε\"];\n\
         \tstart [shape=plaintext];\n\
         \tstart->state3;\n\
         }"
    );
    automata.simplify();
    assert_eq!(
        automata_to_graphviz(&automata),
        "digraph NFA{\n\
         \tstate0 [label=\"0\",shape=doublecircle];\n\
         \tstate1 [label=\"1\",shape=oval];\n\
         \tstate1 -> state0 [label=\"'a'\"];\n\
         \tstate2 [label=\"2\",shape=oval];\n\
         \tstate2 -> state0 [label=\"*\"];\n\
         \tstate3 [label=\"3\",shape=oval];\n\
         \tstate3 -> state0 [label=\"'a'\"];\n\
         \tstate3 -> state0 [label=\"*\"];\n\
         \tstart [shape=plaintext];\n\
         \tstart->state1;\n\
         \tstart->state2;\n\
         \tstart->state3;\n\
         }"
    );
}

#[test]
fn one_state_is_written_behind_what_is_there() {
    let automata = Automata::try_from_regex(RegexEntry::parse("ab").unwrap()).unwrap();
    let mut text = String::from("x");
    emit_state(&automata, 2, &mut text);
    assert_eq!(
        text,
        "x\tstate2 [label=\"2\",shape=oval];\n\tstate2 -> state1 [label=\"'a'\"];\n"
    );
}
