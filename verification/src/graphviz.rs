//! The description of an automaton as a directed graph, in the text form
//! that graph drawing tools read.

use itertools::Itertools;
use vstd::prelude::*;
use vstd::string::*;

use crate::automata::model::NfaModel;
use crate::automata::simplify::index_models;
use crate::automata::{Automata, ConditionModel, TransitionCondition, TransitionModel};
use crate::parser::character_class::{CharacterClass, ClassModel};
use crate::text::{append_decimal, spec_decimal_text};
use crate::unicode::UnicodeCategory;

verus! {

/// `String::push` appends the given scalar to the end of the string.
pub assume_specification[ String::push ](text: &mut String, c: char)
    ensures
        final(text)@ == old(text)@.push(c),
;

/// The texts in a row, with `separator` between each two of them.
pub open spec fn spec_join(texts: Seq<Seq<char>>, separator: Seq<char>) -> Seq<char>
    decreases texts.len(),
{
    if texts.len() == 0 {
        Seq::empty()
    } else if texts.len() == 1 {
        texts[0]
    } else {
        spec_join(texts.drop_last(), separator) + separator + texts.last()
    }
}

/// The scalars of each of the texts.
pub open spec fn text_views(texts: Seq<&'static str>) -> Seq<Seq<char>> {
    Seq::new(texts.len(), |i: int| texts[i]@)
}

/// Calls `itertools::Itertools::join` on the texts: the result is the
/// texts in their order with `separator` between each two, and empty for no
/// text.
#[verifier::external_body]
fn join_texts(texts: &Vec<&'static str>, separator: &str) -> (joined: String)
    ensures
        joined@ == spec_join(text_views(texts@), separator@),
{
    texts.iter().join(separator)
}

/// The name of a general category.
pub open spec fn spec_category_name(category: UnicodeCategory) -> Seq<char> {
    match category {
        UnicodeCategory::UppercaseLetter => "UppercaseLetter"@,
        UnicodeCategory::LowercaseLetter => "LowercaseLetter"@,
        UnicodeCategory::TitlecaseLetter => "TitlecaseLetter"@,
        UnicodeCategory::ModifierLetter => "ModifierLetter"@,
        UnicodeCategory::OtherLetter => "OtherLetter"@,
        UnicodeCategory::NonspacingMark => "NonspacingMark"@,
        UnicodeCategory::SpacingMark => "SpacingMark"@,
        UnicodeCategory::EnclosingMark => "EnclosingMark"@,
        UnicodeCategory::DecimalNumber => "DecimalNumber"@,
        UnicodeCategory::LetterNumber => "LetterNumber"@,
        UnicodeCategory::OtherNumber => "OtherNumber"@,
        UnicodeCategory::ConnectorPunctuation => "ConnectorPunctuation"@,
        UnicodeCategory::DashPunctuation => "DashPunctuation"@,
        UnicodeCategory::OpenPunctuation => "OpenPunctuation"@,
        UnicodeCategory::ClosePunctuation => "ClosePunctuation"@,
        UnicodeCategory::InitialPunctuation => "InitialPunctuation"@,
        UnicodeCategory::FinalPunctuation => "FinalPunctuation"@,
        UnicodeCategory::OtherPunctuation => "OtherPunctuation"@,
        UnicodeCategory::MathSymbol => "MathSymbol"@,
        UnicodeCategory::CurrencySymbol => "CurrencySymbol"@,
        UnicodeCategory::ModifierSymbol => "ModifierSymbol"@,
        UnicodeCategory::OtherSymbol => "OtherSymbol"@,
        UnicodeCategory::SpaceSeparator => "SpaceSeparator"@,
        UnicodeCategory::LineSeparator => "LineSeparator"@,
        UnicodeCategory::ParagraphSeparator => "ParagraphSeparator"@,
        UnicodeCategory::Control => "Control"@,
        UnicodeCategory::Format => "Format"@,
        UnicodeCategory::Surrogate => "Surrogate"@,
        UnicodeCategory::PrivateUse => "PrivateUse"@,
        UnicodeCategory::Unassigned => "Unassigned"@,
    }
}

/// The names of the categories.
pub open spec fn spec_category_names(categories: Seq<UnicodeCategory>) -> Seq<Seq<char>> {
    Seq::new(categories.len(), |i: int| spec_category_name(categories[i]))
}

/// The name of a general category.
pub fn category_name(category: UnicodeCategory) -> (name: &'static str)
    ensures
        name@ == spec_category_name(category),
{
    match category {
        UnicodeCategory::UppercaseLetter => "UppercaseLetter",
        UnicodeCategory::LowercaseLetter => "LowercaseLetter",
        UnicodeCategory::TitlecaseLetter => "TitlecaseLetter",
        UnicodeCategory::ModifierLetter => "ModifierLetter",
        UnicodeCategory::OtherLetter => "OtherLetter",
        UnicodeCategory::NonspacingMark => "NonspacingMark",
        UnicodeCategory::SpacingMark => "SpacingMark",
        UnicodeCategory::EnclosingMark => "EnclosingMark",
        UnicodeCategory::DecimalNumber => "DecimalNumber",
        UnicodeCategory::LetterNumber => "LetterNumber",
        UnicodeCategory::OtherNumber => "OtherNumber",
        UnicodeCategory::ConnectorPunctuation => "ConnectorPunctuation",
        UnicodeCategory::DashPunctuation => "DashPunctuation",
        UnicodeCategory::OpenPunctuation => "OpenPunctuation",
        UnicodeCategory::ClosePunctuation => "ClosePunctuation",
        UnicodeCategory::InitialPunctuation => "InitialPunctuation",
        UnicodeCategory::FinalPunctuation => "FinalPunctuation",
        UnicodeCategory::OtherPunctuation => "OtherPunctuation",
        UnicodeCategory::MathSymbol => "MathSymbol",
        UnicodeCategory::CurrencySymbol => "CurrencySymbol",
        UnicodeCategory::ModifierSymbol => "ModifierSymbol",
        UnicodeCategory::OtherSymbol => "OtherSymbol",
        UnicodeCategory::SpaceSeparator => "SpaceSeparator",
        UnicodeCategory::LineSeparator => "LineSeparator",
        UnicodeCategory::ParagraphSeparator => "ParagraphSeparator",
        UnicodeCategory::Control => "Control",
        UnicodeCategory::Format => "Format",
        UnicodeCategory::Surrogate => "Surrogate",
        UnicodeCategory::PrivateUse => "PrivateUse",
        UnicodeCategory::Unassigned => "Unassigned",
    }
}

/// The names of the categories with a comma and a blank between each two.
pub fn categories_to_string(categories: &Vec<UnicodeCategory>) -> (text: String)
    ensures
        text@ == spec_join(spec_category_names(categories@), ", "@),
{
    let mut names: Vec<&'static str> = Vec::new();
    let mut i: usize = 0;
    while i < categories.len()
        invariant
            i <= categories.len(),
            names@.len() == i,
            forall|j: int| 0 <= j < i ==> (#[trigger] names@[j])@ == spec_category_name(categories@[j]),
        decreases categories.len() - i,
    {
        names.push(category_name(categories[i]));
        i += 1;
    }
    assert(text_views(names@) =~= spec_category_names(categories@));
    join_texts(&names, ", ")
}

/// How a class is written in the label of a transition.
pub open spec fn spec_class_text(class: ClassModel) -> Seq<char>
    decreases class,
{
    match class {
        ClassModel::Negated(inner) => seq!['^'] + spec_class_text(*inner),
        ClassModel::Char(c) => seq![c],
        ClassModel::Range { start, end } => seq![start, '-', end],
        ClassModel::Disjunction(items) => spec_classes_text(items),
    }
}

/// The classes of the list as they are written, in a row.
pub open spec fn spec_classes_text(items: Seq<ClassModel>) -> Seq<char>
    decreases items,
{
    if items.len() == 0 {
        Seq::empty()
    } else {
        spec_classes_text(items.drop_last()) + spec_class_text(items.last())
    }
}

/// Writes a class behind `text`.
fn write_class(text: &mut String, character_class: &CharacterClass)
    ensures
        final(text)@ == old(text)@ + spec_class_text(character_class@),
    decreases character_class,
{
    match character_class {
        CharacterClass::Negated(class) => {
            text.push('^');
            write_class(text, class);
            assert(text@ =~= old(text)@ + spec_class_text(character_class@));
        },
        CharacterClass::Char(ch) => {
            text.push(*ch);
            assert(text@ =~= old(text)@ + spec_class_text(character_class@));
        },
        CharacterClass::Range { start, end } => {
            text.push(*start);
            text.push('-');
            text.push(*end);
            assert(text@ =~= old(text)@ + spec_class_text(character_class@));
        },
        CharacterClass::Disjunction(classes) => {
            let ghost items = character_class@->Disjunction_0;
            let mut i: usize = 0;
            assert(items.subrange(0, 0) =~= Seq::<ClassModel>::empty());
            assert(text@ =~= old(text)@ + spec_classes_text(items.subrange(0, 0)));
            while i < classes.len()
                invariant
                    *character_class == CharacterClass::Disjunction(*classes),
                    items == character_class@->Disjunction_0,
                    items.len() == classes@.len(),
                    i <= classes.len(),
                    text@ == old(text)@ + spec_classes_text(items.subrange(0, i as int)),
                decreases classes.len() - i,
            {
                proof {
                    vstd::std_specs::vec::axiom_vec_index_decreases(*classes, i as int);
                    assert(decreases_to!(*character_class => character_class->Disjunction_0));
                    assert(items.subrange(0, i + 1).drop_last() =~= items.subrange(0, i as int));
                    assert(items.subrange(0, i + 1).last() == classes@[i as int]@);
                }
                let ghost before = text@;
                write_class(text, &classes[i]);
                assert(text@ =~= old(text)@ + spec_classes_text(items.subrange(0, i + 1)));
                i += 1;
            }
            assert(items.subrange(0, i as int) =~= items);
        },
    }
}

/// A class as it is written in the label of a transition.
pub fn character_class_to_string(character_class: &CharacterClass) -> (text: String)
    ensures
        text@ == spec_class_text(character_class@),
{
    let mut text = String::new();
    write_class(&mut text, character_class);
    assert(text@ =~= spec_class_text(character_class@));
    text
}

/// The label of a transition with the given condition. An epsilon
/// transition is labelled with the Greek letter.
pub open spec fn spec_condition_text(condition: ConditionModel) -> Seq<char> {
    match condition {
        ConditionModel::Epsilon => seq!['\u{3b5}'],
        ConditionModel::CharacterClass(class) => seq!['['] + spec_class_text(class) + seq![']'],
        ConditionModel::Literal(c) => seq!['\'', c, '\''],
        ConditionModel::AnyCharacter => seq!['*'],
        ConditionModel::UnicodeCharacterClass(categories) => spec_join(
            spec_category_names(categories),
            ", "@,
        ),
        ConditionModel::NegatedUnicodeClass(categories) => seq!['!'] + spec_join(
            spec_category_names(categories),
            ", "@,
        ),
    }
}

/// The label of a transition with the given condition.
pub fn transition_to_string(transition_condition: &TransitionCondition) -> (text: String)
    ensures
        text@ == spec_condition_text(transition_condition@),
{
    match transition_condition {
        TransitionCondition::Epsilon => {
            let mut text = String::new();
            text.push('\u{3b5}');
            assert(text@ =~= seq!['\u{3b5}']);
            text
        },
        TransitionCondition::CharacterClass(class) => {
            let mut text = String::new();
            text.push('[');
            write_class(&mut text, class);
            text.push(']');
            assert(text@ =~= seq!['['] + spec_class_text(class@) + seq![']']);
            text
        },
        TransitionCondition::Literal(ch) => {
            let mut text = String::new();
            text.push('\'');
            text.push(*ch);
            text.push('\'');
            assert(text@ =~= seq!['\'', *ch, '\'']);
            text
        },
        TransitionCondition::AnyCharacter => {
            let mut text = String::new();
            text.push('*');
            assert(text@ =~= seq!['*']);
            text
        },
        TransitionCondition::UnicodeCharacterClass(categories) => categories_to_string(categories),
        TransitionCondition::NegatedUnicodeClass(categories) => {
            let mut text = String::new();
            text.push('!');
            let names = categories_to_string(categories);
            text.append(names.as_str());
            assert(text@ =~= seq!['!'] + spec_join(spec_category_names(categories@), ", "@));
            text
        },
    }
}

/// The line of one transition: an edge from the state to the target, with
/// the condition as its label.
pub open spec fn spec_edge_text(state_id: int, transition: TransitionModel) -> Seq<char> {
    "\tstate"@ + spec_decimal_text(state_id as nat) + " -> state"@ + spec_decimal_text(
        transition.next_state_id as nat,
    ) + " [label=\""@ + spec_condition_text(transition.condition) + "\"];\n"@
}

/// The lines of the transitions of a state.
pub open spec fn spec_edges_text(state_id: int, transitions: Seq<TransitionModel>) -> Seq<char>
    decreases transitions.len(),
{
    if transitions.len() == 0 {
        Seq::empty()
    } else {
        spec_edges_text(state_id, transitions.drop_last()) + spec_edge_text(
            state_id,
            transitions.last(),
        )
    }
}

/// The line of a state, a node with a double circle where the state is
/// terminal and an oval where it is not.
pub open spec fn spec_node_text(nfa: NfaModel, state_id: int) -> Seq<char> {
    "\tstate"@ + spec_decimal_text(state_id as nat) + " [label=\""@ + spec_decimal_text(
        state_id as nat,
    ) + "\",shape="@ + (if nfa.terminal_states.contains(state_id) {
        "doublecircle"@
    } else {
        "oval"@
    }) + "];\n"@
}

/// The lines of a state: its node and its edges.
pub open spec fn spec_state_text(nfa: NfaModel, state_id: int) -> Seq<char> {
    spec_node_text(nfa, state_id) + spec_edges_text(state_id, nfa.states[state_id])
}

/// The lines of the first `count` states.
pub open spec fn spec_states_text(nfa: NfaModel, count: nat) -> Seq<char>
    decreases count,
{
    if count == 0 {
        Seq::empty()
    } else {
        spec_states_text(nfa, (count - 1) as nat) + spec_state_text(nfa, count - 1)
    }
}

/// The lines that mark the start states.
pub open spec fn spec_starts_text(starts: Seq<int>) -> Seq<char>
    decreases starts.len(),
{
    if starts.len() == 0 {
        Seq::empty()
    } else {
        spec_starts_text(starts.drop_last()) + ("\tstart->state"@ + spec_decimal_text(
            starts.last() as nat,
        ) + ";\n"@)
    }
}

/// The description of an automaton as a directed graph: a node for each
/// state, an edge for each transition, and an edge from a node `start` to
/// each start state.
pub open spec fn spec_graphviz(nfa: NfaModel) -> Seq<char> {
    "digraph NFA{\n"@ + spec_states_text(nfa, nfa.states.len()) + "\tstart [shape=plaintext];\n"@
        + spec_starts_text(nfa.start_states) + "}"@
}

/// Writes the lines of a state behind `graphviz`.
pub fn emit_state(automata: &Automata, state_id: usize, graphviz: &mut String)
    requires
        state_id < automata@.states.len(),
    ensures
        final(graphviz)@ == old(graphviz)@ + spec_state_text(automata@, state_id as int),
{
    let state = automata.get_state(state_id);
    graphviz.append("\tstate");
    append_decimal(graphviz, state_id);
    graphviz.append(" [label=\"");
    append_decimal(graphviz, state_id);
    graphviz.append("\",shape=");
    if automata.is_terminal_state(state_id) {
        graphviz.append("doublecircle");
    } else {
        graphviz.append("oval");
    }
    graphviz.append("];\n");
    assert(graphviz@ =~= old(graphviz)@ + spec_node_text(automata@, state_id as int));
    let ghost transitions = automata@.states[state_id as int];
    let mut i: usize = 0;
    assert(transitions.subrange(0, 0) =~= Seq::<TransitionModel>::empty());
    assert(graphviz@ =~= old(graphviz)@ + spec_node_text(automata@, state_id as int)
        + spec_edges_text(state_id as int, transitions.subrange(0, 0)));
    while i < state.transitions.len()
        invariant
            i <= state.transitions.len(),
            transitions == state@,
            graphviz@ == old(graphviz)@ + spec_node_text(automata@, state_id as int)
                + spec_edges_text(state_id as int, transitions.subrange(0, i as int)),
        decreases state.transitions.len() - i,
    {
        let transition = &state.transitions[i];
        proof {
            assert(transitions.subrange(0, i + 1).drop_last() =~= transitions.subrange(0, i as int));
            assert(transitions.subrange(0, i + 1).last() == transition@);
        }
        let ghost before = graphviz@;
        graphviz.append("\tstate");
        append_decimal(graphviz, state_id);
        graphviz.append(" -> state");
        append_decimal(graphviz, transition.next_state_id);
        graphviz.append(" [label=\"");
        let label = transition_to_string(&transition.condition);
        graphviz.append(label.as_str());
        graphviz.append("\"];\n");
        assert(graphviz@ =~= before + spec_edge_text(state_id as int, transition@));
        assert(graphviz@ =~= old(graphviz)@ + spec_node_text(automata@, state_id as int)
            + spec_edges_text(state_id as int, transitions.subrange(0, i + 1)));
        i += 1;
    }
    assert(transitions.subrange(0, i as int) =~= transitions);
    assert(graphviz@ =~= old(graphviz)@ + spec_state_text(automata@, state_id as int));
}

/// The description of an automaton as a directed graph.
pub fn automata_to_graphviz(automata: &Automata) -> (graphviz: String)
    ensures
        graphviz@ == spec_graphviz(automata@),
{
    let mut graphviz = String::new();
    graphviz.append("digraph NFA{\n");
    let count = automata.state_count();
    let mut state_id: usize = 0;
    assert(graphviz@ =~= "digraph NFA{\n"@ + spec_states_text(automata@, 0));
    while state_id < count
        invariant
            state_id <= count,
            count == automata@.states.len(),
            graphviz@ == "digraph NFA{\n"@ + spec_states_text(automata@, state_id as nat),
        decreases count - state_id,
    {
        emit_state(automata, state_id, &mut graphviz);
        assert(graphviz@ =~= "digraph NFA{\n"@ + spec_states_text(
            automata@,
            (state_id + 1) as nat,
        ));
        state_id += 1;
    }
    graphviz.append("\tstart [shape=plaintext];\n");
    let start_states = automata.start_states();
    let ghost starts = automata@.start_states;
    let ghost head = graphviz@;
    let mut i: usize = 0;
    assert(starts.subrange(0, 0) =~= Seq::<int>::empty());
    assert(graphviz@ =~= head + spec_starts_text(starts.subrange(0, 0)));
    while i < start_states.len()
        invariant
            i <= start_states.len(),
            starts == index_models(start_states@),
            graphviz@ == head + spec_starts_text(starts.subrange(0, i as int)),
        decreases start_states.len() - i,
    {
        proof {
            assert(starts.subrange(0, i + 1).drop_last() =~= starts.subrange(0, i as int));
            assert(starts.subrange(0, i + 1).last() == start_states@[i as int] as int);
        }
        graphviz.append("\tstart->state");
        append_decimal(&mut graphviz, start_states[i]);
        graphviz.append(";\n");
        assert(graphviz@ =~= head + spec_starts_text(starts.subrange(0, i + 1)));
        i += 1;
    }
    assert(starts.subrange(0, i as int) =~= starts);
    graphviz.append("}");
    assert(graphviz@ =~= spec_graphviz(automata@));
    graphviz
}

} // verus!
