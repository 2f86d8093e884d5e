//! A compiler from regular expressions to matchers. A pattern is scanned
//! into tokens and parsed into a syntax tree; the tree is lowered into a
//! nondeterministic finite automaton, which is simplified and handed to an
//! emitter as a set of tables. The tables can also be run as they are.
//!
//! An input matches a pattern where the whole of it is in the language of
//! the syntax tree (`language::ast_matches`). The automaton and the matcher
//! are proved to accept exactly these inputs.

use vstd::prelude::*;

use crate::automata::equivalence::{lemma_reading_accepts, lemma_simplify_accepts};
use crate::automata::language::starts_with;
use crate::automata::model::{
    added_states, bounds_ordered, lemma_from_regex_wf, spec_from_regex, NfaModel,
};
use crate::automata::properties::{is_simplified_nfa, lemma_simplify_nfa};
use crate::automata::reduction::{all_live, no_duplicates, no_epsilon, spec_simplify_nfa};
use crate::automata::thompson::lemma_from_regex_accepts;
use crate::language::ast_matches;
use crate::automata::Automata;
use crate::automaton::EmittableAutomaton;
use crate::error::RegexError;
use crate::parser::{spec_parse, RegexEntry};

pub mod automata;
pub mod automaton;
pub mod error;
pub mod graphviz;
pub mod language;
pub mod parser;
pub mod text;
pub mod unicode;

verus! {

/// The automaton that a matcher for `pattern` runs: the simplified automaton
/// of the syntax tree of the pattern.
pub open spec fn spec_matcher(pattern: Seq<char>) -> Result<NfaModel, RegexError> {
    match spec_parse(pattern) {
        Err(error) => Err(error),
        Ok(entry) => if !bounds_ordered(entry) {
            Err(RegexError::DisorderedBounds)
        } else if added_states(entry) >= usize::MAX {
            Err(RegexError::TooManyStates)
        } else {
            Ok(spec_simplify_nfa(spec_from_regex(entry)))
        },
    }
}

/// Compiles a pattern: parses it, builds its automaton, simplifies it and
/// prepares it for an emitter.
pub fn matcher(regex: &str) -> (result: Result<EmittableAutomaton, RegexError>)
    ensures
        match spec_matcher(regex@) {
            Ok(model) => result matches Ok(emittable) && emittable@ == model && is_simplified_nfa(
                emittable@,
            ),
            Err(error) => result matches Err(found) && found == error,
        },
{
    let parsed = match RegexEntry::parse(regex) {
        Ok(parsed) => parsed,
        Err(error) => {
            return Err(error);
        },
    };
    if !Automata::bounds_are_ordered(&parsed) {
        return Err(RegexError::DisorderedBounds);
    }
    let mut automaton = match Automata::try_from_regex(parsed) {
        Some(automaton) => automaton,
        None => {
            return Err(RegexError::TooManyStates);
        },
    };
    automaton.simplify();
    Ok(EmittableAutomaton::new(automaton))
}

/// Whether `input` matches `pattern`: compiles the pattern and runs its
/// matcher on the input.
pub fn is_match(regex: &str, input: &str) -> (result: Result<bool, RegexError>)
    ensures
        match spec_matcher(regex@) {
            Ok(_) => result == Ok::<bool, RegexError>(
                ast_matches(spec_parse(regex@)->Ok_0, input@),
            ),
            Err(error) => result == Err::<bool, RegexError>(error),
        },
{
    match matcher(regex) {
        Ok(emittable) => {
            proof {
                law_matcher_reads_language(regex@, input@);
            }
            Ok(emittable.matches(input))
        },
        Err(error) => Err(error),
    }
}

/// The matcher of a pattern accepts an input if and only if the input is in
/// the language of the syntax tree of the pattern: reading all of the input
/// and nothing else leads its automaton from a start state to a terminal
/// state exactly for the inputs that the tree describes.
pub proof fn law_matcher_reads_language(pattern: Seq<char>, input: Seq<char>)
    requires
        spec_matcher(pattern) is Ok,
    ensures
        spec_matcher(pattern)->Ok_0.accepts_reading(input) <==> ast_matches(
            spec_parse(pattern)->Ok_0,
            input,
        ),
{
    let entry = spec_parse(pattern)->Ok_0;
    lemma_from_regex_wf(entry);
    lemma_from_regex_accepts(entry, input);
    lemma_simplify_accepts(spec_from_regex(entry), input);
}

/// Simplification changes no language: the simplified automaton accepts
/// the inputs that the automaton accepted, and a matcher, which takes no
/// epsilon transition, reads all of them.
pub proof fn law_simplification_keeps_language(nfa: NfaModel, input: Seq<char>)
    requires
        nfa.wf(),
    ensures
        spec_simplify_nfa(nfa).accepts(input) <==> nfa.accepts(input),
        spec_simplify_nfa(nfa).accepts_reading(input) <==> nfa.accepts(input),
{
    lemma_simplify_nfa(nfa);
    lemma_simplify_accepts(nfa, input);
    lemma_reading_accepts(spec_simplify_nfa(nfa), input);
}

/// The automaton that is built for a syntax tree accepts the inputs that
/// the tree describes.
pub proof fn law_automaton_accepts_language(entry: crate::parser::AstModel, input: Seq<char>)
    requires
        bounds_ordered(entry),
    ensures
        spec_from_regex(entry).accepts(input) <==> ast_matches(entry, input),
{
    lemma_from_regex_accepts(entry, input);
}

/// A matcher accepts no input that does not start with the literal prefix
/// of its automaton.
pub proof fn law_prefix_is_required(nfa: NfaModel, input: Seq<char>)
    requires
        !starts_with(input, nfa.prefix),
    ensures
        !nfa.accepts_reading(input),
{
}

/// After simplification an automaton has no epsilon transition and no dead
/// state.
pub proof fn law_simplified_is_live_without_epsilon(nfa: NfaModel)
    requires
        nfa.wf(),
    ensures
        no_epsilon(spec_simplify_nfa(nfa).states),
        all_live(spec_simplify_nfa(nfa)),
{
    lemma_simplify_nfa(nfa);
}

/// After simplification no state of an automaton has the same transition
/// twice.
pub proof fn law_simplified_has_no_duplicates(nfa: NfaModel)
    requires
        nfa.wf(),
    ensures
        no_duplicates(spec_simplify_nfa(nfa).states),
{
    lemma_simplify_nfa(nfa);
}

/// Whether an input matches depends on the pattern and the input alone:
/// equal patterns give equal automata, and equal automata accept equal
/// inputs alike.
pub proof fn law_matching_is_a_function(
    first_pattern: Seq<char>,
    second_pattern: Seq<char>,
    first_input: Seq<char>,
    second_input: Seq<char>,
)
    requires
        first_pattern == second_pattern,
        first_input == second_input,
        spec_matcher(first_pattern) is Ok,
    ensures
        spec_matcher(second_pattern) is Ok,
        spec_matcher(first_pattern)->Ok_0.accepts_reading(first_input) == spec_matcher(
            second_pattern,
        )->Ok_0.accepts_reading(second_input),
{
}

} // verus!
