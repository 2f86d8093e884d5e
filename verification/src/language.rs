//! The language of a syntax tree: which inputs a pattern describes.

use vstd::prelude::*;

use crate::automata::model::{leaf_condition, least_count};
use crate::parser::AstModel;

verus! {

/// Whether a repetition with the given bounds allows `count` copies.
pub open spec fn count_allowed(min: Option<u64>, max: Option<u64>, count: nat) -> bool {
    least_count(min) <= count && (max matches Some(most) ==> count <= most)
}

/// Whether `input` is in the language of the syntax tree: a leaf describes
/// the single scalars that meet its condition, a concatenation the inputs
/// made of one input of each member in a row, an alternation the inputs of
/// its members, and a repetition the inputs made of an allowed number of
/// inputs of its base in a row.
pub open spec fn ast_matches(entry: AstModel, input: Seq<char>) -> bool
    decreases entry, 0nat, 0nat,
{
    match entry {
        AstModel::Concatenation(members) => seq_matches(members, input),
        AstModel::Alternation(members) => exists|i: int|
            0 <= i < members.len() && ast_matches(#[trigger] members[i], input),
        AstModel::Repetition { base, min, max } => exists|count: nat| #[trigger]
            count_allowed(min, max, count) && rep_matches(*base, count, input),
        _ => input.len() == 1 && leaf_condition(entry).accepts(input[0]),
    }
}

/// Whether `input` is made of one input of each member in a row.
pub open spec fn seq_matches(members: Seq<AstModel>, input: Seq<char>) -> bool
    decreases members, 0nat, 0nat,
{
    if members.len() == 0 {
        input.len() == 0
    } else {
        exists|k: int|
            0 <= k <= input.len() && seq_matches(
                members.drop_last(),
                #[trigger] input.subrange(0, k),
            ) && ast_matches(members.last(), input.subrange(k, input.len() as int))
    }
}

/// Whether `input` is made of `count` inputs of `base` in a row.
pub open spec fn rep_matches(base: AstModel, count: nat, input: Seq<char>) -> bool
    decreases base, 1nat, count,
{
    if count == 0 {
        input.len() == 0
    } else {
        exists|k: int|
            0 <= k <= input.len() && ast_matches(base, #[trigger] input.subrange(0, k))
                && rep_matches(base, (count - 1) as nat, input.subrange(k, input.len() as int))
    }
}

/// Copies in a row behind copies in a row are copies in a row.
pub proof fn lemma_rep_concat(base: AstModel, first: nat, second: nat, input: Seq<char>, k: int)
    requires
        0 <= k <= input.len(),
        rep_matches(base, first, input.subrange(0, k)),
        rep_matches(base, second, input.subrange(k, input.len() as int)),
    ensures
        rep_matches(base, first + second, input),
    decreases first,
{
    let front = input.subrange(0, k);
    if first == 0 {
        assert(input.subrange(k, input.len() as int) =~= input);
    } else {
        let j = choose|j: int|
            0 <= j <= front.len() && ast_matches(base, #[trigger] front.subrange(0, j))
                && rep_matches(base, (first - 1) as nat, front.subrange(j, front.len() as int));
        let rest = input.subrange(j, input.len() as int);
        assert(rest.subrange(0, k - j) =~= front.subrange(j, front.len() as int));
        assert(rest.subrange(k - j, rest.len() as int) =~= input.subrange(k, input.len() as int));
        lemma_rep_concat(base, (first - 1) as nat, second, rest, k - j);
        assert(input.subrange(0, j) =~= front.subrange(0, j));
        assert(ast_matches(base, input.subrange(0, j)));
        assert(rep_matches(base, ((first + second) - 1) as nat, rest));
    }
}

/// Copies in a row can be cut after any number of them.
pub proof fn lemma_rep_split(base: AstModel, first: nat, second: nat, input: Seq<char>)
    requires
        rep_matches(base, first + second, input),
    ensures
        exists|k: int|
            0 <= k <= input.len() && rep_matches(base, first, #[trigger] input.subrange(0, k))
                && rep_matches(base, second, input.subrange(k, input.len() as int)),
    decreases first,
{
    if first == 0 {
        assert(input.subrange(0, 0) =~= Seq::<char>::empty());
        assert(input.subrange(0, input.len() as int) =~= input);
        assert(rep_matches(base, first, input.subrange(0, 0)) && rep_matches(
            base,
            second,
            input.subrange(0, input.len() as int),
        ));
    } else {
        let j = choose|j: int|
            0 <= j <= input.len() && ast_matches(base, #[trigger] input.subrange(0, j))
                && rep_matches(
                base,
                ((first + second) - 1) as nat,
                input.subrange(j, input.len() as int),
            );
        let rest = input.subrange(j, input.len() as int);
        lemma_rep_split(base, (first - 1) as nat, second, rest);
        let k = choose|k: int|
            0 <= k <= rest.len() && rep_matches(
                base,
                (first - 1) as nat,
                #[trigger] rest.subrange(0, k),
            ) && rep_matches(base, second, rest.subrange(k, rest.len() as int));
        let front = input.subrange(0, j + k);
        assert(front.subrange(0, j) =~= input.subrange(0, j));
        assert(front.subrange(j, front.len() as int) =~= rest.subrange(0, k));
        assert(ast_matches(base, front.subrange(0, j)));
        assert(rep_matches(base, first, front));
        assert(input.subrange(j + k, input.len() as int) =~= rest.subrange(k, rest.len() as int));
        assert(rep_matches(base, first, input.subrange(0, j + k)) && rep_matches(
            base,
            second,
            input.subrange(j + k, input.len() as int),
        ));
    }
}

} // verus!
