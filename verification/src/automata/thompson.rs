//! The automaton that is built for a syntax tree accepts the language of
//! the tree.

use vstd::prelude::*;

use crate::automata::equivalence::{
    lemma_run_char_step, lemma_run_concat, lemma_run_eps_step, lemma_run_self,
};
use crate::automata::language::{char_step, run, run_in};
use crate::automata::model::{
    added_by_all, added_states, arc, bounds_ordered, closed_range, extends, leaf_condition,
    least_count, lemma_add_extends, lemma_add_shape, lemma_branches_extends,
    lemma_branches_shape, lemma_chain_extends, lemma_chain_shape, lemma_exact_extends,
    lemma_exact_shape, lemma_optional_extends, lemma_optional_shape, spec_add, spec_branches,
    spec_chain, spec_exact, spec_from_regex, spec_optional, within, Graph,
};
use crate::automata::paths::{
    agree, bounded_run, in_first, in_second, lemma_closed_range_agree, lemma_restrict_char,
    lemma_restrict_eps, lemma_restrict_run, lemma_restrict_run_in, lemma_restrict_sub_arcs,
    lemma_run_first, lemma_run_prepend_eps, lemma_run_stuck, lemma_split, lemma_sub_arcs_run,
    restrict, split_at, starts_by_char, starts_by_eps, sub_arcs,
};
use crate::automata::reduction::eps_step;
use crate::automata::{ConditionModel, TransitionModel};
use crate::language::{
    ast_matches, count_allowed, lemma_rep_concat, lemma_rep_split, rep_matches, seq_matches,
};
use crate::parser::AstModel;

verus! {

// ------------------------------------------------------------- tools

/// Whether `count` is one of the numbers from `least` to `most`, or from
/// `least` on where there is no `most`.
pub open spec fn in_counts(count: nat, least: nat, most: Option<nat>) -> bool {
    least <= count && (most matches Some(limit) ==> count <= limit)
}

/// Whether `input` is made of at most `count` inputs of `base` in a row.
pub open spec fn at_most_matches(base: AstModel, count: nat, input: Seq<char>) -> bool {
    exists|n: nat| #[trigger] in_counts(n, 0, Some(count)) && rep_matches(base, n, input)
}

/// Whether `input` is made of inputs of `base` in a row.
pub open spec fn any_matches(base: AstModel, input: Seq<char>) -> bool {
    exists|n: nat| #[trigger] in_counts(n, 0, None) && rep_matches(base, n, input)
}

/// A graph has the states of the graph that it extends.
pub proof fn lemma_extends_agree(longer: Graph, graph: Graph, lo: int, hi: int)
    requires
        extends(longer, graph),
        hi <= graph.len(),
    ensures
        agree(graph, longer, lo, hi),
        agree(longer, graph, lo, hi),
{
    assert forall|s: int| lo <= s < hi && 0 <= s implies s < graph.len() && s < longer.len()
        && #[trigger] graph[s] == longer[s] by {
        assert(longer[s] == graph[s]);
    }
    assert forall|s: int| lo <= s < hi && 0 <= s implies s < longer.len() && s < graph.len()
        && #[trigger] longer[s] == graph[s] by {
        assert(longer[s] == graph[s]);
    }
}

/// Graphs with the same states in a part have the same runs in it.
pub proof fn lemma_transfer(
    left: Graph,
    right: Graph,
    lo: int,
    hi: int,
    from: int,
    input: Seq<char>,
    to: int,
)
    requires
        agree(left, right, lo, hi),
        agree(right, left, lo, hi),
    ensures
        run(restrict(left, lo, hi), from, input, to) <==> run(
            restrict(right, lo, hi),
            from,
            input,
            to,
        ),
{
    if run(restrict(left, lo, hi), from, input, to) {
        lemma_restrict_run(left, right, lo, hi, lo, hi, from, input, to);
    }
    if run(restrict(right, lo, hi), from, input, to) {
        lemma_restrict_run(right, left, lo, hi, lo, hi, from, input, to);
    }
}

/// A run in a part is a run in every part that holds it.
pub proof fn lemma_widen(
    graph: Graph,
    lo: int,
    hi: int,
    wider_lo: int,
    wider_hi: int,
    from: int,
    input: Seq<char>,
    to: int,
)
    requires
        wider_lo <= lo,
        hi <= wider_hi,
        hi <= graph.len(),
        run(restrict(graph, lo, hi), from, input, to),
    ensures
        run(restrict(graph, wider_lo, wider_hi), from, input, to),
{
    assert(agree(graph, graph, lo, hi));
    lemma_restrict_run(graph, graph, lo, hi, wider_lo, wider_hi, from, input, to);
}

/// Two runs in a row in two parts are a run in a part that holds both.
pub proof fn lemma_join(
    graph: Graph,
    lo: int,
    hi: int,
    lo1: int,
    hi1: int,
    lo2: int,
    hi2: int,
    from: int,
    input: Seq<char>,
    k: int,
    mid: int,
    to: int,
)
    requires
        0 <= k <= input.len(),
        lo <= lo1,
        hi1 <= hi,
        lo <= lo2,
        hi2 <= hi,
        hi <= graph.len(),
        run(restrict(graph, lo1, hi1), from, input.subrange(0, k), mid),
        run(restrict(graph, lo2, hi2), mid, input.subrange(k, input.len() as int), to),
    ensures
        run(restrict(graph, lo, hi), from, input, to),
{
    let whole = restrict(graph, lo, hi);
    lemma_widen(graph, lo1, hi1, lo, hi, from, input.subrange(0, k), mid);
    lemma_widen(graph, lo2, hi2, lo, hi, mid, input.subrange(k, input.len() as int), to);
    let steps = choose|steps: nat|
        run_in(whole, mid, input.subrange(k, input.len() as int), to, steps);
    lemma_run_concat(
        whole,
        from,
        input.subrange(0, k),
        mid,
        input.subrange(k, input.len() as int),
        to,
        steps,
    );
    assert(input.subrange(0, k) + input.subrange(k, input.len() as int) =~= input);
}

/// In a part without states a run leads nowhere and reads nothing.
pub proof fn lemma_empty_part(graph: Graph, lo: int, from: int, input: Seq<char>, to: int)
    ensures
        run(restrict(graph, lo, lo), from, input, to) <==> from == to && input.len() == 0,
{
    let part = restrict(graph, lo, lo);
    if run(part, from, input, to) {
        let steps = choose|steps: nat| run_in(part, from, input, to, steps);
        lemma_run_stuck(part, from, input, to, steps);
    }
    if from == to && input.len() == 0 {
        assert(input =~= Seq::<char>::empty());
        lemma_run_self(part, from);
    }
}

/// A run that starts outside a part does not start.
pub proof fn lemma_outside_part(
    graph: Graph,
    lo: int,
    hi: int,
    from: int,
    input: Seq<char>,
    to: int,
    steps: nat,
)
    requires
        !(lo <= from < hi),
        run_in(restrict(graph, lo, hi), from, input, to, steps),
    ensures
        from == to,
        input.len() == 0,
        steps == 0,
{
    lemma_run_stuck(restrict(graph, lo, hi), from, input, to, steps);
}

// ------------------------------------------------------------ leaves

/// Whether the tree is a leaf: it describes single scalars.
pub open spec fn is_leaf(entry: AstModel) -> bool {
    !(entry is Concatenation) && !(entry is Alternation) && !(entry is Repetition)
}

/// The automaton of a leaf reads the single scalars that meet its
/// condition.
pub proof fn lemma_leaf_language(graph: Graph, entry: AstModel, target: int, input: Seq<char>)
    requires
        is_leaf(entry),
        0 <= target < graph.len(),
    ensures
        run(
            restrict(spec_add(graph, entry, target).0, graph.len() as int, graph.len() as int + 1),
            spec_add(graph, entry, target).1,
            input,
            target,
        ) <==> ast_matches(entry, input),
{
    let lo = graph.len() as int;
    let built = spec_add(graph, entry, target).0;
    let part = restrict(built, lo, lo + 1);
    let condition = leaf_condition(entry);
    assert(built[lo] =~= seq![arc(target, condition)]);
    assert(part[lo] == built[lo]);
    if run(part, lo, input, target) {
        let steps = choose|steps: nat| run_in(part, lo, input, target, steps);
        lemma_run_first(part, lo, input, target, steps);
        if starts_by_eps(part, lo, input, target, steps) {
            let mid = choose|mid: int| #[trigger]
                eps_step(part, lo, mid) && run_in(part, mid, input, target, (steps - 1) as nat);
            let i = choose|i: int|
                0 <= i < part[lo].len() && #[trigger] part[lo][i] == arc(
                    mid,
                    ConditionModel::Epsilon,
                );
            assert(false);
        } else {
            let mid = choose|mid: int| #[trigger]
                char_step(part, lo, input[0], mid) && run_in(
                    part,
                    mid,
                    input.drop_first(),
                    target,
                    (steps - 1) as nat,
                );
            let i = choose|i: int|
                0 <= i < part[lo].len() && (#[trigger] part[lo][i]).next_state_id == mid
                    && part[lo][i].condition.accepts(input[0]);
            assert(mid == target);
            lemma_outside_part(
                built,
                lo,
                lo + 1,
                target,
                input.drop_first(),
                target,
                (steps - 1) as nat,
            );
        }
    }
    if ast_matches(entry, input) {
        assert(part[lo][0].next_state_id == target);
        assert(char_step(part, lo, input[0], target));
        lemma_run_self(part, lo);
        lemma_run_char_step(part, lo, Seq::empty(), lo, input[0], target);
        assert(Seq::<char>::empty().push(input[0]) =~= input);
    }
}

// ------------------------------------------------------ the construction

/// The automaton that is added for a tree reads, from its entry to its
/// target, the inputs that the tree describes.
pub proof fn lemma_add_language(graph: Graph, entry: AstModel, target: int, input: Seq<char>)
    requires
        0 <= target < graph.len(),
        bounds_ordered(entry),
    ensures
        run(
            restrict(
                spec_add(graph, entry, target).0,
                graph.len() as int,
                spec_add(graph, entry, target).0.len() as int,
            ),
            spec_add(graph, entry, target).1,
            input,
            target,
        ) <==> ast_matches(entry, input),
    decreases entry, 0nat, 0nat,
{
    let lo = graph.len() as int;
    let (built, start) = spec_add(graph, entry, target);
    let hi = built.len() as int;
    lemma_add_extends(graph, entry, target);
    match entry {
        AstModel::Concatenation(members) => {
            lemma_chain_language(graph, members, target, input);
        },
        AstModel::Alternation(members) => {
            lemma_alternation_language(graph, members, target, input);
        },
        AstModel::Repetition { base, min, max: Some(most) } => {
            lemma_bounded_language(graph, *base, least_count(min), most as nat, target, input);
            if ast_matches(entry, input) {
                let count = choose|count: nat| #[trigger]
                    count_allowed(min, Some(most), count) && rep_matches(*base, count, input);
                assert(in_counts(count, least_count(min), Some(most as nat)));
            }
            if exists|count: nat| #[trigger]
                in_counts(count, least_count(min), Some(most as nat)) && rep_matches(
                    *base,
                    count,
                    input,
                ) {
                let count = choose|count: nat| #[trigger]
                    in_counts(count, least_count(min), Some(most as nat)) && rep_matches(
                        *base,
                        count,
                        input,
                    );
                assert(count_allowed(min, Some(most), count));
            }
        },
        AstModel::Repetition { base, min, max: None } => {
            lemma_unbounded_language(graph, *base, least_count(min), target, input);
            if ast_matches(entry, input) {
                let count = choose|count: nat| #[trigger]
                    count_allowed(min, None, count) && rep_matches(*base, count, input);
                assert(in_counts(count, least_count(min), None));
            }
            if exists|count: nat| #[trigger]
                in_counts(count, least_count(min), None) && rep_matches(*base, count, input) {
                let count = choose|count: nat| #[trigger]
                    in_counts(count, least_count(min), None) && rep_matches(*base, count, input);
                assert(count_allowed(min, None, count));
            }
        },
        _ => {
            lemma_leaf_language(graph, entry, target, input);
        },
    }
}

/// The automata of the members in a row read the inputs made of one input
/// of each member in a row.
pub proof fn lemma_chain_language(graph: Graph, members: Seq<AstModel>, target: int, input: Seq<char>)
    requires
        0 <= target < graph.len(),
        forall|i: int| 0 <= i < members.len() ==> bounds_ordered(#[trigger] members[i]),
    ensures
        run(
            restrict(
                spec_chain(graph, members, target).0,
                graph.len() as int,
                spec_chain(graph, members, target).0.len() as int,
            ),
            spec_chain(graph, members, target).1,
            input,
            target,
        ) <==> seq_matches(members, input),
    decreases members, 0nat, 0nat,
{
    let lo = graph.len() as int;
    if members.len() == 0 {
        lemma_empty_part(graph, lo, target, input, target);
    } else {
        let last = members.last();
        let front = members.drop_last();
        let (g1, e1) = spec_add(graph, last, target);
        let m = g1.len() as int;
        let (g2, e2) = spec_chain(g1, front, e1);
        let hi = g2.len() as int;
        lemma_add_extends(graph, last, target);
        lemma_add_shape(graph, last, target);
        lemma_chain_extends(g1, front, e1);
        lemma_chain_shape(g1, front, e1);
        lemma_extends_agree(g2, g1, lo, m);
        lemma_closed_range_agree(g1, g2, lo, m, target);
        assert forall|i: int| 0 <= i < front.len() implies bounds_ordered(#[trigger] front[i]) by {
            assert(front[i] == members[i]);
        }
        if run(restrict(g2, lo, hi), e2, input, target) {
            let steps = choose|steps: nat| run_in(restrict(g2, lo, hi), e2, input, target, steps);
            lemma_split(g2, lo, hi, m, hi, lo, m, e2, e1, target, input, target, steps);
            if in_first(g2, m, hi, e2, e1, input, target) {
                let k = input.len() as int;
                lemma_chain_language(g1, front, e1, input);
                lemma_run_self(restrict(g1, lo, m), e1);
                lemma_add_language(graph, last, target, Seq::empty());
                assert(input.subrange(0, k) =~= input);
                assert(input.subrange(k, input.len() as int) =~= Seq::<char>::empty());
                assert(seq_matches(front, input.subrange(0, k)));
            } else {
                let k = choose|k: int| #[trigger]
                    split_at(g2, m, hi, lo, m, e2, e1, input, target, steps, k);
                let rest = input.subrange(k, input.len() as int);
                lemma_chain_language(g1, front, e1, input.subrange(0, k));
                let n = choose|n: nat|
                    n <= steps && #[trigger] run_in(restrict(g2, lo, m), e1, rest, target, n);
                lemma_transfer(g1, g2, lo, m, e1, rest, target);
                lemma_add_language(graph, last, target, rest);
                assert(seq_matches(front, input.subrange(0, k)));
            }
        }
        if seq_matches(members, input) {
            let k = choose|k: int|
                0 <= k <= input.len() && seq_matches(front, #[trigger] input.subrange(0, k))
                    && ast_matches(last, input.subrange(k, input.len() as int));
            let rest = input.subrange(k, input.len() as int);
            lemma_chain_language(g1, front, e1, input.subrange(0, k));
            lemma_add_language(graph, last, target, rest);
            lemma_transfer(g1, g2, lo, m, e1, rest, target);
            lemma_join(g2, lo, hi, m, hi, lo, m, e2, input, k, e1, target);
        }
    }
}

/// `count` copies of the automaton of `base` in a row read the inputs made
/// of `count` inputs of `base` in a row.
pub proof fn lemma_exact_language(
    graph: Graph,
    base: AstModel,
    count: nat,
    target: int,
    input: Seq<char>,
)
    requires
        0 <= target < graph.len(),
        bounds_ordered(base),
    ensures
        run(
            restrict(
                spec_exact(graph, base, count, target).0,
                graph.len() as int,
                spec_exact(graph, base, count, target).0.len() as int,
            ),
            spec_exact(graph, base, count, target).1,
            input,
            target,
        ) <==> rep_matches(base, count, input),
    decreases base, 1nat, count,
{
    let lo = graph.len() as int;
    if count == 0 {
        lemma_empty_part(graph, lo, target, input, target);
    } else {
        let fewer = (count - 1) as nat;
        let (g1, e1) = spec_exact(graph, base, fewer, target);
        let m = g1.len() as int;
        let (g2, e2) = spec_add(g1, base, e1);
        let hi = g2.len() as int;
        lemma_exact_extends(graph, base, fewer, target);
        lemma_exact_shape(graph, base, fewer, target);
        lemma_add_extends(g1, base, e1);
        lemma_add_shape(g1, base, e1);
        lemma_extends_agree(g2, g1, lo, m);
        lemma_closed_range_agree(g1, g2, lo, m, target);
        if run(restrict(g2, lo, hi), e2, input, target) {
            let steps = choose|steps: nat| run_in(restrict(g2, lo, hi), e2, input, target, steps);
            lemma_split(g2, lo, hi, m, hi, lo, m, e2, e1, target, input, target, steps);
            if in_first(g2, m, hi, e2, e1, input, target) {
                let k = input.len() as int;
                lemma_add_language(g1, base, e1, input);
                lemma_run_self(restrict(g1, lo, m), e1);
                lemma_exact_language(graph, base, fewer, target, Seq::empty());
                assert(input.subrange(0, k) =~= input);
                assert(input.subrange(k, input.len() as int) =~= Seq::<char>::empty());
                assert(ast_matches(base, input.subrange(0, k)));
            } else {
                let k = choose|k: int| #[trigger]
                    split_at(g2, m, hi, lo, m, e2, e1, input, target, steps, k);
                let rest = input.subrange(k, input.len() as int);
                lemma_add_language(g1, base, e1, input.subrange(0, k));
                let n = choose|n: nat|
                    n <= steps && #[trigger] run_in(restrict(g2, lo, m), e1, rest, target, n);
                lemma_transfer(g1, g2, lo, m, e1, rest, target);
                lemma_exact_language(graph, base, fewer, target, rest);
                assert(ast_matches(base, input.subrange(0, k)));
            }
        }
        if rep_matches(base, count, input) {
            let k = choose|k: int|
                0 <= k <= input.len() && ast_matches(base, #[trigger] input.subrange(0, k))
                    && rep_matches(base, fewer, input.subrange(k, input.len() as int));
            let rest = input.subrange(k, input.len() as int);
            lemma_add_language(g1, base, e1, input.subrange(0, k));
            lemma_exact_language(graph, base, fewer, target, rest);
            lemma_transfer(g1, g2, lo, m, e1, rest, target);
            lemma_join(g2, lo, hi, m, hi, lo, m, e2, input, k, e1, target);
        }
    }
}

/// `count` copies of the automaton of `base` in a row, each of which can be
/// left out with all that follow it, read the inputs made of at most
/// `count` inputs of `base` in a row.
pub proof fn lemma_optional_language(
    graph: Graph,
    base: AstModel,
    count: nat,
    target: int,
    input: Seq<char>,
)
    requires
        0 <= target < graph.len(),
        bounds_ordered(base),
    ensures
        run(
            restrict(
                spec_optional(graph, base, count, target).0,
                graph.len() as int,
                spec_optional(graph, base, count, target).0.len() as int,
            ),
            spec_optional(graph, base, count, target).1,
            input,
            target,
        ) <==> at_most_matches(base, count, input),
    decreases base, 1nat, count,
{
    let lo = graph.len() as int;
    if count == 0 {
        lemma_empty_part(graph, lo, target, input, target);
        if input.len() == 0 {
            assert(in_counts(0, 0, Some(count)) && rep_matches(base, 0, input));
        }
        if at_most_matches(base, count, input) {
            let n = choose|n: nat| #[trigger]
                in_counts(n, 0, Some(count)) && rep_matches(base, n, input);
        }
    } else {
        let fewer = (count - 1) as nat;
        let (g1, after) = spec_optional(graph, base, fewer, target);
        let m1 = g1.len() as int;
        let (g2, start) = spec_add(g1, base, after);
        let m2 = g2.len() as int;
        let trampoline = m2;
        let g3 = spec_optional(graph, base, count, target).0;
        let hi = m2 + 1;
        let whole = restrict(g3, lo, hi);
        lemma_optional_extends(graph, base, fewer, target);
        lemma_optional_shape(graph, base, fewer, target);
        lemma_add_extends(g1, base, after);
        lemma_add_shape(g1, base, after);
        assert(extends(g3, g2));
        assert(extends(g3, g1));
        lemma_extends_agree(g3, g1, lo, m1);
        lemma_extends_agree(g3, g2, m1, m2);
        lemma_extends_agree(g2, g1, lo, m1);
        lemma_closed_range_agree(g1, g3, lo, m1, target);
        lemma_closed_range_agree(g2, g3, m1, m2, after);
        assert(g3[trampoline] =~= seq![
            arc(start, ConditionModel::Epsilon),
            arc(target, ConditionModel::Epsilon),
        ]);
        assert(whole[trampoline] == g3[trampoline]);
        if run(whole, trampoline, input, target) {
            let steps = choose|steps: nat| run_in(whole, trampoline, input, target, steps);
            lemma_run_first(whole, trampoline, input, target, steps);
            if starts_by_char(whole, trampoline, input, target, steps) {
                let mid = choose|mid: int| #[trigger]
                    char_step(whole, trampoline, input[0], mid) && run_in(
                        whole,
                        mid,
                        input.drop_first(),
                        target,
                        (steps - 1) as nat,
                    );
                let i = choose|i: int|
                    0 <= i < whole[trampoline].len() && (
                    #[trigger] whole[trampoline][i]).next_state_id == mid
                        && whole[trampoline][i].condition.accepts(input[0]);
                assert(false);
            }
            let mid = choose|mid: int| #[trigger]
                eps_step(whole, trampoline, mid) && run_in(
                    whole,
                    mid,
                    input,
                    target,
                    (steps - 1) as nat,
                );
            let i = choose|i: int|
                0 <= i < whole[trampoline].len() && #[trigger] whole[trampoline][i] == arc(
                    mid,
                    ConditionModel::Epsilon,
                );
            if mid == target {
                lemma_outside_part(g3, lo, hi, target, input, target, (steps - 1) as nat);
                assert(in_counts(0, 0, Some(count)) && rep_matches(base, 0, input));
            } else {
                assert(mid == start);
                lemma_split(
                    g3,
                    lo,
                    hi,
                    m1,
                    m2,
                    lo,
                    m1,
                    start,
                    after,
                    target,
                    input,
                    target,
                    (steps - 1) as nat,
                );
                if in_first(g3, m1, m2, start, after, input, target) {
                    lemma_transfer(g2, g3, m1, m2, start, input, after);
                    lemma_add_language(g1, base, after, input);
                    assert(input.subrange(0, input.len() as int) =~= input);
                    assert(input.subrange(input.len() as int, input.len() as int)
                        =~= Seq::<char>::empty());
                    assert(ast_matches(base, input.subrange(0, input.len() as int)));
                    assert(rep_matches(
                        base,
                        0,
                        input.subrange(input.len() as int, input.len() as int),
                    ));
                    assert(rep_matches(base, 1, input));
                    assert(in_counts(1, 0, Some(count)));
                } else {
                    let k = choose|k: int| #[trigger]
                        split_at(
                            g3,
                            m1,
                            m2,
                            lo,
                            m1,
                            start,
                            after,
                            input,
                            target,
                            (steps - 1) as nat,
                            k,
                        );
                    let rest = input.subrange(k, input.len() as int);
                    lemma_transfer(g2, g3, m1, m2, start, input.subrange(0, k), after);
                    lemma_add_language(g1, base, after, input.subrange(0, k));
                    let n = choose|n: nat|
                        n <= steps - 1 && #[trigger] run_in(
                            restrict(g3, lo, m1),
                            after,
                            rest,
                            target,
                            n,
                        );
                    lemma_transfer(g1, g3, lo, m1, after, rest, target);
                    lemma_optional_language(graph, base, fewer, target, rest);
                    let copies = choose|copies: nat| #[trigger]
                        in_counts(copies, 0, Some(fewer)) && rep_matches(base, copies, rest);
                    assert(ast_matches(base, input.subrange(0, k)));
                    assert(rep_matches(base, ((copies + 1) - 1) as nat, rest));
                    assert(rep_matches(base, copies + 1, input));
                    assert(in_counts(copies + 1, 0, Some(count)));
                }
            }
        }
        if at_most_matches(base, count, input) {
            let n = choose|n: nat| #[trigger]
                in_counts(n, 0, Some(count)) && rep_matches(base, n, input);
            if n == 0 {
                assert(input =~= Seq::<char>::empty());
                lemma_run_self(whole, trampoline);
                assert(whole[trampoline][1] == arc(target, ConditionModel::Epsilon));
                assert(eps_step(whole, trampoline, target));
                lemma_run_eps_step(whole, trampoline, Seq::empty(), trampoline, target);
            } else {
                let k = choose|k: int|
                    0 <= k <= input.len() && ast_matches(base, #[trigger] input.subrange(0, k))
                        && rep_matches(
                        base,
                        (n - 1) as nat,
                        input.subrange(k, input.len() as int),
                    );
                let rest = input.subrange(k, input.len() as int);
                assert(in_counts((n - 1) as nat, 0, Some(fewer)));
                lemma_optional_language(graph, base, fewer, target, rest);
                lemma_transfer(g1, g3, lo, m1, after, rest, target);
                lemma_add_language(g1, base, after, input.subrange(0, k));
                lemma_transfer(g2, g3, m1, m2, start, input.subrange(0, k), after);
                lemma_join(g3, lo, hi, m1, m2, lo, m1, start, input, k, after, target);
                let steps = choose|steps: nat| run_in(whole, start, input, target, steps);
                assert(whole[trampoline][0] == arc(start, ConditionModel::Epsilon));
                assert(eps_step(whole, trampoline, start));
                lemma_run_prepend_eps(whole, trampoline, start, input, target, steps);
            }
        }
    }
}

/// The automaton of a bounded repetition reads the inputs made of an
/// allowed number of inputs of the base in a row.
pub proof fn lemma_bounded_language(
    graph: Graph,
    base: AstModel,
    least: nat,
    most: nat,
    target: int,
    input: Seq<char>,
)
    requires
        0 <= target < graph.len(),
        bounds_ordered(base),
        least <= most,
    ensures
        ({
            let (optional, after) = spec_optional(graph, base, (most - least) as nat, target);
            let (built, start) = spec_exact(optional, base, least, after);
            run(restrict(built, graph.len() as int, built.len() as int), start, input, target)
                <==> exists|count: nat| #[trigger]
                in_counts(count, least, Some(most)) && rep_matches(base, count, input)
        }),
    decreases base, 2nat, 0nat,
{
    let lo = graph.len() as int;
    let spare = (most - least) as nat;
    let (g1, after) = spec_optional(graph, base, spare, target);
    let m = g1.len() as int;
    let (g2, start) = spec_exact(g1, base, least, after);
    let hi = g2.len() as int;
    lemma_optional_extends(graph, base, spare, target);
    lemma_optional_shape(graph, base, spare, target);
    lemma_exact_extends(g1, base, least, after);
    lemma_exact_shape(g1, base, least, after);
    lemma_extends_agree(g2, g1, lo, m);
    lemma_closed_range_agree(g1, g2, lo, m, target);
    if run(restrict(g2, lo, hi), start, input, target) {
        let steps = choose|steps: nat| run_in(restrict(g2, lo, hi), start, input, target, steps);
        lemma_split(g2, lo, hi, m, hi, lo, m, start, after, target, input, target, steps);
        if in_first(g2, m, hi, start, after, input, target) {
            lemma_exact_language(g1, base, least, after, input);
            assert(in_counts(least, least, Some(most)) && rep_matches(base, least, input));
        } else {
            let k = choose|k: int| #[trigger]
                split_at(g2, m, hi, lo, m, start, after, input, target, steps, k);
            let rest = input.subrange(k, input.len() as int);
            lemma_exact_language(g1, base, least, after, input.subrange(0, k));
            let n = choose|n: nat|
                n <= steps && #[trigger] run_in(restrict(g2, lo, m), after, rest, target, n);
            lemma_transfer(g1, g2, lo, m, after, rest, target);
            lemma_optional_language(graph, base, spare, target, rest);
            let copies = choose|copies: nat| #[trigger]
                in_counts(copies, 0, Some(spare)) && rep_matches(base, copies, rest);
            lemma_rep_concat(base, least, copies, input, k);
            assert(in_counts(least + copies, least, Some(most)) && rep_matches(
                base,
                least + copies,
                input,
            ));
        }
    }
    if exists|count: nat| #[trigger]
        in_counts(count, least, Some(most)) && rep_matches(base, count, input) {
        let count = choose|count: nat| #[trigger]
            in_counts(count, least, Some(most)) && rep_matches(base, count, input);
        let copies = (count - least) as nat;
        assert(least + copies == count);
        lemma_rep_split(base, least, copies, input);
        let k = choose|k: int|
            0 <= k <= input.len() && rep_matches(base, least, #[trigger] input.subrange(0, k))
                && rep_matches(base, copies, input.subrange(k, input.len() as int));
        let rest = input.subrange(k, input.len() as int);
        lemma_exact_language(g1, base, least, after, input.subrange(0, k));
        assert(in_counts(copies, 0, Some(spare)) && rep_matches(base, copies, rest));
        lemma_optional_language(graph, base, spare, target, rest);
        lemma_transfer(g1, g2, lo, m, after, rest, target);
        lemma_join(g2, lo, hi, m, hi, lo, m, start, input, k, after, target);
    }
}

// ------------------------------------------------------------- loops

/// The graph with the loop of an unbounded repetition added: a trampoline
/// that leads to `target` and into a copy of the automaton of `base`, which
/// leads back to the trampoline. With it, the state at which the copy is
/// entered.
pub open spec fn loop_graph(graph: Graph, base: AstModel, target: int) -> (Graph, int) {
    let trampoline = graph.len() as int;
    let opened = graph.push(seq![arc(target, ConditionModel::Epsilon)]);
    let (looped, loop_start) = spec_add(opened, base, trampoline);
    (
        looped.update(
            trampoline,
            looped[trampoline].push(arc(loop_start, ConditionModel::Epsilon)),
        ),
        loop_start,
    )
}

/// The shape of the loop of an unbounded repetition.
pub proof fn lemma_loop_shape(graph: Graph, base: AstModel, target: int)
    requires
        0 <= target < graph.len(),
    ensures
        ({
            let lo = graph.len() as int;
            let opened = graph.push(seq![arc(target, ConditionModel::Epsilon)]);
            let looped = spec_add(opened, base, lo).0;
            let (closed, loop_start) = loop_graph(graph, base, target);
            let m = closed.len() as int;
            &&& m == looped.len()
            &&& lo < m
            &&& extends(closed, graph)
            &&& closed[lo] == seq![
                arc(target, ConditionModel::Epsilon),
                arc(loop_start, ConditionModel::Epsilon),
            ]
            &&& agree(looped, closed, lo + 1, m)
            &&& agree(closed, looped, lo + 1, m)
            &&& closed_range(closed, lo + 1, m, lo)
            &&& within(loop_start, lo + 1, m, lo)
            &&& closed_range(closed, lo, m, target)
        }),
{
    let lo = graph.len() as int;
    let opened = graph.push(seq![arc(target, ConditionModel::Epsilon)]);
    let looped = spec_add(opened, base, lo).0;
    let (closed, loop_start) = loop_graph(graph, base, target);
    let m = closed.len() as int;
    lemma_add_extends(opened, base, lo);
    lemma_add_shape(opened, base, lo);
    assert(looped[lo] == opened[lo]);
    assert(closed[lo] =~= seq![
        arc(target, ConditionModel::Epsilon),
        arc(loop_start, ConditionModel::Epsilon),
    ]);
    assert forall|s: int| lo + 1 <= s < m && 0 <= s implies s < looped.len() && s < closed.len()
        && #[trigger] looped[s] == closed[s] by {}
    assert forall|s: int| lo + 1 <= s < m && 0 <= s implies s < closed.len() && s < looped.len()
        && #[trigger] closed[s] == looped[s] by {}
    lemma_closed_range_agree(looped, closed, lo + 1, m, lo);
    assert forall|i: int| 0 <= i < graph.len() implies closed[i] == graph[i] by {
        assert(looped[i] == opened[i]);
    }
    assert forall|s: int, i: int| lo <= s < m && 0 <= i < closed[s].len() implies within(
        (#[trigger] closed[s][i]).next_state_id,
        lo,
        m,
        target,
    ) by {
        if s > lo {
            assert(within(closed[s][i].next_state_id, lo + 1, m, lo));
        }
    }
}

/// A run from the trampoline of a loop to the target reads inputs of the
/// base in a row.
pub proof fn lemma_star_sound(graph: Graph, base: AstModel, target: int, input: Seq<char>, steps: nat)
    requires
        0 <= target < graph.len(),
        bounds_ordered(base),
        run_in(
            restrict(
                loop_graph(graph, base, target).0,
                graph.len() as int,
                loop_graph(graph, base, target).0.len() as int,
            ),
            graph.len() as int,
            input,
            target,
            steps,
        ),
    ensures
        any_matches(base, input),
    decreases base, 2nat, steps,
{
    let lo = graph.len() as int;
    let opened = graph.push(seq![arc(target, ConditionModel::Epsilon)]);
    let looped = spec_add(opened, base, lo).0;
    let (closed, loop_start) = loop_graph(graph, base, target);
    let m = closed.len() as int;
    let whole = restrict(closed, lo, m);
    lemma_loop_shape(graph, base, target);
    assert(whole[lo] == closed[lo]);
    assert(steps > 0);
    lemma_run_first(whole, lo, input, target, steps);
    if starts_by_char(whole, lo, input, target, steps) {
        let mid = choose|mid: int| #[trigger]
            char_step(whole, lo, input[0], mid) && run_in(
                whole,
                mid,
                input.drop_first(),
                target,
                (steps - 1) as nat,
            );
        let i = choose|i: int|
            0 <= i < whole[lo].len() && (#[trigger] whole[lo][i]).next_state_id == mid
                && whole[lo][i].condition.accepts(input[0]);
        assert(false);
    }
    let mid = choose|mid: int| #[trigger]
        eps_step(whole, lo, mid) && run_in(whole, mid, input, target, (steps - 1) as nat);
    let i = choose|i: int|
        0 <= i < whole[lo].len() && #[trigger] whole[lo][i] == arc(mid, ConditionModel::Epsilon);
    if mid == target {
        lemma_outside_part(closed, lo, m, target, input, target, (steps - 1) as nat);
        assert(in_counts(0, 0, None) && rep_matches(base, 0, input));
    } else {
        assert(mid == loop_start);
        lemma_split(
            closed,
            lo,
            m,
            lo + 1,
            m,
            lo,
            m,
            loop_start,
            lo,
            target,
            input,
            target,
            (steps - 1) as nat,
        );
        assert(!in_first(closed, lo + 1, m, loop_start, lo, input, target));
        let k = choose|k: int| #[trigger]
            split_at(
                closed,
                lo + 1,
                m,
                lo,
                m,
                loop_start,
                lo,
                input,
                target,
                (steps - 1) as nat,
                k,
            );
        let rest = input.subrange(k, input.len() as int);
        lemma_transfer(looped, closed, lo + 1, m, loop_start, input.subrange(0, k), lo);
        lemma_add_language(opened, base, lo, input.subrange(0, k));
        let n = choose|n: nat| n <= steps - 1 && #[trigger] run_in(whole, lo, rest, target, n);
        lemma_star_sound(graph, base, target, rest, n);
        let copies = choose|copies: nat| #[trigger]
            in_counts(copies, 0, None) && rep_matches(base, copies, rest);
        assert(ast_matches(base, input.subrange(0, k)));
        assert(rep_matches(base, ((copies + 1) - 1) as nat, rest));
        assert(rep_matches(base, copies + 1, input));
        assert(in_counts(copies + 1, 0, None));
    }
}

/// Inputs of the base in a row are read by a run from the trampoline of a
/// loop to the target.
pub proof fn lemma_star_complete(graph: Graph, base: AstModel, target: int, copies: nat, input: Seq<char>)
    requires
        0 <= target < graph.len(),
        bounds_ordered(base),
        rep_matches(base, copies, input),
    ensures
        run(
            restrict(
                loop_graph(graph, base, target).0,
                graph.len() as int,
                loop_graph(graph, base, target).0.len() as int,
            ),
            graph.len() as int,
            input,
            target,
        ),
    decreases base, 2nat, copies,
{
    let lo = graph.len() as int;
    let opened = graph.push(seq![arc(target, ConditionModel::Epsilon)]);
    let looped = spec_add(opened, base, lo).0;
    let (closed, loop_start) = loop_graph(graph, base, target);
    let m = closed.len() as int;
    let whole = restrict(closed, lo, m);
    lemma_loop_shape(graph, base, target);
    assert(whole[lo] == closed[lo]);
    if copies == 0 {
        assert(input =~= Seq::<char>::empty());
        lemma_run_self(whole, lo);
        assert(whole[lo][0] == arc(target, ConditionModel::Epsilon));
        assert(eps_step(whole, lo, target));
        lemma_run_eps_step(whole, lo, Seq::empty(), lo, target);
    } else {
        let k = choose|k: int|
            0 <= k <= input.len() && ast_matches(base, #[trigger] input.subrange(0, k))
                && rep_matches(base, (copies - 1) as nat, input.subrange(k, input.len() as int));
        let rest = input.subrange(k, input.len() as int);
        lemma_add_language(opened, base, lo, input.subrange(0, k));
        lemma_transfer(looped, closed, lo + 1, m, loop_start, input.subrange(0, k), lo);
        lemma_star_complete(graph, base, target, (copies - 1) as nat, rest);
        lemma_join(closed, lo, m, lo + 1, m, lo, m, loop_start, input, k, lo, target);
        let steps = choose|steps: nat| run_in(whole, loop_start, input, target, steps);
        assert(whole[lo][1] == arc(loop_start, ConditionModel::Epsilon));
        assert(eps_step(whole, lo, loop_start));
        lemma_run_prepend_eps(whole, lo, loop_start, input, target, steps);
    }
}

/// The automaton of an unbounded repetition reads the inputs made of at
/// least `least` inputs of the base in a row.
pub proof fn lemma_unbounded_language(
    graph: Graph,
    base: AstModel,
    least: nat,
    target: int,
    input: Seq<char>,
)
    requires
        0 <= target < graph.len(),
        bounds_ordered(base),
    ensures
        ({
            let closed = loop_graph(graph, base, target).0;
            let (built, start) = spec_exact(closed, base, least, graph.len() as int);
            run(restrict(built, graph.len() as int, built.len() as int), start, input, target)
                <==> exists|count: nat| #[trigger]
                in_counts(count, least, None) && rep_matches(base, count, input)
        }),
    decreases base, 3nat, 0nat,
{
    let lo = graph.len() as int;
    let (closed, loop_start) = loop_graph(graph, base, target);
    let m = closed.len() as int;
    let (built, start) = spec_exact(closed, base, least, lo);
    let hi = built.len() as int;
    lemma_loop_shape(graph, base, target);
    lemma_exact_extends(closed, base, least, lo);
    lemma_exact_shape(closed, base, least, lo);
    lemma_extends_agree(built, closed, lo, m);
    lemma_closed_range_agree(closed, built, lo, m, target);
    if run(restrict(built, lo, hi), start, input, target) {
        let steps = choose|steps: nat| run_in(restrict(built, lo, hi), start, input, target, steps);
        lemma_split(built, lo, hi, m, hi, lo, m, start, lo, target, input, target, steps);
        assert(!in_first(built, m, hi, start, lo, input, target));
        let k = choose|k: int| #[trigger]
            split_at(built, m, hi, lo, m, start, lo, input, target, steps, k);
        let rest = input.subrange(k, input.len() as int);
        lemma_exact_language(closed, base, least, lo, input.subrange(0, k));
        let n = choose|n: nat|
            n <= steps && #[trigger] run_in(restrict(built, lo, m), lo, rest, target, n);
        lemma_restrict_run_in(built, closed, lo, m, lo, m, lo, rest, target, n);
        lemma_star_sound(graph, base, target, rest, n);
        let copies = choose|copies: nat| #[trigger]
            in_counts(copies, 0, None) && rep_matches(base, copies, rest);
        lemma_rep_concat(base, least, copies, input, k);
        assert(in_counts(least + copies, least, None) && rep_matches(base, least + copies, input));
    }
    if exists|count: nat| #[trigger]
        in_counts(count, least, None) && rep_matches(base, count, input) {
        let count = choose|count: nat| #[trigger]
            in_counts(count, least, None) && rep_matches(base, count, input);
        let copies = (count - least) as nat;
        assert(least + copies == count);
        lemma_rep_split(base, least, copies, input);
        let k = choose|k: int|
            0 <= k <= input.len() && rep_matches(base, least, #[trigger] input.subrange(0, k))
                && rep_matches(base, copies, input.subrange(k, input.len() as int));
        let rest = input.subrange(k, input.len() as int);
        lemma_exact_language(closed, base, least, lo, input.subrange(0, k));
        lemma_star_complete(graph, base, target, copies, rest);
        lemma_transfer(closed, built, lo, m, lo, rest, target);
        lemma_join(built, lo, hi, m, hi, lo, m, start, input, k, lo, target);
    }
}

// ------------------------------------------------------- alternations

/// The index of the first state of the automaton of member `i`.
pub open spec fn branch_lo(graph: Graph, members: Seq<AstModel>, i: int) -> int {
    (graph.len() + added_by_all(members.subrange(0, i))) as int
}

/// The index behind the last state of the automaton of member `i`.
pub open spec fn branch_hi(graph: Graph, members: Seq<AstModel>, i: int) -> int {
    branch_lo(graph, members, i) + added_states(members[i])
}

/// The automaton of a member of an alternation reads the inputs of that
/// member, and its transitions stay in it until they reach the target.
pub proof fn lemma_branch_language(
    graph: Graph,
    members: Seq<AstModel>,
    target: int,
    i: int,
    input: Seq<char>,
)
    requires
        0 <= target < graph.len(),
        0 <= i < members.len(),
        forall|j: int| 0 <= j < members.len() ==> bounds_ordered(#[trigger] members[j]),
    ensures
        ({
            let (built, entries) = spec_branches(graph, members, target);
            let lo = branch_lo(graph, members, i);
            let hi = branch_hi(graph, members, i);
            &&& graph.len() <= lo <= hi <= built.len()
            &&& entries.len() == members.len()
            &&& closed_range(built, lo, hi, target)
            &&& within(entries[i], lo, hi, target)
            &&& run(restrict(built, lo, hi), entries[i], input, target) <==> ast_matches(
                members[i],
                input,
            )
        }),
    decreases members, 0nat, 0nat,
{
    let front = members.drop_last();
    let last = members.last();
    let (g1, front_entries) = spec_branches(graph, front, target);
    let (g2, entry) = spec_add(g1, last, target);
    let lo = branch_lo(graph, members, i);
    let hi = branch_hi(graph, members, i);
    lemma_branches_extends(graph, front, target);
    lemma_add_extends(g1, last, target);
    if i == members.len() - 1 {
        assert(members.subrange(0, i) =~= front);
        lemma_add_shape(g1, last, target);
        lemma_add_language(g1, last, target, input);
    } else {
        assert forall|j: int| 0 <= j < front.len() implies bounds_ordered(#[trigger] front[j]) by {
            assert(front[j] == members[j]);
        }
        lemma_branch_language(graph, front, target, i, input);
        assert(front.subrange(0, i) =~= members.subrange(0, i));
        assert(front[i] == members[i]);
        lemma_extends_agree(g2, g1, lo, hi);
        lemma_closed_range_agree(g1, g2, lo, hi, target);
        lemma_transfer(g1, g2, lo, hi, front_entries[i], input, target);
    }
}

/// The automaton of an alternation reads the inputs of its members.
pub proof fn lemma_alternation_language(
    graph: Graph,
    members: Seq<AstModel>,
    target: int,
    input: Seq<char>,
)
    requires
        0 <= target < graph.len(),
        forall|j: int| 0 <= j < members.len() ==> bounds_ordered(#[trigger] members[j]),
    ensures
        ({
            let (built, start) = spec_add(graph, AstModel::Alternation(members), target);
            run(restrict(built, graph.len() as int, built.len() as int), start, input, target)
                <==> exists|i: int|
                0 <= i < members.len() && ast_matches(#[trigger] members[i], input)
        }),
    decreases members, 1nat, 0nat,
{
    let lo = graph.len() as int;
    let (g1, entries) = spec_branches(graph, members, target);
    let trampoline = g1.len() as int;
    let (built, start) = spec_add(graph, AstModel::Alternation(members), target);
    let hi = built.len() as int;
    let whole = restrict(built, lo, hi);
    lemma_branches_extends(graph, members, target);
    assert(start == trampoline);
    assert(built[trampoline] =~= Seq::new(
        entries.len(),
        |i: int| arc(entries[i], ConditionModel::Epsilon),
    ));
    assert(whole[trampoline] == built[trampoline]);
    assert(extends(built, g1));
    if run(whole, trampoline, input, target) {
        let steps = choose|steps: nat| run_in(whole, trampoline, input, target, steps);
        assert(steps > 0);
        lemma_run_first(whole, trampoline, input, target, steps);
        if starts_by_char(whole, trampoline, input, target, steps) {
            let mid = choose|mid: int| #[trigger]
                char_step(whole, trampoline, input[0], mid) && run_in(
                    whole,
                    mid,
                    input.drop_first(),
                    target,
                    (steps - 1) as nat,
                );
            let i = choose|i: int|
                0 <= i < whole[trampoline].len() && (
                #[trigger] whole[trampoline][i]).next_state_id == mid
                    && whole[trampoline][i].condition.accepts(input[0]);
            assert(false);
        }
        let mid = choose|mid: int| #[trigger]
            eps_step(whole, trampoline, mid) && run_in(
                whole,
                mid,
                input,
                target,
                (steps - 1) as nat,
            );
        let i = choose|i: int|
            0 <= i < whole[trampoline].len() && #[trigger] whole[trampoline][i] == arc(
                mid,
                ConditionModel::Epsilon,
            );
        assert(mid == entries[i]);
        lemma_branch_language(graph, members, target, i, input);
        let first = branch_lo(graph, members, i);
        let last = branch_hi(graph, members, i);
        lemma_extends_agree(built, g1, first, last);
        lemma_closed_range_agree(g1, built, first, last, target);
        assert(closed_range(built, lo, lo, target));
        lemma_split(
            built,
            lo,
            hi,
            first,
            last,
            lo,
            lo,
            entries[i],
            target,
            target,
            input,
            target,
            (steps - 1) as nat,
        );
        if !in_first(built, first, last, entries[i], target, input, target) {
            let k = choose|k: int| #[trigger]
                split_at(
                    built,
                    first,
                    last,
                    lo,
                    lo,
                    entries[i],
                    target,
                    input,
                    target,
                    (steps - 1) as nat,
                    k,
                );
            let rest = input.subrange(k, input.len() as int);
            let n = choose|n: nat|
                n <= steps - 1 && #[trigger] run_in(restrict(built, lo, lo), target, rest, target, n);
            lemma_outside_part(built, lo, lo, target, rest, target, n);
            assert(input.subrange(0, k) =~= input);
        }
        lemma_transfer(g1, built, first, last, entries[i], input, target);
        assert(ast_matches(members[i], input));
    }
    if exists|i: int| 0 <= i < members.len() && ast_matches(#[trigger] members[i], input) {
        let i = choose|i: int| 0 <= i < members.len() && ast_matches(#[trigger] members[i], input);
        lemma_branch_language(graph, members, target, i, input);
        let first = branch_lo(graph, members, i);
        let last = branch_hi(graph, members, i);
        lemma_extends_agree(built, g1, first, last);
        lemma_transfer(g1, built, first, last, entries[i], input, target);
        lemma_widen(built, first, last, lo, hi, entries[i], input, target);
        let steps = choose|steps: nat| run_in(whole, entries[i], input, target, steps);
        assert(whole[trampoline][i] == arc(entries[i], ConditionModel::Epsilon));
        assert(eps_step(whole, trampoline, entries[i]));
        lemma_run_prepend_eps(whole, trampoline, entries[i], input, target, steps);
    }
}

// ------------------------------------------------------------- the whole

/// The automaton of a syntax tree accepts the inputs that the tree
/// describes.
pub proof fn lemma_from_regex_accepts(entry: AstModel, input: Seq<char>)
    requires
        bounds_ordered(entry),
    ensures
        spec_from_regex(entry).accepts(input) <==> ast_matches(entry, input),
{
    let seed: Graph = seq![Seq::empty()];
    let (built, start) = spec_add(seed, entry, 0);
    let nfa = spec_from_regex(entry);
    let hi = built.len() as int;
    let part = restrict(built, 1, hi);
    lemma_add_extends(seed, entry, 0);
    lemma_add_language(seed, entry, 0, input);
    assert(built[0] == seed[0]);
    assert(sub_arcs(part, built)) by {
        assert forall|s: int, wanted: TransitionModel|
            0 <= s < part.len() && #[trigger] part[s].contains(wanted) implies s < built.len()
            && built[s].contains(wanted) by {
            if !(1 <= s < hi) {
                let i = choose|i: int| 0 <= i < part[s].len() && part[s][i] == wanted;
            }
        }
    }
    assert(sub_arcs(built, part)) by {
        assert forall|s: int, wanted: TransitionModel|
            0 <= s < built.len() && #[trigger] built[s].contains(wanted) implies s < part.len()
            && part[s].contains(wanted) by {
            if s == 0 {
                let i = choose|i: int| 0 <= i < built[s].len() && built[s][i] == wanted;
            }
        }
    }
    let rest = input.subrange(0, input.len() as int);
    assert(rest =~= input);
    assert(input.subrange(0, 0) =~= Seq::<char>::empty());
    if nfa.accepts(input) {
        let (i, t) = choose|i: int, t: int|
            0 <= i < nfa.start_states.len() && nfa.terminal_states.contains(t) && #[trigger] run(
                nfa.states,
                nfa.start_states[i],
                rest,
                t,
            );
        let k = choose|k: int| 0 <= k < nfa.terminal_states.len() && nfa.terminal_states[k] == t;
        let steps = choose|steps: nat| run_in(built, start, input, 0, steps);
        lemma_sub_arcs_run(built, part, start, input, 0, steps);
    }
    if ast_matches(entry, input) {
        let steps = choose|steps: nat| run_in(part, start, input, 0, steps);
        lemma_sub_arcs_run(part, built, start, input, 0, steps);
        assert(nfa.terminal_states[0] == 0);
        assert(nfa.terminal_states.contains(0));
        assert(run(nfa.states, nfa.start_states[0], rest, 0));
    }
}

} // verus!
