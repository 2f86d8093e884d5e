//! Runs in parts of a graph, and how a run through two parts is cut in two.

use vstd::prelude::*;

use crate::automata::equivalence::{lemma_run_char_step, lemma_run_eps_step, lemma_run_self};
use crate::automata::language::{char_step, run, run_by_char, run_by_eps, run_in};
use crate::automata::model::{arc, closed_range, within, Graph};
use crate::automata::reduction::eps_step;
use crate::automata::{ConditionModel, TransitionModel};

verus! {

// ------------------------------------------------------- parts of a graph

/// The graph with the transitions of the states `lo..hi` only.
pub open spec fn restrict(graph: Graph, lo: int, hi: int) -> Graph {
    Seq::new(
        graph.len(),
        |s: int|
            if lo <= s < hi {
                graph[s]
            } else {
                Seq::empty()
            },
    )
}

/// Whether the two graphs have the same states `lo..hi`.
pub open spec fn agree(left: Graph, right: Graph, lo: int, hi: int) -> bool {
    forall|s: int|
        lo <= s < hi && 0 <= s ==> s < left.len() && s < right.len() && #[trigger] left[s]
            == right[s]
}

/// The epsilon transitions of a part of a graph.
pub proof fn lemma_restrict_eps(graph: Graph, lo: int, hi: int, from: int, to: int)
    ensures
        eps_step(restrict(graph, lo, hi), from, to) <==> lo <= from < hi && eps_step(
            graph,
            from,
            to,
        ),
{
    let part = restrict(graph, lo, hi);
    if eps_step(part, from, to) {
        let i = choose|i: int|
            0 <= i < part[from].len() && #[trigger] part[from][i] == arc(to, ConditionModel::Epsilon);
        assert(graph[from][i] == arc(to, ConditionModel::Epsilon));
    }
    if lo <= from < hi && eps_step(graph, from, to) {
        let i = choose|i: int|
            0 <= i < graph[from].len() && #[trigger] graph[from][i] == arc(
                to,
                ConditionModel::Epsilon,
            );
        assert(part[from][i] == arc(to, ConditionModel::Epsilon));
    }
}

/// The reading transitions of a part of a graph.
pub proof fn lemma_restrict_char(graph: Graph, lo: int, hi: int, from: int, c: char, to: int)
    ensures
        char_step(restrict(graph, lo, hi), from, c, to) <==> lo <= from < hi && char_step(
            graph,
            from,
            c,
            to,
        ),
{
    let part = restrict(graph, lo, hi);
    if char_step(part, from, c, to) {
        let i = choose|i: int|
            0 <= i < part[from].len() && (#[trigger] part[from][i]).next_state_id == to
                && part[from][i].condition.accepts(c);
        assert(graph[from][i].next_state_id == to);
    }
    if lo <= from < hi && char_step(graph, from, c, to) {
        let i = choose|i: int|
            0 <= i < graph[from].len() && (#[trigger] graph[from][i]).next_state_id == to
                && graph[from][i].condition.accepts(c);
        assert(part[from][i].next_state_id == to);
    }
}

/// Whether every transition of `left` is a transition of `right`.
pub open spec fn sub_arcs(left: Graph, right: Graph) -> bool {
    forall|s: int, wanted: TransitionModel|
        0 <= s < left.len() && #[trigger] left[s].contains(wanted) ==> s < right.len()
            && right[s].contains(wanted)
}

/// An epsilon transition of a graph is one of every graph that has its
/// transitions.
pub proof fn lemma_sub_arcs_eps(left: Graph, right: Graph, from: int, to: int)
    requires
        sub_arcs(left, right),
        eps_step(left, from, to),
    ensures
        eps_step(right, from, to),
{
    let i = choose|i: int|
        0 <= i < left[from].len() && #[trigger] left[from][i] == arc(to, ConditionModel::Epsilon);
    assert(left[from].contains(left[from][i]));
    let j = choose|j: int|
        0 <= j < right[from].len() && right[from][j] == arc(to, ConditionModel::Epsilon);
    assert(right[from][j] == arc(to, ConditionModel::Epsilon));
}

/// A reading transition of a graph is one of every graph that has its
/// transitions.
pub proof fn lemma_sub_arcs_char(left: Graph, right: Graph, from: int, c: char, to: int)
    requires
        sub_arcs(left, right),
        char_step(left, from, c, to),
    ensures
        char_step(right, from, c, to),
{
    let i = choose|i: int|
        0 <= i < left[from].len() && (#[trigger] left[from][i]).next_state_id == to
            && left[from][i].condition.accepts(c);
    assert(left[from].contains(left[from][i]));
    let j = choose|j: int| 0 <= j < right[from].len() && right[from][j] == left[from][i];
    assert(right[from][j].next_state_id == to);
}

/// A run of a graph is a run of every graph that has its transitions.
pub proof fn lemma_sub_arcs_run(
    left: Graph,
    right: Graph,
    from: int,
    input: Seq<char>,
    to: int,
    steps: nat,
)
    requires
        sub_arcs(left, right),
        run_in(left, from, input, to, steps),
    ensures
        run_in(right, from, input, to, steps),
    decreases steps,
{
    if steps > 0 {
        if run_by_eps(left, from, input, to, steps) {
            let mid = choose|mid: int|
                run_in(left, from, input, mid, (steps - 1) as nat) && #[trigger] eps_step(
                    left,
                    mid,
                    to,
                );
            lemma_sub_arcs_eps(left, right, mid, to);
            lemma_sub_arcs_run(left, right, from, input, mid, (steps - 1) as nat);
            assert(run_by_eps(right, from, input, to, steps));
        } else {
            let mid = choose|mid: int|
                run_in(left, from, input.drop_last(), mid, (steps - 1) as nat)
                    && #[trigger] char_step(left, mid, input.last(), to);
            lemma_sub_arcs_char(left, right, mid, input.last(), to);
            lemma_sub_arcs_run(left, right, from, input.drop_last(), mid, (steps - 1) as nat);
            assert(run_by_char(right, from, input, to, steps));
        }
    }
}

/// A part of a graph has its transitions in every graph that has the same
/// states there, in every part that holds it.
pub proof fn lemma_restrict_sub_arcs(
    left: Graph,
    right: Graph,
    lo: int,
    hi: int,
    wider_lo: int,
    wider_hi: int,
)
    requires
        agree(left, right, lo, hi),
        wider_lo <= lo,
        hi <= wider_hi,
    ensures
        sub_arcs(restrict(left, lo, hi), restrict(right, wider_lo, wider_hi)),
{
    let small = restrict(left, lo, hi);
    let large = restrict(right, wider_lo, wider_hi);
    assert forall|s: int, wanted: TransitionModel|
        0 <= s < small.len() && #[trigger] small[s].contains(wanted) implies s < large.len()
        && large[s].contains(wanted) by {
        if lo <= s < hi {
            assert(left[s] == right[s]);
        } else {
            let i = choose|i: int| 0 <= i < small[s].len() && small[s][i] == wanted;
        }
    }
}

/// A run in a part of a graph is a run in the same part of a graph that has
/// the same states there.
pub proof fn lemma_restrict_run(
    left: Graph,
    right: Graph,
    lo: int,
    hi: int,
    wider_lo: int,
    wider_hi: int,
    from: int,
    input: Seq<char>,
    to: int,
)
    requires
        agree(left, right, lo, hi),
        wider_lo <= lo,
        hi <= wider_hi,
        run(restrict(left, lo, hi), from, input, to),
    ensures
        run(restrict(right, wider_lo, wider_hi), from, input, to),
{
    lemma_restrict_sub_arcs(left, right, lo, hi, wider_lo, wider_hi);
    let steps = choose|steps: nat| run_in(restrict(left, lo, hi), from, input, to, steps);
    lemma_sub_arcs_run(
        restrict(left, lo, hi),
        restrict(right, wider_lo, wider_hi),
        from,
        input,
        to,
        steps,
    );
}

/// The same, with the number of transitions.
pub proof fn lemma_restrict_run_in(
    left: Graph,
    right: Graph,
    lo: int,
    hi: int,
    wider_lo: int,
    wider_hi: int,
    from: int,
    input: Seq<char>,
    to: int,
    steps: nat,
)
    requires
        agree(left, right, lo, hi),
        wider_lo <= lo,
        hi <= wider_hi,
        run_in(restrict(left, lo, hi), from, input, to, steps),
    ensures
        run_in(restrict(right, wider_lo, wider_hi), from, input, to, steps),
{
    lemma_restrict_sub_arcs(left, right, lo, hi, wider_lo, wider_hi);
    lemma_sub_arcs_run(
        restrict(left, lo, hi),
        restrict(right, wider_lo, wider_hi),
        from,
        input,
        to,
        steps,
    );
}

/// A part that is closed in a graph is closed in every graph that has the
/// same states there.
pub proof fn lemma_closed_range_agree(left: Graph, right: Graph, lo: int, hi: int, target: int)
    requires
        0 <= lo,
        agree(left, right, lo, hi),
        closed_range(left, lo, hi, target),
    ensures
        closed_range(right, lo, hi, target),
{
    assert forall|s: int, i: int| lo <= s < hi && 0 <= i < right[s].len() implies within(
        (#[trigger] right[s][i]).next_state_id,
        lo,
        hi,
        target,
    ) by {
        assert(left[s] == right[s]);
        assert(within(left[s][i].next_state_id, lo, hi, target));
    }
}

// ------------------------------------------------------ the first step

/// An epsilon transition before a run is a run.
pub proof fn lemma_run_prepend_eps(
    graph: Graph,
    from: int,
    mid: int,
    input: Seq<char>,
    to: int,
    steps: nat,
)
    requires
        eps_step(graph, from, mid),
        run_in(graph, mid, input, to, steps),
    ensures
        run_in(graph, from, input, to, steps + 1),
    decreases steps,
{
    if steps == 0 {
        assert(run_in(graph, from, input, from, 0));
        assert(run_by_eps(graph, from, input, to, 1));
    } else if run_by_eps(graph, mid, input, to, steps) {
        let before = choose|before: int|
            run_in(graph, mid, input, before, (steps - 1) as nat) && #[trigger] eps_step(
                graph,
                before,
                to,
            );
        lemma_run_prepend_eps(graph, from, mid, input, before, (steps - 1) as nat);
        assert(run_in(graph, from, input, before, ((steps + 1) - 1) as nat));
        assert(run_by_eps(graph, from, input, to, steps + 1));
    } else {
        let before = choose|before: int|
            run_in(graph, mid, input.drop_last(), before, (steps - 1) as nat)
                && #[trigger] char_step(graph, before, input.last(), to);
        lemma_run_prepend_eps(graph, from, mid, input.drop_last(), before, (steps - 1) as nat);
        assert(run_in(graph, from, input.drop_last(), before, ((steps + 1) - 1) as nat));
        assert(run_by_char(graph, from, input, to, steps + 1));
    }
}

/// Whether a run of `steps` transitions from `from` to `to` that reads
/// `input` starts with an epsilon transition.
pub open spec fn starts_by_eps(graph: Graph, from: int, input: Seq<char>, to: int, steps: nat) -> bool {
    steps > 0 && exists|mid: int| #[trigger]
        eps_step(graph, from, mid) && run_in(graph, mid, input, to, (steps - 1) as nat)
}

/// Whether a run of `steps` transitions from `from` to `to` that reads
/// `input` starts with a transition that reads the first scalar of `input`.
pub open spec fn starts_by_char(graph: Graph, from: int, input: Seq<char>, to: int, steps: nat) -> bool {
    steps > 0 && input.len() > 0 && exists|mid: int| #[trigger]
        char_step(graph, from, input[0], mid) && run_in(
            graph,
            mid,
            input.drop_first(),
            to,
            (steps - 1) as nat,
        )
}

/// A run of at least one transition starts with a transition.
pub proof fn lemma_run_first(graph: Graph, from: int, input: Seq<char>, to: int, steps: nat)
    requires
        steps > 0,
        run_in(graph, from, input, to, steps),
    ensures
        starts_by_eps(graph, from, input, to, steps) || starts_by_char(
            graph,
            from,
            input,
            to,
            steps,
        ),
    decreases steps,
{
    if run_by_eps(graph, from, input, to, steps) {
        let before = choose|before: int|
            run_in(graph, from, input, before, (steps - 1) as nat) && #[trigger] eps_step(
                graph,
                before,
                to,
            );
        if steps == 1 {
            assert(run_in(graph, to, input, to, 0));
            assert(eps_step(graph, from, to) && run_in(graph, to, input, to, (steps - 1) as nat));
        } else {
            lemma_run_first(graph, from, input, before, (steps - 1) as nat);
            if starts_by_eps(graph, from, input, before, (steps - 1) as nat) {
                let mid = choose|mid: int| #[trigger]
                    eps_step(graph, from, mid) && run_in(
                        graph,
                        mid,
                        input,
                        before,
                        (steps - 2) as nat,
                    );
                assert(run_by_eps(graph, mid, input, to, (steps - 1) as nat));
                assert(eps_step(graph, from, mid) && run_in(
                    graph,
                    mid,
                    input,
                    to,
                    (steps - 1) as nat,
                ));
            } else {
                let mid = choose|mid: int| #[trigger]
                    char_step(graph, from, input[0], mid) && run_in(
                        graph,
                        mid,
                        input.drop_first(),
                        before,
                        (steps - 2) as nat,
                    );
                assert(run_by_eps(graph, mid, input.drop_first(), to, (steps - 1) as nat));
                assert(char_step(graph, from, input[0], mid) && run_in(
                    graph,
                    mid,
                    input.drop_first(),
                    to,
                    (steps - 1) as nat,
                ));
            }
        }
    } else {
        let before = choose|before: int|
            run_in(graph, from, input.drop_last(), before, (steps - 1) as nat)
                && #[trigger] char_step(graph, before, input.last(), to);
        if steps == 1 {
            assert(input.drop_first() =~= Seq::<char>::empty());
            assert(input[0] == input.last());
            assert(run_in(graph, to, input.drop_first(), to, 0));
            assert(char_step(graph, from, input[0], to) && run_in(
                graph,
                to,
                input.drop_first(),
                to,
                (steps - 1) as nat,
            ));
        } else {
            lemma_run_first(graph, from, input.drop_last(), before, (steps - 1) as nat);
            if starts_by_eps(graph, from, input.drop_last(), before, (steps - 1) as nat) {
                let mid = choose|mid: int| #[trigger]
                    eps_step(graph, from, mid) && run_in(
                        graph,
                        mid,
                        input.drop_last(),
                        before,
                        (steps - 2) as nat,
                    );
                assert(run_by_char(graph, mid, input, to, (steps - 1) as nat));
                assert(eps_step(graph, from, mid) && run_in(
                    graph,
                    mid,
                    input,
                    to,
                    (steps - 1) as nat,
                ));
            } else {
                let shorter = input.drop_last();
                let mid = choose|mid: int| #[trigger]
                    char_step(graph, from, shorter[0], mid) && run_in(
                        graph,
                        mid,
                        shorter.drop_first(),
                        before,
                        (steps - 2) as nat,
                    );
                assert(input.drop_first().drop_last() =~= shorter.drop_first());
                assert(input.drop_first().last() == input.last());
                assert(shorter[0] == input[0]);
                assert(run_by_char(graph, mid, input.drop_first(), to, (steps - 1) as nat));
                assert(char_step(graph, from, input[0], mid) && run_in(
                    graph,
                    mid,
                    input.drop_first(),
                    to,
                    (steps - 1) as nat,
                ));
            }
        }
    }
}

/// From a state without transitions no run leads away.
pub proof fn lemma_run_stuck(graph: Graph, from: int, input: Seq<char>, to: int, steps: nat)
    requires
        !(0 <= from < graph.len()) || graph[from].len() == 0,
        run_in(graph, from, input, to, steps),
    ensures
        steps == 0,
        from == to,
        input.len() == 0,
{
    if steps > 0 {
        lemma_run_first(graph, from, input, to, steps);
        if starts_by_eps(graph, from, input, to, steps) {
            let mid = choose|mid: int| #[trigger]
                eps_step(graph, from, mid) && run_in(graph, mid, input, to, (steps - 1) as nat);
            assert(false);
        } else {
            let mid = choose|mid: int| #[trigger]
                char_step(graph, from, input[0], mid) && run_in(
                    graph,
                    mid,
                    input.drop_first(),
                    to,
                    (steps - 1) as nat,
                );
            assert(false);
        }
    }
}

// ------------------------------------------------------ two parts in a row

/// Whether a run of at most `steps` transitions leads from `from` to `to`
/// reading `input`.
pub open spec fn bounded_run(graph: Graph, from: int, input: Seq<char>, to: int, steps: nat) -> bool {
    exists|n: nat| n <= steps && #[trigger] run_in(graph, from, input, to, n)
}

/// Whether reading the scalars before `k` leads from `first` to `second` in
/// the first part, and reading the scalars from `k` on leads from `second`
/// to `to` in the second part, by at most `steps` transitions.
pub open spec fn split_at(
    graph: Graph,
    m1: int,
    h1: int,
    lo2: int,
    h2: int,
    first: int,
    second: int,
    input: Seq<char>,
    to: int,
    steps: nat,
    k: int,
) -> bool {
    0 <= k <= input.len() && run(restrict(graph, m1, h1), first, input.subrange(0, k), second)
        && bounded_run(
        restrict(graph, lo2, h2),
        second,
        input.subrange(k, input.len() as int),
        to,
        steps,
    )
}

/// Whether a run is still in the first part.
pub open spec fn in_first(
    graph: Graph,
    m1: int,
    h1: int,
    first: int,
    second: int,
    input: Seq<char>,
    to: int,
) -> bool {
    within(to, m1, h1, second) && run(restrict(graph, m1, h1), first, input, to)
}

/// Whether a run has left the first part through `second` and is in the
/// second part.
pub open spec fn in_second(
    graph: Graph,
    m1: int,
    h1: int,
    lo2: int,
    h2: int,
    first: int,
    second: int,
    target: int,
    input: Seq<char>,
    to: int,
    steps: nat,
) -> bool {
    within(to, lo2, h2, target) && exists|k: int| #[trigger]
        split_at(graph, m1, h1, lo2, h2, first, second, input, to, steps, k)
}

/// Where the transitions of a first part stay in it until they reach
/// `second`, and those of a second part stay in it until they reach
/// `target`, a run that starts in the first part stays in it, or has left
/// it through `second` and is in the second part.
pub proof fn lemma_split(
    graph: Graph,
    lo: int,
    hi: int,
    m1: int,
    h1: int,
    lo2: int,
    h2: int,
    first: int,
    second: int,
    target: int,
    input: Seq<char>,
    to: int,
    steps: nat,
)
    requires
        0 <= lo <= m1 <= h1 <= hi,
        lo <= lo2 <= h2 <= hi,
        !(lo <= target < hi),
        closed_range(graph, m1, h1, second),
        closed_range(graph, lo2, h2, target),
        within(second, lo2, h2, target),
        within(first, m1, h1, second),
        run_in(restrict(graph, lo, hi), first, input, to, steps),
    ensures
        in_first(graph, m1, h1, first, second, input, to) || in_second(
            graph,
            m1,
            h1,
            lo2,
            h2,
            first,
            second,
            target,
            input,
            to,
            steps,
        ),
    decreases steps,
{
    let whole = restrict(graph, lo, hi);
    let part1 = restrict(graph, m1, h1);
    let part2 = restrict(graph, lo2, h2);
    if steps == 0 {
        assert(input =~= Seq::<char>::empty());
        lemma_run_self(part1, first);
    } else if run_by_eps(whole, first, input, to, steps) {
        let mid = choose|mid: int|
            run_in(whole, first, input, mid, (steps - 1) as nat) && #[trigger] eps_step(
                whole,
                mid,
                to,
            );
        lemma_restrict_eps(graph, lo, hi, mid, to);
        let i = choose|i: int|
            0 <= i < graph[mid].len() && #[trigger] graph[mid][i] == arc(
                to,
                ConditionModel::Epsilon,
            );
        lemma_split(
            graph,
            lo,
            hi,
            m1,
            h1,
            lo2,
            h2,
            first,
            second,
            target,
            input,
            mid,
            (steps - 1) as nat,
        );
        if in_first(graph, m1, h1, first, second, input, mid) {
            if m1 <= mid < h1 {
                assert(within(graph[mid][i].next_state_id, m1, h1, second));
                lemma_restrict_eps(graph, m1, h1, mid, to);
                lemma_run_eps_step(part1, first, input, mid, to);
            } else {
                assert(within(graph[mid][i].next_state_id, lo2, h2, target));
                lemma_restrict_eps(graph, lo2, h2, mid, to);
                let k = input.len() as int;
                assert(input.subrange(0, k) =~= input);
                assert(input.subrange(k, k) =~= Seq::<char>::empty());
                assert(run_in(part2, second, Seq::empty(), second, 0));
                assert(run_by_eps(part2, second, Seq::empty(), to, 1));
                assert(run_in(part2, second, input.subrange(k, k), to, 1));
                assert(split_at(graph, m1, h1, lo2, h2, first, second, input, to, steps, k));
            }
        } else {
            let k = choose|k: int| #[trigger]
                split_at(
                    graph,
                    m1,
                    h1,
                    lo2,
                    h2,
                    first,
                    second,
                    input,
                    mid,
                    (steps - 1) as nat,
                    k,
                );
            let rest = input.subrange(k, input.len() as int);
            let n = choose|n: nat| n <= steps - 1 && #[trigger] run_in(part2, second, rest, mid, n);
            assert(within(graph[mid][i].next_state_id, lo2, h2, target));
            lemma_restrict_eps(graph, lo2, h2, mid, to);
            assert(run_in(part2, second, rest, mid, ((n + 1) - 1) as nat));
            assert(run_by_eps(part2, second, rest, to, n + 1));
            assert(run_in(part2, second, rest, to, n + 1));
            assert(split_at(graph, m1, h1, lo2, h2, first, second, input, to, steps, k));
        }
    } else {
        let shorter = input.drop_last();
        let c = input.last();
        let mid = choose|mid: int|
            run_in(whole, first, shorter, mid, (steps - 1) as nat) && #[trigger] char_step(
                whole,
                mid,
                c,
                to,
            );
        lemma_restrict_char(graph, lo, hi, mid, c, to);
        let i = choose|i: int|
            0 <= i < graph[mid].len() && (#[trigger] graph[mid][i]).next_state_id == to
                && graph[mid][i].condition.accepts(c);
        lemma_split(
            graph,
            lo,
            hi,
            m1,
            h1,
            lo2,
            h2,
            first,
            second,
            target,
            shorter,
            mid,
            (steps - 1) as nat,
        );
        if in_first(graph, m1, h1, first, second, shorter, mid) {
            if m1 <= mid < h1 {
                assert(within(graph[mid][i].next_state_id, m1, h1, second));
                lemma_restrict_char(graph, m1, h1, mid, c, to);
                lemma_run_char_step(part1, first, shorter, mid, c, to);
                assert(shorter.push(c) =~= input);
            } else {
                assert(within(graph[mid][i].next_state_id, lo2, h2, target));
                lemma_restrict_char(graph, lo2, h2, mid, c, to);
                let k = shorter.len() as int;
                assert(input.subrange(0, k) =~= shorter);
                let rest = input.subrange(k, input.len() as int);
                assert(rest.drop_last() =~= Seq::<char>::empty());
                assert(rest.last() == c);
                assert(run_in(part2, second, rest.drop_last(), second, 0));
                assert(run_by_char(part2, second, rest, to, 1));
                assert(run_in(part2, second, rest, to, 1));
                assert(split_at(graph, m1, h1, lo2, h2, first, second, input, to, steps, k));
            }
        } else {
            let k = choose|k: int| #[trigger]
                split_at(
                    graph,
                    m1,
                    h1,
                    lo2,
                    h2,
                    first,
                    second,
                    shorter,
                    mid,
                    (steps - 1) as nat,
                    k,
                );
            let before = shorter.subrange(k, shorter.len() as int);
            let n = choose|n: nat| n <= steps - 1 && #[trigger] run_in(part2, second, before, mid, n);
            assert(within(graph[mid][i].next_state_id, lo2, h2, target));
            lemma_restrict_char(graph, lo2, h2, mid, c, to);
            let rest = input.subrange(k, input.len() as int);
            assert(rest.drop_last() =~= before);
            assert(rest.last() == c);
            assert(input.subrange(0, k) =~= shorter.subrange(0, k));
            assert(run_in(part2, second, rest.drop_last(), mid, ((n + 1) - 1) as nat));
            assert(run_by_char(part2, second, rest, to, n + 1));
            assert(run_in(part2, second, rest, to, n + 1));
            assert(split_at(graph, m1, h1, lo2, h2, first, second, input, to, steps, k));
        }
    }
}

} // verus!
