//! Simplification keeps what an automaton accepts.

use vstd::prelude::*;

use crate::automata::language::{
    char_step, read_from_any, read_run, run, run_by_char, run_by_eps, run_in, starts_with,
};
use crate::automata::model::{arc, graph_wf, Graph, NfaModel};
use crate::automata::properties::{
    emitted_by, lemma_dedup, lemma_eliminated_state, lemma_live_rank_injective_index,
    lemma_live_rank_names, lemma_reached_below, lemma_renumbered, lemma_renumbered_indices,
    lemma_removed_state, renumbers,
};
use crate::automata::reduction::{
    can_peel, eps_reach, eps_reach_any, eps_reach_in, eps_step, live, live_in, live_rank,
    live_states, peel, reading_step, renumbered, renumbered_indices, spec_dedup,
    spec_dedup_graph, spec_dedup_nfa, spec_eliminate, spec_eliminate_graph,
    spec_eliminate_starts, spec_extract_prefix, spec_remove_dead, spec_simplify_nfa,
};
use crate::automata::simplify::{
    lemma_eps_reach_self, lemma_eps_reach_step, lemma_live_below, lemma_live_step,
};
use crate::automata::{ConditionModel, TransitionModel};

verus! {

// ------------------------------------------------------------------ runs

/// The run without a transition leads from a state to itself and reads
/// nothing.
pub proof fn lemma_run_self(graph: Graph, state: int)
    ensures
        run(graph, state, Seq::empty(), state),
{
    assert(run_in(graph, state, Seq::empty(), state, 0));
}

/// A run goes on by an epsilon transition.
pub proof fn lemma_run_eps_step(graph: Graph, from: int, input: Seq<char>, mid: int, to: int)
    requires
        run(graph, from, input, mid),
        eps_step(graph, mid, to),
    ensures
        run(graph, from, input, to),
{
    let steps = choose|steps: nat| run_in(graph, from, input, mid, steps);
    assert(run_in(graph, from, input, mid, ((steps + 1) - 1) as nat));
    assert(run_by_eps(graph, from, input, to, steps + 1));
    assert(run_in(graph, from, input, to, steps + 1));
}

/// A run goes on by a transition that reads a scalar.
pub proof fn lemma_run_char_step(
    graph: Graph,
    from: int,
    input: Seq<char>,
    mid: int,
    c: char,
    to: int,
)
    requires
        run(graph, from, input, mid),
        char_step(graph, mid, c, to),
    ensures
        run(graph, from, input.push(c), to),
{
    let steps = choose|steps: nat| run_in(graph, from, input, mid, steps);
    let longer = input.push(c);
    assert(longer.drop_last() =~= input);
    assert(longer.last() == c);
    assert(run_in(graph, from, longer.drop_last(), mid, ((steps + 1) - 1) as nat));
    assert(run_by_char(graph, from, longer, to, steps + 1));
    assert(run_in(graph, from, longer, to, steps + 1));
}

/// Two runs in a row are one run.
pub proof fn lemma_run_concat(
    graph: Graph,
    from: int,
    first: Seq<char>,
    mid: int,
    second: Seq<char>,
    to: int,
    steps: nat,
)
    requires
        run(graph, from, first, mid),
        run_in(graph, mid, second, to, steps),
    ensures
        run(graph, from, first + second, to),
    decreases steps,
{
    if steps == 0 {
        assert(first + second =~= first);
    } else {
        if run_by_eps(graph, mid, second, to, steps) {
            let before = choose|before: int|
                run_in(graph, mid, second, before, (steps - 1) as nat) && #[trigger] eps_step(
                    graph,
                    before,
                    to,
                );
            lemma_run_concat(graph, from, first, mid, second, before, (steps - 1) as nat);
            lemma_run_eps_step(graph, from, first + second, before, to);
        } else {
            let before = choose|before: int|
                run_in(graph, mid, second.drop_last(), before, (steps - 1) as nat)
                    && #[trigger] char_step(graph, before, second.last(), to);
            lemma_run_concat(
                graph,
                from,
                first,
                mid,
                second.drop_last(),
                before,
                (steps - 1) as nat,
            );
            lemma_run_char_step(
                graph,
                from,
                first + second.drop_last(),
                before,
                second.last(),
                to,
            );
            assert((first + second.drop_last()).push(second.last()) =~= first + second);
        }
    }
}

/// Epsilon transitions alone are a run that reads nothing.
pub proof fn lemma_eps_reach_runs(graph: Graph, from: int, to: int, steps: nat)
    requires
        eps_reach_in(graph, from, to, steps),
    ensures
        run_in(graph, from, Seq::empty(), to, steps),
    decreases steps,
{
    if steps > 0 {
        let mid = choose|mid: int|
            eps_reach_in(graph, from, mid, (steps - 1) as nat) && #[trigger] eps_step(
                graph,
                mid,
                to,
            );
        lemma_eps_reach_runs(graph, from, mid, (steps - 1) as nat);
        assert(run_by_eps(graph, from, Seq::empty(), to, steps));
    }
}

/// What is reached from what is reached is reached.
pub proof fn lemma_eps_reach_trans(graph: Graph, from: int, mid: int, to: int, steps: nat)
    requires
        eps_reach(graph, from, mid),
        eps_reach_in(graph, mid, to, steps),
    ensures
        eps_reach(graph, from, to),
    decreases steps,
{
    if steps > 0 {
        let before = choose|before: int|
            eps_reach_in(graph, mid, before, (steps - 1) as nat) && #[trigger] eps_step(
                graph,
                before,
                to,
            );
        lemma_eps_reach_trans(graph, from, mid, before, (steps - 1) as nat);
        lemma_eps_reach_step(graph, from, before, to);
    }
}

/// In a well-formed graph epsilon transitions lead to states of the graph.
pub proof fn lemma_eps_reach_in_range(graph: Graph, from: int, to: int, steps: nat)
    requires
        graph_wf(graph),
        0 <= from < graph.len(),
        eps_reach_in(graph, from, to, steps),
    ensures
        0 <= to < graph.len(),
    decreases steps,
{
    if steps > 0 {
        let mid = choose|mid: int|
            eps_reach_in(graph, from, mid, (steps - 1) as nat) && #[trigger] eps_step(
                graph,
                mid,
                to,
            );
        lemma_eps_reach_in_range(graph, from, mid, (steps - 1) as nat);
        let i = choose|i: int|
            0 <= i < graph[mid].len() && #[trigger] graph[mid][i] == arc(
                to,
                ConditionModel::Epsilon,
            );
        assert(0 <= graph[mid][i].next_state_id < graph.len());
    }
}

/// Reading leads to states of a well-formed graph.
pub proof fn lemma_read_run_in_range(graph: Graph, from: int, input: Seq<char>, to: int)
    requires
        graph_wf(graph),
        0 <= from < graph.len(),
        read_run(graph, from, input, to),
    ensures
        0 <= to < graph.len(),
    decreases input.len(),
{
    if input.len() > 0 {
        let mid = choose|mid: int|
            read_run(graph, from, input.drop_last(), mid) && #[trigger] char_step(
                graph,
                mid,
                input.last(),
                to,
            );
        let i = choose|i: int|
            0 <= i < graph[mid].len() && (#[trigger] graph[mid][i]).next_state_id == to
                && graph[mid][i].condition.accepts(input.last());
        assert(0 <= graph[mid][i].next_state_id < graph.len());
    }
}

/// Reading is a run.
pub proof fn lemma_read_run_runs(graph: Graph, from: int, input: Seq<char>, to: int)
    requires
        read_run(graph, from, input, to),
    ensures
        run(graph, from, input, to),
    decreases input.len(),
{
    if input.len() == 0 {
        assert(input =~= Seq::<char>::empty());
        lemma_run_self(graph, from);
    } else {
        let mid = choose|mid: int|
            read_run(graph, from, input.drop_last(), mid) && #[trigger] char_step(
                graph,
                mid,
                input.last(),
                to,
            );
        lemma_read_run_runs(graph, from, input.drop_last(), mid);
        lemma_run_char_step(graph, from, input.drop_last(), mid, input.last(), to);
        assert(input.drop_last().push(input.last()) =~= input);
    }
}

/// Where there is no epsilon transition, every run is a reading.
pub proof fn lemma_run_reads(graph: Graph, from: int, input: Seq<char>, to: int, steps: nat)
    requires
        crate::automata::reduction::no_epsilon(graph),
        run_in(graph, from, input, to, steps),
    ensures
        read_run(graph, from, input, to),
    decreases steps,
{
    if steps > 0 {
        if run_by_eps(graph, from, input, to, steps) {
            let mid = choose|mid: int|
                run_in(graph, from, input, mid, (steps - 1) as nat) && #[trigger] eps_step(
                    graph,
                    mid,
                    to,
                );
            let i = choose|i: int|
                0 <= i < graph[mid].len() && #[trigger] graph[mid][i] == arc(
                    to,
                    ConditionModel::Epsilon,
                );
            assert(graph[mid][i].condition is Epsilon);
        } else {
            let mid = choose|mid: int|
                run_in(graph, from, input.drop_last(), mid, (steps - 1) as nat)
                    && #[trigger] char_step(graph, mid, input.last(), to);
            lemma_run_reads(graph, from, input.drop_last(), mid, (steps - 1) as nat);
        }
    }
}

/// An automaton without epsilon transitions accepts what it reads.
pub proof fn lemma_reading_accepts(nfa: NfaModel, input: Seq<char>)
    requires
        crate::automata::reduction::no_epsilon(nfa.states),
    ensures
        nfa.accepts(input) <==> nfa.accepts_reading(input),
{
    let rest = input.subrange(nfa.prefix.len() as int, input.len() as int);
    if nfa.runs(rest) {
        let (i, t) = choose|i: int, t: int|
            0 <= i < nfa.start_states.len() && nfa.terminal_states.contains(t) && #[trigger] run(
                nfa.states,
                nfa.start_states[i],
                rest,
                t,
            );
        let steps = choose|steps: nat| run_in(nfa.states, nfa.start_states[i], rest, t, steps);
        lemma_run_reads(nfa.states, nfa.start_states[i], rest, t, steps);
        assert(read_from_any(nfa.states, nfa.start_states, rest, t));
    }
    if nfa.reads(rest) {
        let t = choose|t: int|
            nfa.terminal_states.contains(t) && #[trigger] read_from_any(
                nfa.states,
                nfa.start_states,
                rest,
                t,
            );
        let i = choose|i: int|
            0 <= i < nfa.start_states.len() && read_run(
                nfa.states,
                #[trigger] nfa.start_states[i],
                rest,
                t,
            );
        lemma_read_run_runs(nfa.states, nfa.start_states[i], rest, t);
    }
}

/// The first transition of a reading of at least one scalar.
pub proof fn lemma_read_run_first(graph: Graph, from: int, input: Seq<char>, to: int)
    requires
        read_run(graph, from, input, to),
        input.len() > 0,
    ensures
        exists|mid: int| #[trigger]
            char_step(graph, from, input[0], mid) && read_run(graph, mid, input.drop_first(), to),
    decreases input.len(),
{
    let before = choose|before: int|
        read_run(graph, from, input.drop_last(), before) && #[trigger] char_step(
            graph,
            before,
            input.last(),
            to,
        );
    if input.len() == 1 {
        assert(input.drop_first() =~= Seq::<char>::empty());
        assert(char_step(graph, from, input[0], to) && read_run(graph, to, input.drop_first(), to));
    } else {
        lemma_read_run_first(graph, from, input.drop_last(), before);
        let mid = choose|mid: int| #[trigger]
            char_step(graph, from, input.drop_last()[0], mid) && read_run(
                graph,
                mid,
                input.drop_last().drop_first(),
                before,
            );
        assert(input.drop_first().drop_last() =~= input.drop_last().drop_first());
        assert(input.drop_first().last() == input.last());
        assert(read_run(graph, mid, input.drop_first(), to));
        assert(char_step(graph, from, input[0], mid));
    }
}

/// A transition before a reading is a reading.
pub proof fn lemma_read_run_prepend(graph: Graph, from: int, c: char, mid: int, input: Seq<char>, to: int)
    requires
        char_step(graph, from, c, mid),
        read_run(graph, mid, input, to),
    ensures
        read_run(graph, from, seq![c] + input, to),
    decreases input.len(),
{
    let whole = seq![c] + input;
    if input.len() == 0 {
        assert(whole.drop_last() =~= Seq::<char>::empty());
        assert(read_run(graph, from, whole.drop_last(), from));
        assert(whole.last() == c);
    } else {
        let before = choose|before: int|
            read_run(graph, mid, input.drop_last(), before) && #[trigger] char_step(
                graph,
                before,
                input.last(),
                to,
            );
        lemma_read_run_prepend(graph, from, c, mid, input.drop_last(), before);
        assert(whole.drop_last() =~= seq![c] + input.drop_last());
        assert(whole.last() == input.last());
    }
}

// ------------------------------------------------ duplicate transitions

/// Whether the two graphs have the same states with the same transitions,
/// whatever their order and number.
pub open spec fn same_arcs(left: Graph, right: Graph) -> bool {
    left.len() == right.len() && forall|s: int, wanted: TransitionModel|
        0 <= s < left.len() ==> (#[trigger] left[s].contains(wanted) <==> right[s].contains(wanted))
}

/// Graphs with the same transitions have the same steps.
pub proof fn lemma_same_arcs_steps(left: Graph, right: Graph, from: int, to: int)
    requires
        same_arcs(left, right),
    ensures
        eps_step(left, from, to) ==> eps_step(right, from, to),
        forall|c: char| char_step(left, from, c, to) ==> char_step(right, from, c, to),
{
    if eps_step(left, from, to) {
        let i = choose|i: int|
            0 <= i < left[from].len() && #[trigger] left[from][i] == arc(to, ConditionModel::Epsilon);
        assert(left[from].contains(left[from][i]));
        assert(right[from].contains(arc(to, ConditionModel::Epsilon)));
        let j = choose|j: int|
            0 <= j < right[from].len() && right[from][j] == arc(to, ConditionModel::Epsilon);
        assert(right[from][j] == arc(to, ConditionModel::Epsilon));
    }
    assert forall|c: char| char_step(left, from, c, to) implies char_step(right, from, c, to) by {
        let i = choose|i: int|
            0 <= i < left[from].len() && (#[trigger] left[from][i]).next_state_id == to
                && left[from][i].condition.accepts(c);
        assert(left[from].contains(left[from][i]));
        assert(right[from].contains(left[from][i]));
        let j = choose|j: int| 0 <= j < right[from].len() && right[from][j] == left[from][i];
        assert(right[from][j].next_state_id == to);
    }
}

/// Graphs with the same transitions have the same runs.
pub proof fn lemma_same_arcs_run(
    left: Graph,
    right: Graph,
    from: int,
    input: Seq<char>,
    to: int,
    steps: nat,
)
    requires
        same_arcs(left, right),
        run_in(left, from, input, to, steps),
    ensures
        run_in(right, from, input, to, steps),
    decreases steps,
{
    if steps > 0 {
        if run_by_eps(left, from, input, to, steps) {
            let mid = choose|mid: int|
                run_in(left, from, input, mid, (steps - 1) as nat) && #[trigger] eps_step(
                    left,
                    mid,
                    to,
                );
            lemma_same_arcs_steps(left, right, mid, to);
            lemma_same_arcs_run(left, right, from, input, mid, (steps - 1) as nat);
            assert(eps_step(right, mid, to));
            assert(run_by_eps(right, from, input, to, steps));
        } else {
            let mid = choose|mid: int|
                run_in(left, from, input.drop_last(), mid, (steps - 1) as nat)
                    && #[trigger] char_step(left, mid, input.last(), to);
            lemma_same_arcs_steps(left, right, mid, to);
            lemma_same_arcs_run(left, right, from, input.drop_last(), mid, (steps - 1) as nat);
            assert(char_step(right, mid, input.last(), to));
            assert(run_by_char(right, from, input, to, steps));
        }
    }
}

/// An automaton accepts what it accepted before its repeated transitions
/// were removed.
pub proof fn lemma_dedup_accepts(nfa: NfaModel, input: Seq<char>)
    ensures
        spec_dedup_nfa(nfa).accepts(input) <==> nfa.accepts(input),
{
    let reduced = spec_dedup_nfa(nfa);
    assert(same_arcs(nfa.states, reduced.states) && same_arcs(reduced.states, nfa.states)) by {
        assert forall|s: int, wanted: TransitionModel| 0 <= s < nfa.states.len() implies (
        nfa.states[s].contains(wanted) <==> reduced.states[s].contains(wanted)) by {
            lemma_dedup(nfa.states[s]);
            assert(reduced.states[s] == spec_dedup(nfa.states[s]));
            assert(spec_dedup(nfa.states[s]).contains(wanted) <==> nfa.states[s].contains(wanted));
        }
    }
    let rest = input.subrange(nfa.prefix.len() as int, input.len() as int);
    if nfa.runs(rest) {
        let (i, t) = choose|i: int, t: int|
            0 <= i < nfa.start_states.len() && nfa.terminal_states.contains(t) && #[trigger] run(
                nfa.states,
                nfa.start_states[i],
                rest,
                t,
            );
        let steps = choose|steps: nat| run_in(nfa.states, nfa.start_states[i], rest, t, steps);
        lemma_same_arcs_run(nfa.states, reduced.states, nfa.start_states[i], rest, t, steps);
        assert(run(reduced.states, reduced.start_states[i], rest, t));
    }
    if reduced.runs(rest) {
        let (i, t) = choose|i: int, t: int|
            0 <= i < reduced.start_states.len() && reduced.terminal_states.contains(t)
                && #[trigger] run(reduced.states, reduced.start_states[i], rest, t);
        let steps = choose|steps: nat|
            run_in(reduced.states, reduced.start_states[i], rest, t, steps);
        lemma_same_arcs_run(reduced.states, nfa.states, reduced.start_states[i], rest, t, steps);
        assert(run(nfa.states, nfa.start_states[i], rest, t));
    }
}

// ------------------------------------------------------------- epsilons

/// A transition of the graph without epsilon transitions stands for a run
/// of the graph with them.
pub proof fn lemma_eliminated_step_runs(graph: Graph, from: int, c: char, to: int)
    requires
        graph_wf(graph),
        char_step(spec_eliminate_graph(graph), from, c, to),
    ensures
        run(graph, from, seq![c], to),
        0 <= to < graph.len(),
{
    let reduced = spec_eliminate_graph(graph);
    let i = choose|i: int|
        0 <= i < reduced[from].len() && (#[trigger] reduced[from][i]).next_state_id == to
            && reduced[from][i].condition.accepts(c);
    lemma_eliminated_state(graph, from);
    let found = reduced[from][i];
    assert(spec_eliminate_graph(graph)[from].contains(found));
    let (u, k) = choose|u: int, k: int| #[trigger] emitted_by(graph, from, u, k, found);
    assert(emitted_by(graph, from, u, k, found));
    let v = graph[u][k].next_state_id;
    let first = choose|steps: nat| eps_reach_in(graph, from, u, steps);
    lemma_eps_reach_runs(graph, from, u, first);
    assert(run(graph, from, Seq::empty(), u));
    assert(char_step(graph, u, c, v));
    lemma_run_char_step(graph, from, Seq::empty(), u, c, v);
    assert(Seq::<char>::empty().push(c) =~= seq![c]);
    let last = choose|steps: nat| eps_reach_in(graph, v, to, steps);
    lemma_eps_reach_runs(graph, v, to, last);
    lemma_run_concat(graph, from, seq![c], v, Seq::empty(), to, last);
    assert(seq![c] + Seq::<char>::empty() =~= seq![c]);
}

/// A reading of the graph without epsilon transitions stands for a run of
/// the graph with them.
pub proof fn lemma_eliminated_reads_run(graph: Graph, from: int, input: Seq<char>, to: int)
    requires
        graph_wf(graph),
        read_run(spec_eliminate_graph(graph), from, input, to),
    ensures
        run(graph, from, input, to),
    decreases input.len(),
{
    if input.len() == 0 {
        assert(input =~= Seq::<char>::empty());
        lemma_run_self(graph, from);
    } else {
        let reduced = spec_eliminate_graph(graph);
        let mid = choose|mid: int|
            read_run(reduced, from, input.drop_last(), mid) && #[trigger] char_step(
                reduced,
                mid,
                input.last(),
                to,
            );
        lemma_eliminated_reads_run(graph, from, input.drop_last(), mid);
        lemma_eliminated_step_runs(graph, mid, input.last(), to);
        let steps = choose|steps: nat| run_in(graph, mid, seq![input.last()], to, steps);
        lemma_run_concat(graph, from, input.drop_last(), mid, seq![input.last()], to, steps);
        assert(input.drop_last() + seq![input.last()] =~= input);
    }
}

/// Whether a reading of `input` in the graph without epsilon transitions
/// leads from a state of the epsilon closure of `start` to a state from
/// which epsilon transitions lead to `state`.
pub open spec fn reads_near(graph: Graph, start: int, input: Seq<char>, state: int) -> bool {
    exists|first: int, last: int|
        eps_reach(graph, start, first) && #[trigger] read_run(
            spec_eliminate_graph(graph),
            first,
            input,
            last,
        ) && eps_reach(graph, last, state)
}

/// A run of the graph with epsilon transitions ends near a reading of the
/// graph without them.
pub proof fn lemma_run_reads_near(graph: Graph, start: int, input: Seq<char>, to: int, steps: nat)
    requires
        graph_wf(graph),
        0 <= start < graph.len(),
        run_in(graph, start, input, to, steps),
    ensures
        reads_near(graph, start, input, to),
        0 <= to < graph.len(),
    decreases steps,
{
    let reduced = spec_eliminate_graph(graph);
    if steps == 0 {
        lemma_eps_reach_self(graph, start);
        assert(read_run(reduced, start, input, start));
    } else if run_by_eps(graph, start, input, to, steps) {
        let mid = choose|mid: int|
            run_in(graph, start, input, mid, (steps - 1) as nat) && #[trigger] eps_step(
                graph,
                mid,
                to,
            );
        lemma_run_reads_near(graph, start, input, mid, (steps - 1) as nat);
        let (first, last) = choose|first: int, last: int|
            eps_reach(graph, start, first) && #[trigger] read_run(reduced, first, input, last)
                && eps_reach(graph, last, mid);
        lemma_eps_reach_step(graph, last, mid, to);
        assert(read_run(reduced, first, input, last));
        let i = choose|i: int|
            0 <= i < graph[mid].len() && #[trigger] graph[mid][i] == arc(
                to,
                ConditionModel::Epsilon,
            );
        assert(0 <= graph[mid][i].next_state_id < graph.len());
    } else {
        let mid = choose|mid: int|
            run_in(graph, start, input.drop_last(), mid, (steps - 1) as nat)
                && #[trigger] char_step(graph, mid, input.last(), to);
        lemma_run_reads_near(graph, start, input.drop_last(), mid, (steps - 1) as nat);
        let (first, last) = choose|first: int, last: int|
            eps_reach(graph, start, first) && #[trigger] read_run(
                reduced,
                first,
                input.drop_last(),
                last,
            ) && eps_reach(graph, last, mid);
        let k = choose|k: int|
            0 <= k < graph[mid].len() && (#[trigger] graph[mid][k]).next_state_id == to
                && graph[mid][k].condition.accepts(input.last());
        assert(0 <= graph[mid][k].next_state_id < graph.len());
        let steps_first = choose|n: nat| eps_reach_in(graph, start, first, n);
        lemma_eps_reach_in_range(graph, start, first, steps_first);
        lemma_eliminate_graph_wf(graph);
        lemma_read_run_in_range(reduced, first, input.drop_last(), last);
        let found = arc(to, graph[mid][k].condition);
        lemma_eps_reach_self(graph, to);
        assert(emitted_by(graph, last, mid, k, found));
        lemma_eliminated_state(graph, last);
        assert(spec_eliminate_graph(graph)[last].contains(found));
        let j = choose|j: int| 0 <= j < reduced[last].len() && reduced[last][j] == found;
        assert(reduced[last][j].next_state_id == to);
        assert(char_step(reduced, last, input.last(), to));
        assert(read_run(reduced, first, input, to));
    }
}

/// The graph without epsilon transitions is well-formed.
pub proof fn lemma_eliminate_graph_wf(graph: Graph)
    requires
        graph_wf(graph),
    ensures
        graph_wf(spec_eliminate_graph(graph)),
{
    let reduced = spec_eliminate_graph(graph);
    assert forall|s: int, i: int| 0 <= s < reduced.len() && 0 <= i < reduced[s].len() implies 0 <= (
    #[trigger] reduced[s][i]).next_state_id < reduced.len() by {
        lemma_eliminated_state(graph, s);
        assert(spec_eliminate_graph(graph)[s].contains(reduced[s][i]));
        let (u, k) = choose|u: int, k: int| #[trigger] emitted_by(graph, s, u, k, reduced[s][i]);
        assert(emitted_by(graph, s, u, k, reduced[s][i]));
    }
}

/// A reading that ends near a state ends at it, where the reading is moved
/// to the end of the epsilon transitions.
pub proof fn lemma_reads_near_reads(graph: Graph, start: int, input: Seq<char>, to: int)
    requires
        graph_wf(graph),
        0 <= start < graph.len(),
        reads_near(graph, start, input, to),
        0 <= to < graph.len(),
    ensures
        exists|first: int|
            eps_reach(graph, start, first) && #[trigger] read_run(
                spec_eliminate_graph(graph),
                first,
                input,
                to,
            ),
{
    let reduced = spec_eliminate_graph(graph);
    let (first, last) = choose|first: int, last: int|
        eps_reach(graph, start, first) && #[trigger] read_run(reduced, first, input, last)
            && eps_reach(graph, last, to);
    let reach = choose|n: nat| eps_reach_in(graph, last, to, n);
    if input.len() == 0 {
        lemma_eps_reach_trans(graph, start, first, to, reach);
        assert(read_run(reduced, to, input, to));
    } else {
        let mid = choose|mid: int|
            read_run(reduced, first, input.drop_last(), mid) && #[trigger] char_step(
                reduced,
                mid,
                input.last(),
                last,
            );
        let i = choose|i: int|
            0 <= i < reduced[mid].len() && (#[trigger] reduced[mid][i]).next_state_id == last
                && reduced[mid][i].condition.accepts(input.last());
        lemma_eliminated_state(graph, mid);
        assert(spec_eliminate_graph(graph)[mid].contains(reduced[mid][i]));
        let (u, k) = choose|u: int, k: int| #[trigger]
            emitted_by(graph, mid, u, k, reduced[mid][i]);
        assert(emitted_by(graph, mid, u, k, reduced[mid][i]));
        lemma_eps_reach_trans(graph, graph[u][k].next_state_id, last, to, reach);
        let moved = arc(to, reduced[mid][i].condition);
        assert(emitted_by(graph, mid, u, k, moved));
        assert(spec_eliminate_graph(graph)[mid].contains(moved));
        let j = choose|j: int| 0 <= j < reduced[mid].len() && reduced[mid][j] == moved;
        assert(reduced[mid][j].next_state_id == to);
        assert(char_step(reduced, mid, input.last(), to));
        assert(read_run(reduced, first, input, to));
    }
}

/// The automaton without epsilon transitions reads what the automaton with
/// them accepts.
pub proof fn lemma_eliminate_accepts(nfa: NfaModel, input: Seq<char>)
    requires
        nfa.wf(),
    ensures
        spec_eliminate(nfa).accepts_reading(input) <==> nfa.accepts(input),
{
    let graph = nfa.states;
    let reduced = spec_eliminate(nfa);
    let rest = input.subrange(nfa.prefix.len() as int, input.len() as int);
    lemma_reached_below(graph, nfa.start_states, graph.len());
    if reduced.reads(rest) {
        let t = choose|t: int|
            reduced.terminal_states.contains(t) && #[trigger] read_from_any(
                reduced.states,
                reduced.start_states,
                rest,
                t,
            );
        let i = choose|i: int|
            0 <= i < reduced.start_states.len() && read_run(
                reduced.states,
                #[trigger] reduced.start_states[i],
                rest,
                t,
            );
        let first = reduced.start_states[i];
        assert(spec_eliminate_starts(graph, nfa.start_states).contains(first));
        assert(eps_reach_any(graph, nfa.start_states, first));
        let j = choose|j: int|
            0 <= j < nfa.start_states.len() && eps_reach(graph, #[trigger] nfa.start_states[j], first);
        lemma_eliminated_reads_run(graph, first, rest, t);
        let reach = choose|n: nat| eps_reach_in(graph, nfa.start_states[j], first, n);
        lemma_eps_reach_runs(graph, nfa.start_states[j], first, reach);
        let steps = choose|steps: nat| run_in(graph, first, rest, t, steps);
        lemma_run_concat(graph, nfa.start_states[j], Seq::empty(), first, rest, t, steps);
        assert(Seq::<char>::empty() + rest =~= rest);
        assert(run(graph, nfa.start_states[j], rest, t));
    }
    if nfa.runs(rest) {
        let (i, t) = choose|i: int, t: int|
            0 <= i < nfa.start_states.len() && nfa.terminal_states.contains(t) && #[trigger] run(
                graph,
                nfa.start_states[i],
                rest,
                t,
            );
        let start = nfa.start_states[i];
        let steps = choose|steps: nat| run_in(graph, start, rest, t, steps);
        lemma_run_reads_near(graph, start, rest, t, steps);
        lemma_reads_near_reads(graph, start, rest, t);
        let first = choose|first: int|
            eps_reach(graph, start, first) && #[trigger] read_run(reduced.states, first, rest, t);
        let reach = choose|n: nat| eps_reach_in(graph, start, first, n);
        lemma_eps_reach_in_range(graph, start, first, reach);
        assert(eps_reach_any(graph, nfa.start_states, first));
        assert(spec_eliminate_starts(graph, nfa.start_states).contains(first));
        let j = choose|j: int|
            0 <= j < reduced.start_states.len() && reduced.start_states[j] == first;
        assert(read_run(reduced.states, reduced.start_states[j], rest, t));
        assert(read_from_any(reduced.states, reduced.start_states, rest, t));
    }
}

// ---------------------------------------------------------- dead states

/// A transition that may be taken on reading a scalar reads input.
pub proof fn lemma_char_step_reads(graph: Graph, from: int, c: char, to: int)
    requires
        char_step(graph, from, c, to),
    ensures
        reading_step(graph, from, to),
{
    let i = choose|i: int|
        0 <= i < graph[from].len() && (#[trigger] graph[from][i]).next_state_id == to
            && graph[from][i].condition.accepts(c);
    assert(!(graph[from][i].condition is Epsilon));
}

/// A reading that ends at a live state starts at one, and is a reading of
/// the automaton without its dead states.
pub proof fn lemma_live_reading_maps(nfa: NfaModel, from: int, input: Seq<char>, to: int)
    requires
        nfa.wf(),
        0 <= from < nfa.states.len(),
        read_run(nfa.states, from, input, to),
        live(nfa.states, nfa.terminal_states, to),
    ensures
        live(nfa.states, nfa.terminal_states, from),
        read_run(
            spec_remove_dead(nfa).states,
            live_rank(nfa.states, nfa.terminal_states, from),
            input,
            live_rank(nfa.states, nfa.terminal_states, to),
        ),
    decreases input.len(),
{
    let graph = nfa.states;
    let terminals = nfa.terminal_states;
    let reduced = spec_remove_dead(nfa);
    if input.len() > 0 {
        let mid = choose|mid: int|
            read_run(graph, from, input.drop_last(), mid) && #[trigger] char_step(
                graph,
                mid,
                input.last(),
                to,
            );
        lemma_char_step_reads(graph, mid, input.last(), to);
        lemma_live_step(graph, terminals, mid, to);
        lemma_live_reading_maps(nfa, from, input.drop_last(), mid);
        let i = choose|i: int|
            0 <= i < graph[mid].len() && (#[trigger] graph[mid][i]).next_state_id == to
                && graph[mid][i].condition.accepts(input.last());
        lemma_removed_state(nfa, mid);
        lemma_renumbered(graph[mid], graph, terminals);
        let new = arc(live_rank(graph, terminals, to), graph[mid][i].condition);
        assert(renumbers(graph, terminals, graph[mid][i], new));
        let moved = renumbered(graph[mid], graph, terminals);
        assert(moved.contains(new));
        let j = choose|j: int| 0 <= j < moved.len() && moved[j] == new;
        let rank = live_rank(graph, terminals, mid);
        assert(reduced.states[rank][j] == new);
        assert(char_step(reduced.states, rank, input.last(), live_rank(graph, terminals, to)));
    }
}

/// A reading of the automaton without its dead states is a reading of the
/// automaton with them.
pub proof fn lemma_kept_reading_maps(nfa: NfaModel, from: int, input: Seq<char>, to: int)
    requires
        nfa.wf(),
        0 <= from < spec_remove_dead(nfa).states.len(),
        read_run(spec_remove_dead(nfa).states, from, input, to),
    ensures
        0 <= to < spec_remove_dead(nfa).states.len(),
        read_run(
            nfa.states,
            live_states(nfa.states, nfa.terminal_states)[from],
            input,
            live_states(nfa.states, nfa.terminal_states)[to],
        ),
    decreases input.len(),
{
    let graph = nfa.states;
    let terminals = nfa.terminal_states;
    let reduced = spec_remove_dead(nfa);
    let kept = live_states(graph, terminals);
    if input.len() > 0 {
        let mid = choose|mid: int|
            read_run(reduced.states, from, input.drop_last(), mid) && #[trigger] char_step(
                reduced.states,
                mid,
                input.last(),
                to,
            );
        lemma_kept_reading_maps(nfa, from, input.drop_last(), mid);
        let i = choose|i: int|
            0 <= i < reduced.states[mid].len() && (
            #[trigger] reduced.states[mid][i]).next_state_id == to
                && reduced.states[mid][i].condition.accepts(input.last());
        let old = kept[mid];
        lemma_live_below(graph, terminals, graph.len());
        lemma_renumbered(graph[old], graph, terminals);
        let moved = renumbered(graph[old], graph, terminals);
        assert(moved.contains(moved[i]));
        let k = choose|k: int|
            0 <= k < graph[old].len() && renumbers(graph, terminals, #[trigger] graph[old][k], moved[i]);
        lemma_live_rank_names(graph, terminals, graph[old][k].next_state_id);
        assert(char_step(graph, old, input.last(), kept[to]));
    }
}

/// The automaton without its dead states reads what the automaton with
/// them reads.
pub proof fn lemma_remove_dead_reads(nfa: NfaModel, input: Seq<char>)
    requires
        nfa.wf(),
    ensures
        spec_remove_dead(nfa).accepts_reading(input) <==> nfa.accepts_reading(input),
{
    let graph = nfa.states;
    let terminals = nfa.terminal_states;
    let reduced = spec_remove_dead(nfa);
    let kept = live_states(graph, terminals);
    let rest = input.subrange(nfa.prefix.len() as int, input.len() as int);
    lemma_renumbered_indices(nfa.start_states, graph, terminals);
    lemma_renumbered_indices(terminals, graph, terminals);
    if nfa.reads(rest) {
        let t = choose|t: int|
            terminals.contains(t) && #[trigger] read_from_any(graph, nfa.start_states, rest, t);
        let i = choose|i: int|
            0 <= i < nfa.start_states.len() && read_run(
                graph,
                #[trigger] nfa.start_states[i],
                rest,
                t,
            );
        let start = nfa.start_states[i];
        lemma_read_run_in_range(graph, start, rest, t);
        assert(live_in(graph, terminals, t, 0));
        lemma_live_reading_maps(nfa, start, rest, t);
        let new_start = live_rank(graph, terminals, start);
        let new_t = live_rank(graph, terminals, t);
        let k = choose|k: int| 0 <= k < terminals.len() && terminals[k] == t;
        assert(live(graph, terminals, terminals[k]));
        assert(reduced.terminal_states.contains(new_t));
        assert(live(graph, terminals, nfa.start_states[i]));
        assert(reduced.start_states.contains(new_start));
        let j = choose|j: int|
            0 <= j < reduced.start_states.len() && reduced.start_states[j] == new_start;
        assert(read_run(reduced.states, reduced.start_states[j], rest, new_t));
        assert(read_from_any(reduced.states, reduced.start_states, rest, new_t));
    }
    if reduced.reads(rest) {
        let t = choose|t: int|
            reduced.terminal_states.contains(t) && #[trigger] read_from_any(
                reduced.states,
                reduced.start_states,
                rest,
                t,
            );
        let i = choose|i: int|
            0 <= i < reduced.start_states.len() && read_run(
                reduced.states,
                #[trigger] reduced.start_states[i],
                rest,
                t,
            );
        let new_start = reduced.start_states[i];
        assert(reduced.start_states.contains(new_start));
        let j = choose|j: int|
            0 <= j < nfa.start_states.len() && live(graph, terminals, #[trigger] nfa.start_states[j])
                && new_start == live_rank(graph, terminals, nfa.start_states[j]);
        lemma_live_rank_names(graph, terminals, nfa.start_states[j]);
        lemma_kept_reading_maps(nfa, new_start, rest, t);
        let k = choose|k: int|
            0 <= k < terminals.len() && live(graph, terminals, #[trigger] terminals[k]) && t
                == live_rank(graph, terminals, terminals[k]);
        lemma_live_rank_names(graph, terminals, terminals[k]);
        assert(kept[t] == terminals[k]);
        assert(read_run(graph, nfa.start_states[j], rest, terminals[k]));
        assert(read_from_any(graph, nfa.start_states, rest, terminals[k]));
    }
}

// -------------------------------------------------------- literal prefix

/// An automaton reads what it read before the scalar that it starts with
/// was moved into its prefix.
pub proof fn lemma_peel_reads(nfa: NfaModel, input: Seq<char>)
    requires
        can_peel(nfa),
    ensures
        peel(nfa).accepts_reading(input) <==> nfa.accepts_reading(input),
{
    let graph = nfa.states;
    let start = nfa.start_states[0];
    let transition = graph[start][0];
    let c = transition.condition->Literal_0;
    let next = transition.next_state_id;
    let peeled = peel(nfa);
    let rest = input.subrange(nfa.prefix.len() as int, input.len() as int);
    let shorter = input.subrange(peeled.prefix.len() as int, input.len() as int);
    if nfa.accepts_reading(input) {
        let t = choose|t: int|
            nfa.terminal_states.contains(t) && #[trigger] read_from_any(
                graph,
                nfa.start_states,
                rest,
                t,
            );
        let i = choose|i: int|
            0 <= i < nfa.start_states.len() && read_run(graph, #[trigger] nfa.start_states[i], rest, t);
        assert(rest.len() > 0);
        lemma_read_run_first(graph, start, rest, t);
        let mid = choose|mid: int| #[trigger]
            char_step(graph, start, rest[0], mid) && read_run(graph, mid, rest.drop_first(), t);
        let k = choose|k: int|
            0 <= k < graph[start].len() && (#[trigger] graph[start][k]).next_state_id == mid
                && graph[start][k].condition.accepts(rest[0]);
        assert(k == 0);
        assert(rest[0] == c);
        assert(mid == next);
        assert(input.subrange(0, peeled.prefix.len() as int) =~= peeled.prefix);
        assert(rest.drop_first() =~= shorter);
        assert(read_run(graph, peeled.start_states[0], shorter, t));
        assert(read_from_any(graph, peeled.start_states, shorter, t));
    }
    if peeled.accepts_reading(input) {
        let t = choose|t: int|
            peeled.terminal_states.contains(t) && #[trigger] read_from_any(
                graph,
                peeled.start_states,
                shorter,
                t,
            );
        let i = choose|i: int|
            0 <= i < peeled.start_states.len() && read_run(
                graph,
                #[trigger] peeled.start_states[i],
                shorter,
                t,
            );
        assert(input.subrange(0, peeled.prefix.len() as int)[nfa.prefix.len() as int] == c);
        assert(input.subrange(0, nfa.prefix.len() as int) =~= nfa.prefix) by {
            assert(input.subrange(0, peeled.prefix.len() as int).subrange(
                0,
                nfa.prefix.len() as int,
            ) =~= nfa.prefix);
        }
        assert(graph[start][0].condition.accepts(c));
        assert(char_step(graph, start, c, next));
        lemma_read_run_prepend(graph, start, c, next, shorter, t);
        assert(seq![c] + shorter =~= rest);
        assert(read_run(graph, nfa.start_states[0], rest, t));
        assert(read_from_any(graph, nfa.start_states, rest, t));
    }
}

/// An automaton reads what it read before its literal prefix was taken out.
pub proof fn lemma_extract_prefix_reads(nfa: NfaModel, rounds: nat, input: Seq<char>)
    ensures
        spec_extract_prefix(nfa, rounds).accepts_reading(input) <==> nfa.accepts_reading(input),
    decreases rounds,
{
    if rounds > 0 && can_peel(nfa) {
        lemma_peel_reads(nfa, input);
        lemma_extract_prefix_reads(peel(nfa), (rounds - 1) as nat, input);
    }
}

// ------------------------------------------------------------- the whole

/// The simplified automaton reads what the automaton accepts.
pub proof fn lemma_simplify_accepts(nfa: NfaModel, input: Seq<char>)
    requires
        nfa.wf(),
    ensures
        spec_simplify_nfa(nfa).accepts_reading(input) <==> nfa.accepts(input),
{
    let deduped = spec_dedup_nfa(nfa);
    crate::automata::properties::lemma_dedup_nfa(nfa);
    lemma_dedup_accepts(nfa, input);
    let eliminated = spec_eliminate(deduped);
    crate::automata::properties::lemma_eliminate_nfa(deduped);
    lemma_eliminate_accepts(deduped, input);
    let reduced = spec_remove_dead(eliminated);
    lemma_remove_dead_reads(eliminated, input);
    lemma_extract_prefix_reads(reduced, reduced.states.len(), input);
}

} // verus!
