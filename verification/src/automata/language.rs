//! What an automaton accepts.

use vstd::prelude::*;

use crate::automata::model::{Graph, NfaModel};
use crate::automata::reduction::eps_step;

verus! {

/// Whether a transition that may be taken on reading `c` leads from `from`
/// to `to`.
pub open spec fn char_step(graph: Graph, from: int, c: char, to: int) -> bool {
    0 <= from < graph.len() && exists|i: int|
        0 <= i < graph[from].len() && (#[trigger] graph[from][i]).next_state_id == to
            && graph[from][i].condition.accepts(c)
}

/// Whether reading `input`, one transition for each scalar, leads from
/// `from` to `to`.
pub open spec fn read_run(graph: Graph, from: int, input: Seq<char>, to: int) -> bool
    decreases input.len(),
{
    if input.len() == 0 {
        from == to
    } else {
        exists|mid: int|
            read_run(graph, from, input.drop_last(), mid) && #[trigger] char_step(
                graph,
                mid,
                input.last(),
                to,
            )
    }
}

/// Whether reading `input` leads from one of `starts` to `to`.
pub open spec fn read_from_any(graph: Graph, starts: Seq<int>, input: Seq<char>, to: int) -> bool {
    exists|i: int| 0 <= i < starts.len() && read_run(graph, #[trigger] starts[i], input, to)
}

/// Whether `steps` transitions in a row lead from `from` to `to`, the
/// transitions that read input reading `input` between them.
pub open spec fn run_in(graph: Graph, from: int, input: Seq<char>, to: int, steps: nat) -> bool
    decreases steps, 1nat,
{
    if steps == 0 {
        from == to && input.len() == 0
    } else {
        run_by_eps(graph, from, input, to, steps) || run_by_char(graph, from, input, to, steps)
    }
}

/// Whether `steps` transitions lead from `from` to `to` reading `input`, the
/// last of them an epsilon transition.
pub open spec fn run_by_eps(graph: Graph, from: int, input: Seq<char>, to: int, steps: nat) -> bool
    decreases steps, 0nat,
{
    steps > 0 && exists|mid: int|
        run_in(graph, from, input, mid, (steps - 1) as nat) && #[trigger] eps_step(graph, mid, to)
}

/// Whether `steps` transitions lead from `from` to `to` reading `input`, the
/// last of them reading the last scalar of `input`.
pub open spec fn run_by_char(graph: Graph, from: int, input: Seq<char>, to: int, steps: nat) -> bool
    decreases steps, 0nat,
{
    steps > 0 && input.len() > 0 && exists|mid: int|
        run_in(graph, from, input.drop_last(), mid, (steps - 1) as nat) && #[trigger] char_step(
            graph,
            mid,
            input.last(),
            to,
        )
}

/// Whether transitions lead from `from` to `to` that read `input` between
/// them.
pub open spec fn run(graph: Graph, from: int, input: Seq<char>, to: int) -> bool {
    exists|steps: nat| run_in(graph, from, input, to, steps)
}

/// Whether `input` starts with `prefix`.
pub open spec fn starts_with(input: Seq<char>, prefix: Seq<char>) -> bool {
    prefix.len() <= input.len() && input.subrange(0, prefix.len() as int) == prefix
}

impl NfaModel {
    /// Whether reading `input`, one transition for each scalar, leads from a
    /// start state to a terminal state.
    pub open spec fn reads(self, input: Seq<char>) -> bool {
        exists|t: int|
            self.terminal_states.contains(t) && #[trigger] read_from_any(
                self.states,
                self.start_states,
                input,
                t,
            )
    }

    /// Whether the automaton accepts `input` where epsilon transitions are
    /// not taken: `input` starts with the prefix, and reading the rest of it
    /// leads from a start state to a terminal state.
    pub open spec fn accepts_reading(self, input: Seq<char>) -> bool {
        starts_with(input, self.prefix) && self.reads(
            input.subrange(self.prefix.len() as int, input.len() as int),
        )
    }

    /// Whether transitions that read `input` between them lead from a start
    /// state to a terminal state.
    pub open spec fn runs(self, input: Seq<char>) -> bool {
        exists|i: int, t: int|
            0 <= i < self.start_states.len() && self.terminal_states.contains(t) && #[trigger] run(
                self.states,
                self.start_states[i],
                input,
                t,
            )
    }

    /// Whether the automaton accepts `input`: `input` starts with the
    /// prefix, and the rest of it leads from a start state to a terminal
    /// state.
    pub open spec fn accepts(self, input: Seq<char>) -> bool {
        starts_with(input, self.prefix) && self.runs(
            input.subrange(self.prefix.len() as int, input.len() as int),
        )
    }
}

} // verus!
