//! What simplification makes of an automaton: without repeated transitions,
//! without epsilon transitions, without dead states, and with its literal
//! prefix taken out.

use vstd::prelude::*;

use crate::automata::model::{arc, Graph, NfaModel};
use crate::automata::{ConditionModel, TransitionModel};

verus! {

// ------------------------------------------------------------ small tools

/// The list with `transition` at its end, unless it holds it already.
pub open spec fn push_new(list: Seq<TransitionModel>, transition: TransitionModel) -> Seq<
    TransitionModel,
> {
    if list.contains(transition) {
        list
    } else {
        list.push(transition)
    }
}

/// Whether the list is in strictly ascending order.
pub open spec fn ascending(list: Seq<int>) -> bool {
    forall|i: int, j: int| 0 <= i < j < list.len() ==> list[i] < list[j]
}

/// Whether no transition occurs twice in the list.
pub open spec fn distinct(list: Seq<TransitionModel>) -> bool {
    forall|i: int, j: int| 0 <= i < j < list.len() ==> list[i] != list[j]
}

/// Whether no state of the graph has the same transition twice.
pub open spec fn no_duplicates(graph: Graph) -> bool {
    forall|s: int| 0 <= s < graph.len() ==> distinct(#[trigger] graph[s])
}

/// Whether no transition of the graph is an epsilon transition.
pub open spec fn no_epsilon(graph: Graph) -> bool {
    forall|s: int, i: int|
        0 <= s < graph.len() && 0 <= i < graph[s].len() ==> !((
        #[trigger] graph[s][i]).condition is Epsilon)
}

// ------------------------------------------------ duplicate transitions

/// The transitions of a state, each kept where it first occurs.
pub open spec fn spec_dedup(list: Seq<TransitionModel>) -> Seq<TransitionModel>
    decreases list.len(),
{
    if list.len() == 0 {
        Seq::empty()
    } else {
        push_new(spec_dedup(list.drop_last()), list.last())
    }
}

/// Every state without its repeated transitions.
pub open spec fn spec_dedup_graph(graph: Graph) -> Graph {
    Seq::new(graph.len(), |s: int| spec_dedup(graph[s]))
}

// ------------------------------------------------------------- epsilons

/// Whether an epsilon transition leads from `from` to `to`.
pub open spec fn eps_step(graph: Graph, from: int, to: int) -> bool {
    0 <= from < graph.len() && exists|i: int|
        0 <= i < graph[from].len() && #[trigger] graph[from][i] == arc(to, ConditionModel::Epsilon)
}

/// Whether `steps` epsilon transitions in a row lead from `from` to `to`.
pub open spec fn eps_reach_in(graph: Graph, from: int, to: int, steps: nat) -> bool
    decreases steps,
{
    if steps == 0 {
        from == to
    } else {
        exists|mid: int|
            eps_reach_in(graph, from, mid, (steps - 1) as nat) && #[trigger] eps_step(
                graph,
                mid,
                to,
            )
    }
}

/// Whether `to` is in the epsilon closure of `from`: `from` itself and
/// every state that epsilon transitions alone lead to from it.
pub open spec fn eps_reach(graph: Graph, from: int, to: int) -> bool {
    exists|steps: nat| eps_reach_in(graph, from, to, steps)
}

/// Whether `to` is in the epsilon closure of one of `sources`.
pub open spec fn eps_reach_any(graph: Graph, sources: Seq<int>, to: int) -> bool {
    exists|i: int| 0 <= i < sources.len() && eps_reach(graph, #[trigger] sources[i], to)
}

/// `list` and a transition under `condition` to each state below `bound` in
/// the epsilon closure of `next`.
pub open spec fn emit_targets(
    list: Seq<TransitionModel>,
    graph: Graph,
    next: int,
    condition: ConditionModel,
    bound: nat,
) -> Seq<TransitionModel>
    decreases bound,
{
    if bound == 0 {
        list
    } else {
        let front = emit_targets(list, graph, next, condition, (bound - 1) as nat);
        if eps_reach(graph, next, bound - 1) {
            push_new(front, arc(bound - 1, condition))
        } else {
            front
        }
    }
}

/// `list` and, for each of the first `count` transitions of `source` that
/// reads input, transitions to the epsilon closure of its target.
pub open spec fn emit_transitions(
    list: Seq<TransitionModel>,
    graph: Graph,
    source: int,
    count: nat,
) -> Seq<TransitionModel>
    decreases count,
{
    if count == 0 {
        list
    } else {
        let front = emit_transitions(list, graph, source, (count - 1) as nat);
        let transition = graph[source][count - 1];
        if transition.condition is Epsilon {
            front
        } else {
            emit_targets(
                front,
                graph,
                transition.next_state_id,
                transition.condition,
                graph.len(),
            )
        }
    }
}

/// The transitions that state `state` has after epsilon elimination, as far
/// as they come from the states below `bound` of its epsilon closure.
pub open spec fn emit_sources(graph: Graph, state: int, bound: nat) -> Seq<TransitionModel>
    decreases bound,
{
    if bound == 0 {
        Seq::empty()
    } else {
        let front = emit_sources(graph, state, (bound - 1) as nat);
        if eps_reach(graph, state, bound - 1) {
            emit_transitions(front, graph, bound - 1, graph[bound - 1].len())
        } else {
            front
        }
    }
}

/// The graph without epsilon transitions: every state gets, for each
/// transition that reads input and leaves a state of its epsilon closure, a
/// transition under the same condition to each state of the epsilon closure
/// of the target.
pub open spec fn spec_eliminate_graph(graph: Graph) -> Graph {
    Seq::new(graph.len(), |s: int| emit_sources(graph, s, graph.len()))
}

/// The states below `bound` that are in the epsilon closure of one of
/// `starts`, in ascending order.
pub open spec fn reached_below(graph: Graph, starts: Seq<int>, bound: nat) -> Seq<int>
    decreases bound,
{
    if bound == 0 {
        Seq::empty()
    } else if eps_reach_any(graph, starts, bound - 1) {
        reached_below(graph, starts, (bound - 1) as nat).push(bound - 1)
    } else {
        reached_below(graph, starts, (bound - 1) as nat)
    }
}

/// The start states after epsilon elimination: the epsilon closures of the
/// start states, in ascending order.
pub open spec fn spec_eliminate_starts(graph: Graph, starts: Seq<int>) -> Seq<int> {
    reached_below(graph, starts, graph.len())
}

/// The automaton without epsilon transitions.
pub open spec fn spec_eliminate(nfa: NfaModel) -> NfaModel {
    NfaModel {
        states: spec_eliminate_graph(nfa.states),
        start_states: spec_eliminate_starts(nfa.states, nfa.start_states),
        terminal_states: nfa.terminal_states,
        prefix: nfa.prefix,
    }
}

// ---------------------------------------------------------- dead states

/// Whether a transition that reads input leads from `from` to `to`.
pub open spec fn reading_step(graph: Graph, from: int, to: int) -> bool {
    0 <= from < graph.len() && exists|i: int|
        0 <= i < graph[from].len() && !((#[trigger] graph[from][i]).condition is Epsilon)
            && graph[from][i].next_state_id == to
}

/// Whether `steps` transitions that read input lead from `state` to a
/// terminal state.
pub open spec fn live_in(graph: Graph, terminals: Seq<int>, state: int, steps: nat) -> bool
    decreases steps,
{
    if steps == 0 {
        terminals.contains(state)
    } else {
        exists|next: int| #[trigger]
            reading_step(graph, state, next) && live_in(graph, terminals, next, (steps - 1) as nat)
    }
}

/// Whether `state` is live: terminal, or leading to a terminal state by
/// transitions that read input.
pub open spec fn live(graph: Graph, terminals: Seq<int>, state: int) -> bool {
    0 <= state < graph.len() && exists|steps: nat| live_in(graph, terminals, state, steps)
}

/// Whether every state of the automaton is live.
pub open spec fn all_live(nfa: NfaModel) -> bool {
    forall|s: int| 0 <= s < nfa.states.len() ==> live(nfa.states, nfa.terminal_states, s)
}

/// The live states below `bound`, in ascending order.
pub open spec fn live_below(graph: Graph, terminals: Seq<int>, bound: nat) -> Seq<int>
    decreases bound,
{
    if bound == 0 {
        Seq::empty()
    } else if live(graph, terminals, bound - 1) {
        live_below(graph, terminals, (bound - 1) as nat).push(bound - 1)
    } else {
        live_below(graph, terminals, (bound - 1) as nat)
    }
}

/// The number of live states below `state`: the index that `state` has
/// among the live states.
pub open spec fn live_rank(graph: Graph, terminals: Seq<int>, state: int) -> int {
    live_below(graph, terminals, state as nat).len() as int
}

/// The live states, in ascending order.
pub open spec fn live_states(graph: Graph, terminals: Seq<int>) -> Seq<int> {
    live_below(graph, terminals, graph.len())
}

/// The transitions of the list that lead to live states, with those states
/// under their new indices.
pub open spec fn renumbered(list: Seq<TransitionModel>, graph: Graph, terminals: Seq<int>) -> Seq<
    TransitionModel,
>
    decreases list.len(),
{
    if list.len() == 0 {
        Seq::empty()
    } else {
        let front = renumbered(list.drop_last(), graph, terminals);
        if live(graph, terminals, list.last().next_state_id) {
            front.push(
                arc(live_rank(graph, terminals, list.last().next_state_id), list.last().condition),
            )
        } else {
            front
        }
    }
}

/// The states of the list that are live, under their new indices.
pub open spec fn renumbered_indices(list: Seq<int>, graph: Graph, terminals: Seq<int>) -> Seq<int>
    decreases list.len(),
{
    if list.len() == 0 {
        Seq::empty()
    } else {
        let front = renumbered_indices(list.drop_last(), graph, terminals);
        if live(graph, terminals, list.last()) {
            front.push(live_rank(graph, terminals, list.last()))
        } else {
            front
        }
    }
}

/// The automaton without its dead states; the states left are numbered
/// anew, in their old order.
pub open spec fn spec_remove_dead(nfa: NfaModel) -> NfaModel {
    let kept = live_states(nfa.states, nfa.terminal_states);
    NfaModel {
        states: Seq::new(
            kept.len(),
            |k: int| renumbered(nfa.states[kept[k]], nfa.states, nfa.terminal_states),
        ),
        start_states: renumbered_indices(nfa.start_states, nfa.states, nfa.terminal_states),
        terminal_states: renumbered_indices(nfa.terminal_states, nfa.states, nfa.terminal_states),
        prefix: nfa.prefix,
    }
}

// ------------------------------------------------------- literal prefix

/// Whether `state` has exactly one transition and that reads one fixed
/// scalar.
pub open spec fn single_literal(graph: Graph, state: int) -> bool {
    0 <= state < graph.len() && graph[state].len() == 1 && graph[state][0].condition is Literal
}

/// Whether the automaton starts by reading one fixed scalar that can be
/// taken into the prefix: there is one start state, it is not terminal, it
/// has one transition, which reads a fixed scalar, and so has its target.
pub open spec fn can_peel(nfa: NfaModel) -> bool {
    &&& nfa.start_states.len() == 1
    &&& single_literal(nfa.states, nfa.start_states[0])
    &&& !nfa.terminal_states.contains(nfa.start_states[0])
    &&& single_literal(nfa.states, nfa.states[nfa.start_states[0]][0].next_state_id)
}

/// The automaton with the scalar that it starts with moved into the prefix.
pub open spec fn peel(nfa: NfaModel) -> NfaModel {
    let transition = nfa.states[nfa.start_states[0]][0];
    NfaModel {
        states: nfa.states,
        start_states: seq![transition.next_state_id],
        terminal_states: nfa.terminal_states,
        prefix: nfa.prefix.push(transition.condition->Literal_0),
    }
}

/// The automaton with its fixed first scalars moved into the prefix, at most
/// `rounds` of them.
pub open spec fn spec_extract_prefix(nfa: NfaModel, rounds: nat) -> NfaModel
    decreases rounds,
{
    if rounds == 0 || !can_peel(nfa) {
        nfa
    } else {
        spec_extract_prefix(peel(nfa), (rounds - 1) as nat)
    }
}

// ------------------------------------------------------------ the whole

/// The automaton with the repeated transitions of each state removed.
pub open spec fn spec_dedup_nfa(nfa: NfaModel) -> NfaModel {
    NfaModel {
        states: spec_dedup_graph(nfa.states),
        start_states: nfa.start_states,
        terminal_states: nfa.terminal_states,
        prefix: nfa.prefix,
    }
}

/// The simplified automaton: duplicates removed, epsilon transitions
/// eliminated, dead states removed, and the literal prefix taken out.
pub open spec fn spec_simplify_nfa(nfa: NfaModel) -> NfaModel {
    let reduced = spec_remove_dead(spec_eliminate(spec_dedup_nfa(nfa)));
    spec_extract_prefix(reduced, reduced.states.len())
}

} // verus!
