//! What holds of a simplified automaton: its shape.

use vstd::prelude::*;

use crate::automata::model::{arc, graph_wf, indices_in, Graph, NfaModel};
use crate::automata::reduction::{
    all_live, ascending, can_peel, distinct, emit_sources, emit_targets, emit_transitions, eps_reach,
    eps_reach_any, live, live_below, live_in, live_rank, live_states, no_duplicates, no_epsilon,
    peel, push_new, reached_below, reading_step, renumbered, renumbered_indices, spec_dedup,
    spec_dedup_graph, spec_dedup_nfa, spec_eliminate, spec_eliminate_graph,
    spec_eliminate_starts, spec_extract_prefix, spec_remove_dead, spec_simplify_nfa,
};
use crate::automata::simplify::{lemma_live_below, lemma_live_rank_order, lemma_live_step};
use crate::automata::{ConditionModel, TransitionModel};

verus! {

// ------------------------------------------------------------ lists

/// What a list holds once one more item was added at its end.
pub proof fn lemma_push_contains<T>(list: Seq<T>, added: T, wanted: T)
    ensures
        list.push(added).contains(wanted) <==> list.contains(wanted) || added == wanted,
{
    if list.contains(wanted) {
        let i = choose|i: int| 0 <= i < list.len() && list[i] == wanted;
        assert(list.push(added)[i] == wanted);
    }
    if added == wanted {
        assert(list.push(added)[list.len() as int] == wanted);
    }
    if list.push(added).contains(wanted) {
        let i = choose|i: int| 0 <= i < list.push(added).len() && list.push(added)[i] == wanted;
        if i < list.len() {
            assert(list[i] == wanted);
        }
    }
}

/// What `push_new` leaves: the list with the transition in it, once.
pub proof fn lemma_push_new(list: Seq<TransitionModel>, added: TransitionModel)
    ensures
        forall|wanted: TransitionModel| #[trigger]
            push_new(list, added).contains(wanted) <==> list.contains(wanted) || added == wanted,
        distinct(list) ==> distinct(push_new(list, added)),
{
    assert forall|wanted: TransitionModel| #[trigger]
        push_new(list, added).contains(wanted) <==> list.contains(wanted) || added
            == wanted by {
        lemma_push_contains(list, added, wanted);
    }
    if distinct(list) && !list.contains(added) {
        let longer = list.push(added);
        assert forall|i: int, j: int| 0 <= i < j < longer.len() implies longer[i] != longer[j] by {
            if j == list.len() {
                if longer[i] == longer[j] {
                    assert(list[i] == added);
                    assert(list.contains(added));
                }
            }
        }
    }
}

// ------------------------------------------------ duplicate transitions

/// Removing duplicates keeps what the list holds, and leaves each once.
pub proof fn lemma_dedup(list: Seq<TransitionModel>)
    ensures
        distinct(spec_dedup(list)),
        forall|wanted: TransitionModel| #[trigger]
            spec_dedup(list).contains(wanted) <==> list.contains(wanted),
    decreases list.len(),
{
    if list.len() > 0 {
        lemma_dedup(list.drop_last());
        lemma_push_new(spec_dedup(list.drop_last()), list.last());
        assert forall|wanted: TransitionModel| #[trigger]
            spec_dedup(list).contains(wanted) <==> list.contains(wanted) by {
            assert(list =~= list.drop_last().push(list.last()));
            lemma_push_contains(list.drop_last(), list.last(), wanted);
        }
    } else {
        assert forall|wanted: TransitionModel| !spec_dedup(list).contains(wanted) by {}
    }
}

/// Removing duplicates keeps an automaton well-formed.
pub proof fn lemma_dedup_nfa(nfa: NfaModel)
    requires
        nfa.wf(),
    ensures
        spec_dedup_nfa(nfa).wf(),
        no_duplicates(spec_dedup_nfa(nfa).states),
{
    let graph = nfa.states;
    let reduced = spec_dedup_graph(graph);
    assert forall|s: int, i: int| 0 <= s < reduced.len() && 0 <= i < reduced[s].len() implies 0 <= (
    #[trigger] reduced[s][i]).next_state_id < reduced.len() by {
        lemma_dedup(graph[s]);
        assert(reduced[s] == spec_dedup(graph[s]));
        assert(spec_dedup(graph[s]).contains(reduced[s][i]));
        assert(graph[s].contains(reduced[s][i]));
        let k = choose|k: int| 0 <= k < graph[s].len() && graph[s][k] == reduced[s][i];
        assert(0 <= graph[s][k].next_state_id < graph.len());
    }
    assert forall|s: int| 0 <= s < reduced.len() implies distinct(#[trigger] reduced[s]) by {
        lemma_dedup(graph[s]);
    }
}

// ------------------------------------------------------------- epsilons

/// Whether `emitted` is what epsilon elimination gives state `state` for
/// transition `k` of state `u`: `u` is in the epsilon closure of `state`,
/// the transition reads input, and `emitted` leads under its condition to a
/// state of the epsilon closure of its target.
pub open spec fn emitted_by(graph: Graph, state: int, u: int, k: int, emitted: TransitionModel) -> bool {
    &&& 0 <= u < graph.len()
    &&& eps_reach(graph, state, u)
    &&& 0 <= k < graph[u].len()
    &&& !(graph[u][k].condition is Epsilon)
    &&& emitted.condition == graph[u][k].condition
    &&& 0 <= emitted.next_state_id < graph.len()
    &&& eps_reach(graph, graph[u][k].next_state_id, emitted.next_state_id)
}

/// What `emit_targets` adds to a list: a transition to each state below
/// the bound in the epsilon closure of the target, each once.
pub proof fn lemma_emit_targets(
    list: Seq<TransitionModel>,
    graph: Graph,
    next: int,
    condition: ConditionModel,
    bound: nat,
)
    ensures
        forall|wanted: TransitionModel| #[trigger]
            emit_targets(list, graph, next, condition, bound).contains(wanted) <==> list.contains(
                wanted,
            ) || (wanted.condition == condition && 0 <= wanted.next_state_id < bound && eps_reach(
                graph,
                next,
                wanted.next_state_id,
            )),
        distinct(list) ==> distinct(emit_targets(list, graph, next, condition, bound)),
    decreases bound,
{
    if bound > 0 {
        let front = emit_targets(list, graph, next, condition, (bound - 1) as nat);
        lemma_emit_targets(list, graph, next, condition, (bound - 1) as nat);
        lemma_push_new(front, arc(bound - 1, condition));
        assert forall|wanted: TransitionModel| #[trigger]
            emit_targets(list, graph, next, condition, bound).contains(wanted) <==> list.contains(
                wanted,
            ) || (wanted.condition == condition && 0 <= wanted.next_state_id < bound && eps_reach(
                graph,
                next,
                wanted.next_state_id,
            )) by {
            if wanted.condition == condition && wanted.next_state_id == bound - 1 {
                assert(wanted == arc(bound - 1, condition));
            }
        }
    }
}

/// What `emit_transitions` adds to a list: what the first `count`
/// transitions of the source give, each once.
pub proof fn lemma_emit_transitions(
    list: Seq<TransitionModel>,
    graph: Graph,
    state: int,
    source: int,
    count: nat,
)
    requires
        0 <= source < graph.len(),
        count <= graph[source].len(),
        eps_reach(graph, state, source),
    ensures
        forall|wanted: TransitionModel| #[trigger]
            emit_transitions(list, graph, source, count).contains(wanted) <==> list.contains(wanted)
                || exists|k: int| 0 <= k < count && #[trigger] emitted_by(graph, state, source, k, wanted),
        distinct(list) ==> distinct(emit_transitions(list, graph, source, count)),
    decreases count,
{
    if count > 0 {
        let front = emit_transitions(list, graph, source, (count - 1) as nat);
        lemma_emit_transitions(list, graph, state, source, (count - 1) as nat);
        let transition = graph[source][count - 1];
        let result = emit_transitions(list, graph, source, count);
        if !(transition.condition is Epsilon) {
            lemma_emit_targets(
                front,
                graph,
                transition.next_state_id,
                transition.condition,
                graph.len(),
            );
        }
        assert forall|wanted: TransitionModel| #[trigger]
            result.contains(wanted) <==> list.contains(wanted) || exists|k: int|
                0 <= k < count && #[trigger] emitted_by(graph, state, source, k, wanted) by {
            if result.contains(wanted) && !list.contains(wanted) {
                if front.contains(wanted) {
                    let k = choose|k: int|
                        0 <= k < count - 1 && #[trigger] emitted_by(graph, state, source, k, wanted);
                    assert(emitted_by(graph, state, source, k, wanted));
                } else {
                    assert(emitted_by(graph, state, source, count - 1, wanted));
                }
            }
            if exists|k: int| 0 <= k < count && #[trigger] emitted_by(graph, state, source, k, wanted) {
                let k = choose|k: int|
                    0 <= k < count && #[trigger] emitted_by(graph, state, source, k, wanted);
                if k < count - 1 {
                    assert(emitted_by(graph, state, source, k, wanted));
                    assert(front.contains(wanted));
                } else {
                    assert(k == count - 1);
                    assert(!(transition.condition is Epsilon));
                    assert(wanted.condition == transition.condition);
                }
            }
        }
    }
}

/// What `emit_sources` holds: what the transitions of the states below the
/// bound give, each once.
pub proof fn lemma_emit_sources(graph: Graph, state: int, bound: nat)
    requires
        bound <= graph.len(),
    ensures
        forall|wanted: TransitionModel| #[trigger]
            emit_sources(graph, state, bound).contains(wanted) <==> exists|u: int, k: int|
                0 <= u < bound && #[trigger] emitted_by(graph, state, u, k, wanted),
        distinct(emit_sources(graph, state, bound)),
    decreases bound,
{
    if bound > 0 {
        let front = emit_sources(graph, state, (bound - 1) as nat);
        lemma_emit_sources(graph, state, (bound - 1) as nat);
        let result = emit_sources(graph, state, bound);
        if eps_reach(graph, state, bound - 1) {
            lemma_emit_transitions(front, graph, state, bound - 1, graph[bound - 1].len());
        }
        assert forall|wanted: TransitionModel| #[trigger]
            result.contains(wanted) <==> exists|u: int, k: int|
                0 <= u < bound && #[trigger] emitted_by(graph, state, u, k, wanted) by {
            if result.contains(wanted) {
                if front.contains(wanted) {
                    let (u, k) = choose|u: int, k: int|
                        0 <= u < bound - 1 && #[trigger] emitted_by(graph, state, u, k, wanted);
                    assert(emitted_by(graph, state, u, k, wanted));
                } else {
                    let k = choose|k: int|
                        0 <= k < graph[bound - 1].len() && #[trigger] emitted_by(
                            graph,
                            state,
                            bound - 1,
                            k,
                            wanted,
                        );
                    assert(emitted_by(graph, state, bound - 1, k, wanted));
                }
            }
            if exists|u: int, k: int|
                0 <= u < bound && #[trigger] emitted_by(graph, state, u, k, wanted) {
                let (u, k) = choose|u: int, k: int|
                    0 <= u < bound && #[trigger] emitted_by(graph, state, u, k, wanted);
                if u < bound - 1 {
                    assert(emitted_by(graph, state, u, k, wanted));
                    assert(front.contains(wanted));
                } else {
                    assert(emitted_by(graph, state, bound - 1, k, wanted));
                }
            }
        }
    } else {
        assert forall|wanted: TransitionModel| !emit_sources(graph, state, bound).contains(wanted) by {}
    }
}

/// The transitions that a state has after epsilon elimination.
pub proof fn lemma_eliminated_state(graph: Graph, state: int)
    requires
        0 <= state < graph.len(),
    ensures
        forall|wanted: TransitionModel| #[trigger]
            spec_eliminate_graph(graph)[state].contains(wanted) <==> exists|u: int, k: int| #[trigger]
                emitted_by(graph, state, u, k, wanted),
        distinct(spec_eliminate_graph(graph)[state]),
{
    lemma_emit_sources(graph, state, graph.len());
    assert(spec_eliminate_graph(graph)[state] == emit_sources(graph, state, graph.len()));
    assert forall|wanted: TransitionModel| #[trigger]
        spec_eliminate_graph(graph)[state].contains(wanted) <==> exists|u: int, k: int| #[trigger]
            emitted_by(graph, state, u, k, wanted) by {
        assert(spec_eliminate_graph(graph)[state].contains(wanted) == emit_sources(
            graph,
            state,
            graph.len(),
        ).contains(wanted));
        if exists|u: int, k: int| #[trigger] emitted_by(graph, state, u, k, wanted) {
            let (u, k) = choose|u: int, k: int| #[trigger] emitted_by(graph, state, u, k, wanted);
            assert(0 <= u < graph.len() && emitted_by(graph, state, u, k, wanted));
        }
    }
}

/// What the list of reached states holds.
pub proof fn lemma_reached_below(graph: Graph, starts: Seq<int>, bound: nat)
    ensures
        forall|t: int| #[trigger]
            reached_below(graph, starts, bound).contains(t) <==> 0 <= t < bound && eps_reach_any(
                graph,
                starts,
                t,
            ),
    decreases bound,
{
    if bound > 0 {
        let front = reached_below(graph, starts, (bound - 1) as nat);
        lemma_reached_below(graph, starts, (bound - 1) as nat);
        assert forall|t: int| #[trigger]
            reached_below(graph, starts, bound).contains(t) <==> 0 <= t < bound && eps_reach_any(
                graph,
                starts,
                t,
            ) by {
            lemma_push_contains(front, bound - 1, t);
            assert(front.contains(t) <==> 0 <= t < bound - 1 && eps_reach_any(graph, starts, t));
        }
    } else {
        assert forall|t: int| !reached_below(graph, starts, bound).contains(t) by {}
    }
}

/// Epsilon elimination keeps an automaton well-formed, and leaves it with
/// no epsilon transition and no transition twice.
pub proof fn lemma_eliminate_nfa(nfa: NfaModel)
    requires
        nfa.wf(),
    ensures
        spec_eliminate(nfa).wf(),
        no_epsilon(spec_eliminate(nfa).states),
        no_duplicates(spec_eliminate(nfa).states),
{
    let graph = nfa.states;
    let reduced = spec_eliminate_graph(graph);
    assert forall|s: int, i: int| 0 <= s < reduced.len() && 0 <= i < reduced[s].len() implies 0 <= (
    #[trigger] reduced[s][i]).next_state_id < reduced.len() && !(reduced[s][i].condition is Epsilon) by {
        lemma_eliminated_state(graph, s);
        assert(spec_eliminate_graph(graph)[s].contains(reduced[s][i]));
        let (u, k) = choose|u: int, k: int| #[trigger] emitted_by(graph, s, u, k, reduced[s][i]);
        assert(emitted_by(graph, s, u, k, reduced[s][i]));
    }
    assert forall|s: int| 0 <= s < reduced.len() implies distinct(#[trigger] reduced[s]) by {
        lemma_eliminated_state(graph, s);
    }
    let starts = spec_eliminate_starts(graph, nfa.start_states);
    lemma_reached_below(graph, nfa.start_states, graph.len());
    assert forall|i: int| 0 <= i < starts.len() implies 0 <= #[trigger] starts[i] < reduced.len() by {
        assert(reached_below(graph, nfa.start_states, graph.len()).contains(starts[i]));
    }
}

// ---------------------------------------------------------- dead states

/// Whether `new` is `old` with its target under its new index.
pub open spec fn renumbers(
    graph: Graph,
    terminals: Seq<int>,
    old: TransitionModel,
    new: TransitionModel,
) -> bool {
    live(graph, terminals, old.next_state_id) && new == arc(
        live_rank(graph, terminals, old.next_state_id),
        old.condition,
    )
}

/// Two live states have different ranks.
pub proof fn lemma_live_rank_injective(graph: Graph, terminals: Seq<int>, a: int, b: int)
    requires
        live(graph, terminals, a),
        live(graph, terminals, b),
        live_rank(graph, terminals, a) == live_rank(graph, terminals, b),
    ensures
        a == b,
{
    if a < b {
        lemma_live_rank_order(graph, terminals, a, b);
    } else if b < a {
        lemma_live_rank_order(graph, terminals, b, a);
    }
}

/// The rank of a live state names it among the live states.
pub proof fn lemma_live_rank_names(graph: Graph, terminals: Seq<int>, state: int)
    requires
        live(graph, terminals, state),
    ensures
        0 <= live_rank(graph, terminals, state) < live_states(graph, terminals).len(),
        live_states(graph, terminals)[live_rank(graph, terminals, state)] == state,
{
    lemma_live_rank_order(graph, terminals, state, graph.len() as int);
}

/// What the renumbered list holds, and that it holds nothing twice where
/// the list does not.
pub proof fn lemma_renumbered(list: Seq<TransitionModel>, graph: Graph, terminals: Seq<int>)
    ensures
        forall|wanted: TransitionModel| #[trigger]
            renumbered(list, graph, terminals).contains(wanted) <==> exists|k: int|
                0 <= k < list.len() && renumbers(graph, terminals, #[trigger] list[k], wanted),
        distinct(list) ==> distinct(renumbered(list, graph, terminals)),
    decreases list.len(),
{
    let result = renumbered(list, graph, terminals);
    if list.len() > 0 {
        let shorter = list.drop_last();
        let front = renumbered(shorter, graph, terminals);
        lemma_renumbered(shorter, graph, terminals);
        let last = list.last();
        let new = arc(live_rank(graph, terminals, last.next_state_id), last.condition);
        assert forall|wanted: TransitionModel| #[trigger]
            result.contains(wanted) <==> exists|k: int|
                0 <= k < list.len() && renumbers(graph, terminals, #[trigger] list[k], wanted) by {
            lemma_push_contains(front, new, wanted);
            if front.contains(wanted) {
                let k = choose|k: int|
                    0 <= k < shorter.len() && renumbers(
                        graph,
                        terminals,
                        #[trigger] shorter[k],
                        wanted,
                    );
                assert(renumbers(graph, terminals, list[k], wanted));
            }
            if exists|k: int|
                0 <= k < list.len() && renumbers(graph, terminals, #[trigger] list[k], wanted) {
                let k = choose|k: int|
                    0 <= k < list.len() && renumbers(graph, terminals, #[trigger] list[k], wanted);
                if k < list.len() - 1 {
                    assert(renumbers(graph, terminals, shorter[k], wanted));
                }
            }
        }
        if distinct(list) {
            assert(distinct(shorter)) by {
                assert forall|i: int, j: int| 0 <= i < j < shorter.len() implies shorter[i]
                    != shorter[j] by {
                    assert(list[i] != list[j]);
                }
            }
            if live(graph, terminals, last.next_state_id) {
                if front.contains(new) {
                    let k = choose|k: int|
                        0 <= k < shorter.len() && renumbers(
                            graph,
                            terminals,
                            #[trigger] shorter[k],
                            new,
                        );
                    lemma_live_rank_injective(
                        graph,
                        terminals,
                        shorter[k].next_state_id,
                        last.next_state_id,
                    );
                    assert(list[k] == list[list.len() - 1]);
                }
                lemma_push_new(front, new);
                assert(push_new(front, new) == front.push(new));
            }
        }
    } else {
        assert forall|wanted: TransitionModel| !result.contains(wanted) by {}
    }
}

/// What the renumbered list of states holds.
pub proof fn lemma_renumbered_indices(list: Seq<int>, graph: Graph, terminals: Seq<int>)
    ensures
        forall|wanted: int| #[trigger]
            renumbered_indices(list, graph, terminals).contains(wanted) <==> exists|k: int|
                0 <= k < list.len() && live(graph, terminals, #[trigger] list[k]) && wanted
                    == live_rank(graph, terminals, list[k]),
    decreases list.len(),
{
    let result = renumbered_indices(list, graph, terminals);
    if list.len() > 0 {
        let shorter = list.drop_last();
        let front = renumbered_indices(shorter, graph, terminals);
        lemma_renumbered_indices(shorter, graph, terminals);
        let new = live_rank(graph, terminals, list.last());
        assert forall|wanted: int| #[trigger]
            result.contains(wanted) <==> exists|k: int|
                0 <= k < list.len() && live(graph, terminals, #[trigger] list[k]) && wanted
                    == live_rank(graph, terminals, list[k]) by {
            lemma_push_contains(front, new, wanted);
            if front.contains(wanted) {
                let k = choose|k: int|
                    0 <= k < shorter.len() && live(graph, terminals, #[trigger] shorter[k])
                        && wanted == live_rank(graph, terminals, shorter[k]);
                assert(live(graph, terminals, list[k]));
            }
            if exists|k: int|
                0 <= k < list.len() && live(graph, terminals, #[trigger] list[k]) && wanted
                    == live_rank(graph, terminals, list[k]) {
                let k = choose|k: int|
                    0 <= k < list.len() && live(graph, terminals, #[trigger] list[k]) && wanted
                        == live_rank(graph, terminals, list[k]);
                if k < list.len() - 1 {
                    assert(live(graph, terminals, shorter[k]));
                }
            }
        }
    } else {
        assert forall|wanted: int| !result.contains(wanted) by {}
    }
}

/// The state that takes the place of a live state once the dead states are
/// gone has the transitions of that state, renumbered.
pub proof fn lemma_removed_state(nfa: NfaModel, state: int)
    requires
        live(nfa.states, nfa.terminal_states, state),
    ensures
        0 <= live_rank(nfa.states, nfa.terminal_states, state) < spec_remove_dead(nfa).states.len(),
        spec_remove_dead(nfa).states[live_rank(nfa.states, nfa.terminal_states, state)]
            == renumbered(nfa.states[state], nfa.states, nfa.terminal_states),
{
    lemma_live_rank_names(nfa.states, nfa.terminal_states, state);
}

/// A live state is live after the dead states are gone.
pub proof fn lemma_live_maps(nfa: NfaModel, state: int, steps: nat)
    requires
        nfa.wf(),
        0 <= state < nfa.states.len(),
        live_in(nfa.states, nfa.terminal_states, state, steps),
    ensures
        live_in(
            spec_remove_dead(nfa).states,
            spec_remove_dead(nfa).terminal_states,
            live_rank(nfa.states, nfa.terminal_states, state),
            steps,
        ),
    decreases steps,
{
    let graph = nfa.states;
    let terminals = nfa.terminal_states;
    let reduced = spec_remove_dead(nfa);
    assert(live(graph, terminals, state));
    lemma_removed_state(nfa, state);
    if steps == 0 {
        lemma_renumbered_indices(terminals, graph, terminals);
        let k = choose|k: int| 0 <= k < terminals.len() && terminals[k] == state;
        assert(live(graph, terminals, terminals[k]));
    } else {
        let next = choose|next: int| #[trigger]
            reading_step(graph, state, next) && live_in(graph, terminals, next, (steps - 1) as nat);
        let i = choose|i: int|
            0 <= i < graph[state].len() && !((#[trigger] graph[state][i]).condition is Epsilon)
                && graph[state][i].next_state_id == next;
        assert(0 <= graph[state][i].next_state_id < graph.len());
        assert(live(graph, terminals, next));
        lemma_live_maps(nfa, next, (steps - 1) as nat);
        lemma_renumbered(graph[state], graph, terminals);
        let new = arc(live_rank(graph, terminals, next), graph[state][i].condition);
        assert(renumbers(graph, terminals, graph[state][i], new));
        let moved = renumbered(graph[state], graph, terminals);
        assert(moved.contains(new));
        let j = choose|j: int| 0 <= j < moved.len() && moved[j] == new;
        let rank = live_rank(graph, terminals, state);
        assert(reduced.states[rank][j] == new);
        assert(reading_step(reduced.states, rank, live_rank(graph, terminals, next)));
    }
}

/// Removing the dead states keeps an automaton well-formed, adds no epsilon
/// transition and no duplicate, and leaves live states only.
pub proof fn lemma_remove_dead_nfa(nfa: NfaModel)
    requires
        nfa.wf(),
    ensures
        spec_remove_dead(nfa).wf(),
        all_live(spec_remove_dead(nfa)),
        no_epsilon(nfa.states) ==> no_epsilon(spec_remove_dead(nfa).states),
        no_duplicates(nfa.states) ==> no_duplicates(spec_remove_dead(nfa).states),
{
    let graph = nfa.states;
    let terminals = nfa.terminal_states;
    let reduced = spec_remove_dead(nfa);
    let kept = live_states(graph, terminals);
    lemma_live_below(graph, terminals, graph.len());
    assert forall|s: int, i: int|
        0 <= s < reduced.states.len() && 0 <= i < reduced.states[s].len() implies 0 <= (
    #[trigger] reduced.states[s][i]).next_state_id < reduced.states.len() && (no_epsilon(graph)
        ==> !(reduced.states[s][i].condition is Epsilon)) by {
        let old = kept[s];
        lemma_renumbered(graph[old], graph, terminals);
        let moved = renumbered(graph[old], graph, terminals);
        assert(moved.contains(moved[i]));
        let k = choose|k: int|
            0 <= k < graph[old].len() && renumbers(graph, terminals, #[trigger] graph[old][k], moved[i]);
        lemma_live_rank_names(graph, terminals, graph[old][k].next_state_id);
    }
    assert forall|s: int| 0 <= s < reduced.states.len() && no_duplicates(graph) implies distinct(
        #[trigger] reduced.states[s],
    ) by {
        lemma_renumbered(graph[kept[s]], graph, terminals);
    }
    assert forall|i: int| 0 <= i < reduced.start_states.len() implies 0
        <= #[trigger] reduced.start_states[i] < reduced.states.len() by {
        lemma_renumbered_indices(nfa.start_states, graph, terminals);
        let moved = renumbered_indices(nfa.start_states, graph, terminals);
        assert(moved.contains(moved[i]));
        let k = choose|k: int|
            0 <= k < nfa.start_states.len() && live(graph, terminals, #[trigger] nfa.start_states[k])
                && moved[i] == live_rank(graph, terminals, nfa.start_states[k]);
        lemma_live_rank_names(graph, terminals, nfa.start_states[k]);
    }
    assert forall|i: int| 0 <= i < reduced.terminal_states.len() implies 0
        <= #[trigger] reduced.terminal_states[i] < reduced.states.len() by {
        lemma_renumbered_indices(terminals, graph, terminals);
        let moved = renumbered_indices(terminals, graph, terminals);
        assert(moved.contains(moved[i]));
        let k = choose|k: int|
            0 <= k < terminals.len() && live(graph, terminals, #[trigger] terminals[k]) && moved[i]
                == live_rank(graph, terminals, terminals[k]);
        lemma_live_rank_names(graph, terminals, terminals[k]);
    }
    assert forall|s: int| 0 <= s < reduced.states.len() implies live(
        reduced.states,
        reduced.terminal_states,
        s,
    ) by {
        let old = kept[s];
        assert(live(graph, terminals, old));
        let steps = choose|steps: nat| live_in(graph, terminals, old, steps);
        lemma_live_maps(nfa, old, steps);
        lemma_live_rank_names(graph, terminals, old);
        lemma_live_rank_injective_index(graph, terminals, s);
    }
}

/// The rank of the live state with index `k` among the live states is `k`.
pub proof fn lemma_live_rank_injective_index(graph: Graph, terminals: Seq<int>, k: int)
    requires
        0 <= k < live_states(graph, terminals).len(),
    ensures
        live_rank(graph, terminals, live_states(graph, terminals)[k]) == k,
{
    lemma_live_below(graph, terminals, graph.len());
    let state = live_states(graph, terminals)[k];
    lemma_live_rank_names(graph, terminals, state);
    let rank = live_rank(graph, terminals, state);
    lemma_live_states_increase(graph, terminals, graph.len());
    if rank < k {
        assert(live_states(graph, terminals)[rank] < live_states(graph, terminals)[k]);
    } else if k < rank {
        assert(live_states(graph, terminals)[k] < live_states(graph, terminals)[rank]);
    }
}

/// The live states are listed in ascending order.
pub proof fn lemma_live_states_increase(graph: Graph, terminals: Seq<int>, bound: nat)
    ensures
        forall|i: int, j: int|
            0 <= i < j < live_below(graph, terminals, bound).len() ==> live_below(
                graph,
                terminals,
                bound,
            )[i] < live_below(graph, terminals, bound)[j],
    decreases bound,
{
    if bound > 0 {
        lemma_live_states_increase(graph, terminals, (bound - 1) as nat);
        lemma_live_below(graph, terminals, (bound - 1) as nat);
    }
}

// -------------------------------------------------------- literal prefix

/// Taking out the literal prefix changes the start states and the prefix
/// only, and keeps an automaton well-formed.
pub proof fn lemma_extract_prefix(nfa: NfaModel, rounds: nat)
    requires
        nfa.wf(),
    ensures
        spec_extract_prefix(nfa, rounds).wf(),
        spec_extract_prefix(nfa, rounds).states == nfa.states,
        spec_extract_prefix(nfa, rounds).terminal_states == nfa.terminal_states,
    decreases rounds,
{
    if rounds > 0 && can_peel(nfa) {
        let start = nfa.start_states[0];
        assert(0 <= nfa.states[start][0].next_state_id < nfa.states.len());
        lemma_extract_prefix(peel(nfa), (rounds - 1) as nat);
    }
}

// ---------------------------------------------------------- start states

/// A list of `count` different states in ascending order has at most
/// `count` members.
pub proof fn lemma_ascending_bound(list: Seq<int>, count: int)
    requires
        0 <= count,
        ascending(list),
        forall|i: int| 0 <= i < list.len() ==> 0 <= #[trigger] list[i] < count,
    ensures
        list.len() <= count,
        forall|i: int| 0 <= i < list.len() ==> i <= #[trigger] list[i],
    decreases list.len(),
{
    if list.len() > 0 {
        let shorter = list.drop_last();
        assert(ascending(shorter)) by {
            assert forall|i: int, j: int| 0 <= i < j < shorter.len() implies shorter[i]
                < shorter[j] by {
                assert(list[i] < list[j]);
            }
        }
        assert forall|i: int| 0 <= i < shorter.len() implies 0 <= #[trigger] shorter[i] < count by {
            assert(shorter[i] == list[i]);
        }
        lemma_ascending_bound(shorter, count);
        assert forall|i: int| 0 <= i < list.len() implies i <= #[trigger] list[i] by {
            if i < shorter.len() {
                assert(shorter[i] == list[i]);
            } else if i > 0 {
                assert(shorter[i - 1] == list[i - 1]);
                assert(list[i - 1] < list[i]);
            }
        }
        let last = list.len() - 1;
        assert(last <= list[last]);
        assert(0 <= list[last] < count);
    }
}

/// The reached states are listed in ascending order.
pub proof fn lemma_reached_ascending(graph: Graph, starts: Seq<int>, bound: nat)
    ensures
        ascending(reached_below(graph, starts, bound)),
        forall|i: int|
            0 <= i < reached_below(graph, starts, bound).len() ==> 0 <= #[trigger] reached_below(
                graph,
                starts,
                bound,
            )[i] < bound,
    decreases bound,
{
    if bound > 0 {
        lemma_reached_ascending(graph, starts, (bound - 1) as nat);
    }
}

/// Renumbering keeps a list of states in ascending order.
pub proof fn lemma_renumbered_ascending(list: Seq<int>, graph: Graph, terminals: Seq<int>)
    requires
        ascending(list),
    ensures
        ascending(renumbered_indices(list, graph, terminals)),
    decreases list.len(),
{
    if list.len() > 0 {
        let shorter = list.drop_last();
        assert(ascending(shorter)) by {
            assert forall|i: int, j: int| 0 <= i < j < shorter.len() implies shorter[i]
                < shorter[j] by {
                assert(list[i] < list[j]);
            }
        }
        lemma_renumbered_ascending(shorter, graph, terminals);
        lemma_renumbered_indices(shorter, graph, terminals);
        let front = renumbered_indices(shorter, graph, terminals);
        let result = renumbered_indices(list, graph, terminals);
        if live(graph, terminals, list.last()) {
            assert forall|i: int, j: int| 0 <= i < j < result.len() implies result[i]
                < result[j] by {
                if j < front.len() {
                    assert(front[i] < front[j]);
                } else {
                    assert(front.contains(front[i]));
                    let k = choose|k: int|
                        0 <= k < shorter.len() && live(graph, terminals, #[trigger] shorter[k])
                            && front[i] == live_rank(graph, terminals, shorter[k]);
                    assert(list[k] < list[list.len() - 1]);
                    lemma_live_rank_order(graph, terminals, shorter[k], list.last());
                }
            }
        }
    }
}

/// Taking out the literal prefix keeps the start states in ascending order.
pub proof fn lemma_extract_prefix_ascending(nfa: NfaModel, rounds: nat)
    requires
        ascending(nfa.start_states),
    ensures
        ascending(spec_extract_prefix(nfa, rounds).start_states),
    decreases rounds,
{
    if rounds > 0 && can_peel(nfa) {
        lemma_extract_prefix_ascending(peel(nfa), (rounds - 1) as nat);
    }
}

/// Simplification leaves the start states in ascending order.
pub proof fn lemma_simplify_ascending(nfa: NfaModel)
    ensures
        ascending(spec_simplify_nfa(nfa).start_states),
{
    let deduped = spec_dedup_nfa(nfa);
    lemma_reached_ascending(deduped.states, deduped.start_states, deduped.states.len());
    let eliminated = spec_eliminate(deduped);
    lemma_renumbered_ascending(eliminated.start_states, eliminated.states, eliminated.terminal_states);
    let reduced = spec_remove_dead(eliminated);
    lemma_extract_prefix_ascending(reduced, reduced.states.len());
}

// ------------------------------------------------------------- the whole

/// Whether the automaton has the form that simplification leaves: no
/// epsilon transition, no transition twice in a state, and live states only.
pub open spec fn is_simplified_nfa(nfa: NfaModel) -> bool {
    &&& nfa.wf()
    &&& no_epsilon(nfa.states)
    &&& no_duplicates(nfa.states)
    &&& all_live(nfa)
    &&& ascending(nfa.start_states)
}

/// A simplified automaton has no epsilon transition, no state with the same
/// transition twice, and no dead state.
pub proof fn lemma_simplify_nfa(nfa: NfaModel)
    requires
        nfa.wf(),
    ensures
        is_simplified_nfa(spec_simplify_nfa(nfa)),
{
    lemma_dedup_nfa(nfa);
    let deduped = spec_dedup_nfa(nfa);
    lemma_eliminate_nfa(deduped);
    let eliminated = spec_eliminate(deduped);
    lemma_remove_dead_nfa(eliminated);
    let reduced = spec_remove_dead(eliminated);
    lemma_extract_prefix(reduced, reduced.states.len());
    lemma_simplify_ascending(nfa);
}

} // verus!
