//! The simplification of automata.

use vstd::prelude::*;

use crate::automata::model::{arc, graph_wf, indices_in, Graph, NfaModel};
use crate::automata::reduction::{
    distinct, emit_sources, emit_targets, emit_transitions, eps_reach, eps_reach_any,
    can_peel, eps_reach_in, eps_step, live, live_below, live_in, live_rank, live_states, peel,
    push_new, reached_below, reading_step, renumbered, renumbered_indices, single_literal,
    spec_dedup, spec_dedup_graph, spec_eliminate_graph, spec_eliminate_starts,
    spec_extract_prefix, spec_remove_dead,
};
use crate::automata::{
    ids_dense, state_models, transition_models, Automata, ConditionModel, State, Transition,
    TransitionCondition, TransitionModel,
};

verus! {

// --------------------------------------------------------- marked states

/// The number of marks that are set.
pub open spec fn count_marked(marks: Seq<bool>) -> nat
    decreases marks.len(),
{
    if marks.len() == 0 {
        0
    } else {
        count_marked(marks.drop_last()) + (if marks.last() {
            1nat
        } else {
            0nat
        })
    }
}

/// No more marks are set than there are.
pub proof fn lemma_count_marked_bound(marks: Seq<bool>)
    ensures
        count_marked(marks) <= marks.len(),
    decreases marks.len(),
{
    if marks.len() > 0 {
        lemma_count_marked_bound(marks.drop_last());
    }
}

/// Setting a mark that was not set adds one to the count.
pub proof fn lemma_count_marked_set(marks: Seq<bool>, at: int)
    requires
        0 <= at < marks.len(),
        !marks[at],
    ensures
        count_marked(marks.update(at, true)) == count_marked(marks) + 1,
    decreases marks.len(),
{
    if at == marks.len() - 1 {
        assert(marks.update(at, true).drop_last() =~= marks.drop_last());
    } else {
        assert(marks.update(at, true).drop_last() =~= marks.drop_last().update(at, true));
        lemma_count_marked_set(marks.drop_last(), at);
    }
}

/// A list of `count` marks, none of them set.
pub fn no_marks(count: usize) -> (marks: Vec<bool>)
    ensures
        marks@.len() == count,
        forall|i: int| 0 <= i < count ==> !marks@[i],
        count_marked(marks@) == 0,
{
    let mut marks: Vec<bool> = Vec::new();
    while marks.len() < count
        invariant
            marks@.len() <= count,
            forall|i: int| 0 <= i < marks@.len() ==> !marks@[i],
            count_marked(marks@) == 0,
        decreases count - marks.len(),
    {
        proof {
            assert(marks@.push(false).drop_last() =~= marks@);
        }
        marks.push(false);
    }
    marks
}

// ------------------------------------------------ duplicate transitions

/// Whether the list holds a transition with the value of `wanted`.
pub fn contains_transition(list: &Vec<Transition>, wanted: &Transition) -> (found: bool)
    ensures
        found == transition_models(list@).contains(wanted@),
{
    let mut i: usize = 0;
    while i < list.len()
        invariant
            i <= list.len(),
            forall|j: int| 0 <= j < i ==> transition_models(list@)[j] != wanted@,
        decreases list.len() - i,
    {
        if list[i].same(wanted) {
            assert(transition_models(list@)[i as int] == wanted@);
            return true;
        }
        i += 1;
    }
    false
}

/// Adds a copy of `transition` to the list unless the list holds it.
pub fn push_new_transition(list: &mut Vec<Transition>, transition: &Transition)
    ensures
        transition_models(final(list)@) == push_new(transition_models(old(list)@), transition@),
{
    if !contains_transition(list, transition) {
        let copy = transition.duplicate();
        list.push(copy);
        assert(transition_models(list@) =~= transition_models(old(list)@).push(transition@));
    }
}

/// The transitions of the list, each kept where it first occurs.
pub fn dedup_transitions(list: &Vec<Transition>) -> (kept: Vec<Transition>)
    ensures
        transition_models(kept@) == spec_dedup(transition_models(list@)),
{
    let ghost models = transition_models(list@);
    let mut kept: Vec<Transition> = Vec::new();
    let mut i: usize = 0;
    assert(models.subrange(0, 0) =~= Seq::<TransitionModel>::empty());
    assert(transition_models(kept@) =~= Seq::<TransitionModel>::empty());
    while i < list.len()
        invariant
            i <= list.len(),
            models == transition_models(list@),
            transition_models(kept@) == spec_dedup(models.subrange(0, i as int)),
        decreases list.len() - i,
    {
        proof {
            assert(models.subrange(0, i + 1).drop_last() =~= models.subrange(0, i as int));
            assert(models.subrange(0, i + 1).last() == list@[i as int]@);
        }
        push_new_transition(&mut kept, &list[i]);
        i += 1;
    }
    assert(models.subrange(0, i as int) =~= models);
    kept
}

impl Automata {
    /// The states with the repeated transitions of each removed.
    pub(crate) fn remove_duplicate_transitions(states: &Vec<State>) -> (reduced: Vec<State>)
        requires
            ids_dense(states@),
        ensures
            ids_dense(reduced@),
            state_models(reduced@) == spec_dedup_graph(state_models(states@)),
    {
        let mut reduced: Vec<State> = Vec::new();
        let mut i: usize = 0;
        while i < states.len()
            invariant
                i <= states.len(),
                ids_dense(states@),
                ids_dense(reduced@),
                reduced@.len() == i,
                forall|j: int| 0 <= j < i ==> (#[trigger] reduced@[j])@ == spec_dedup(states@[j]@),
            decreases states.len() - i,
        {
            let new_transitions = dedup_transitions(&states[i].transitions);
            reduced.push(State { id: i, transitions: new_transitions });
            i += 1;
        }
        assert(state_models(reduced@) =~= spec_dedup_graph(state_models(states@)));
        reduced
    }
}

// ------------------------------------------------------ epsilon closure

/// One more epsilon transition extends what is reached.
pub proof fn lemma_eps_reach_step(graph: Graph, from: int, mid: int, to: int)
    requires
        eps_reach(graph, from, mid),
        eps_step(graph, mid, to),
    ensures
        eps_reach(graph, from, to),
{
    let steps = choose|steps: nat| eps_reach_in(graph, from, mid, steps);
    assert(eps_reach_in(graph, from, mid, ((steps + 1) - 1) as nat));
    assert(eps_reach_in(graph, from, to, steps + 1));
}

/// Every state reaches itself.
pub proof fn lemma_eps_reach_self(graph: Graph, state: int)
    ensures
        eps_reach(graph, state, state),
{
    assert(eps_reach_in(graph, state, state, 0));
}

/// Whether the marked states are closed under epsilon transitions.
pub open spec fn eps_closed(graph: Graph, marks: Seq<bool>) -> bool {
    forall|u: int, i: int|
        0 <= u < graph.len() && marks[u] && 0 <= i < graph[u].len() && (
        #[trigger] graph[u][i]).condition is Epsilon ==> marks[graph[u][i].next_state_id]
}

/// A set of states that holds `from` and is closed under epsilon
/// transitions holds all that `from` reaches.
pub proof fn lemma_eps_closed_holds(graph: Graph, marks: Seq<bool>, from: int, to: int, steps: nat)
    requires
        graph_wf(graph),
        marks.len() == graph.len(),
        0 <= from < graph.len(),
        marks[from],
        eps_closed(graph, marks),
        eps_reach_in(graph, from, to, steps),
    ensures
        0 <= to < graph.len(),
        marks[to],
    decreases steps,
{
    if steps > 0 {
        let mid = choose|mid: int|
            eps_reach_in(graph, from, mid, (steps - 1) as nat) && #[trigger] eps_step(
                graph,
                mid,
                to,
            );
        lemma_eps_closed_holds(graph, marks, from, mid, (steps - 1) as nat);
        let i = choose|i: int|
            0 <= i < graph[mid].len() && #[trigger] graph[mid][i] == arc(
                to,
                ConditionModel::Epsilon,
            );
        assert(graph[mid][i].condition is Epsilon);
    }
}

impl Automata {
    /// The epsilon closure of `state_id` as one mark for each state.
    pub(crate) fn calculate_epsilon_reach(states: &Vec<State>, state_id: usize) -> (marks: Vec<bool>)
        requires
            graph_wf(state_models(states@)),
            state_id < states.len(),
        ensures
            marks@.len() == states@.len(),
            forall|t: int|
                0 <= t < states@.len() ==> (#[trigger] marks@[t] <==> eps_reach(
                    state_models(states@),
                    state_id as int,
                    t,
                )),
            forall|t: int|
                eps_reach(state_models(states@), state_id as int, t) ==> 0 <= t < states@.len(),
    {
        let ghost graph = state_models(states@);
        let count = states.len();
        let mut marks = no_marks(count);
        proof {
            lemma_count_marked_set(marks@, state_id as int);
            lemma_eps_reach_self(graph, state_id as int);
        }
        marks.set(state_id, true);
        let mut marked: usize = 1;
        let mut changed = true;
        while changed
            invariant
                graph == state_models(states@),
                graph_wf(graph),
                count == states.len(),
                state_id < count,
                marks@.len() == count,
                marks@[state_id as int],
                marked == count_marked(marks@),
                forall|t: int| 0 <= t < count && marks@[t] ==> eps_reach(graph, state_id as int, t),
                !changed ==> eps_closed(graph, marks@),
            decreases 2 * (count - marked) + (if changed { 1int } else { 0int }),
        {
            proof {
                lemma_count_marked_bound(marks@);
            }
            changed = false;
            let ghost before = marks@;
            let mut u: usize = 0;
            while u < count
                invariant
                    graph == state_models(states@),
                    graph_wf(graph),
                    count == states.len(),
                    state_id < count,
                    u <= count,
                    marks@.len() == count,
                    marks@[state_id as int],
                    marked == count_marked(marks@),
                    before.len() == count,
                    count_marked(before) <= marked,
                    changed ==> count_marked(before) < marked,
                    forall|t: int|
                        0 <= t < count && marks@[t] ==> eps_reach(graph, state_id as int, t),
                    !changed ==> marks@ == before,
                    !changed ==> forall|v: int, i: int|
                        0 <= v < u && marks@[v] && 0 <= i < graph[v].len() && (
                        #[trigger] graph[v][i]).condition is Epsilon
                            ==> marks@[graph[v][i].next_state_id],
                decreases count - u,
            {
                if marks[u] {
                    let transitions = &states[u].transitions;
                    let mut i: usize = 0;
                    while i < transitions.len()
                        invariant
                            graph == state_models(states@),
                            graph_wf(graph),
                            count == states.len(),
                            state_id < count,
                            u < count,
                            transitions == &states@[u as int].transitions,
                            i <= transitions.len(),
                            marks@.len() == count,
                            marks@[state_id as int],
                            marks@[u as int],
                            marked == count_marked(marks@),
                            before.len() == count,
                            count_marked(before) <= marked,
                            changed ==> count_marked(before) < marked,
                            forall|t: int|
                                0 <= t < count && marks@[t] ==> eps_reach(
                                    graph,
                                    state_id as int,
                                    t,
                                ),
                            !changed ==> marks@ == before,
                            !changed ==> forall|v: int, i: int|
                                0 <= v < u && marks@[v] && 0 <= i < graph[v].len() && (
                                #[trigger] graph[v][i]).condition is Epsilon
                                    ==> marks@[graph[v][i].next_state_id],
                            !changed ==> forall|j: int|
                                0 <= j < i && (#[trigger] graph[u as int][j]).condition is Epsilon
                                    ==> marks@[graph[u as int][j].next_state_id],
                        decreases transitions.len() - i,
                    {
                        let next = transitions[i].next_state_id;
                        proof {
                            assert(graph[u as int][i as int] == transitions@[i as int]@);
                            assert(0 <= graph[u as int][i as int].next_state_id < count);
                        }
                        if transitions[i].condition.is_epsilon() && !marks[next] {
                            proof {
                                lemma_count_marked_set(marks@, next as int);
                                lemma_count_marked_bound(marks@.update(next as int, true));
                                assert(graph[u as int][i as int] == arc(
                                    next as int,
                                    ConditionModel::Epsilon,
                                ));
                                lemma_eps_reach_step(graph, state_id as int, u as int, next as int);
                            }
                            marks.set(next, true);
                            marked += 1;
                            changed = true;
                        }
                        i += 1;
                    }
                }
                u += 1;
            }
            proof {
                lemma_count_marked_bound(marks@);
            }
        }
        proof {
            assert forall|t: int| eps_reach(graph, state_id as int, t) implies 0 <= t < count
                && marks@[t] by {
                let steps = choose|steps: nat| eps_reach_in(graph, state_id as int, t, steps);
                lemma_eps_closed_holds(graph, marks@, state_id as int, t, steps);
            }
        }
        marks
    }
}

// ------------------------------------------------- epsilon elimination

/// The indices of a list as integers.
pub open spec fn index_models(indices: Seq<usize>) -> Seq<int> {
    Seq::new(indices.len(), |i: int| indices[i] as int)
}

/// Whether `marks` has one mark for each state, set for the states of the
/// epsilon closure of `from`.
pub open spec fn marks_closure(graph: Graph, marks: Seq<bool>, from: int) -> bool {
    marks.len() == graph.len() && forall|t: int|
        0 <= t < graph.len() ==> (#[trigger] marks[t] <==> eps_reach(graph, from, t))
}

impl Automata {
    /// Adds to `list` a transition under `condition` to each marked state.
    fn emit_closure(
        list: &mut Vec<Transition>,
        states: &Vec<State>,
        marks: &Vec<bool>,
        next: usize,
        condition: &TransitionCondition,
    )
        requires
            marks_closure(state_models(states@), marks@, next as int),
        ensures
            transition_models(final(list)@) == emit_targets(
                transition_models(old(list)@),
                state_models(states@),
                next as int,
                condition@,
                states@.len() as nat,
            ),
    {
        let ghost graph = state_models(states@);
        let ghost front = transition_models(list@);
        let mut w: usize = 0;
        while w < marks.len()
            invariant
                w <= marks.len(),
                graph == state_models(states@),
                marks_closure(graph, marks@, next as int),
                transition_models(list@) == emit_targets(
                    front,
                    graph,
                    next as int,
                    condition@,
                    w as nat,
                ),
            decreases marks.len() - w,
        {
            if marks[w] {
                let transition = Transition::new(w, condition.duplicate());
                push_new_transition(list, &transition);
            }
            w += 1;
        }
    }

    /// The state that takes the place of `old` once epsilon transitions are
    /// gone.
    pub(crate) fn calculate_new_state(states: &Vec<State>, closures: &Vec<Vec<bool>>, old: &State) -> (state:
        State)
        requires
            graph_wf(state_models(states@)),
            old.id < states.len(),
            closures@.len() == states@.len(),
            forall|s: int|
                0 <= s < states@.len() ==> marks_closure(
                    state_models(states@),
                    (#[trigger] closures@[s])@,
                    s,
                ),
        ensures
            state.id == old.id,
            state@ == emit_sources(state_models(states@), old.id as int, states@.len() as nat),
    {
        let ghost graph = state_models(states@);
        let count = states.len();
        let own = &closures[old.id];
        let mut list: Vec<Transition> = Vec::new();
        let mut u: usize = 0;
        assert(transition_models(list@) =~= Seq::<TransitionModel>::empty());
        while u < count
            invariant
                u <= count,
                count == states.len(),
                graph == state_models(states@),
                graph_wf(graph),
                old.id < count,
                closures@.len() == count,
                own == &closures@[old.id as int],
                forall|s: int|
                    0 <= s < count ==> marks_closure(graph, (#[trigger] closures@[s])@, s),
                transition_models(list@) == emit_sources(graph, old.id as int, u as nat),
            decreases count - u,
        {
            assert(marks_closure(graph, closures@[old.id as int]@, old.id as int));
            if own[u] {
                let transitions = &states[u].transitions;
                let ghost front = transition_models(list@);
                let mut k: usize = 0;
                while k < transitions.len()
                    invariant
                        k <= transitions.len(),
                        u < count,
                        count == states.len(),
                        graph == state_models(states@),
                        graph_wf(graph),
                        closures@.len() == count,
                        transitions == &states@[u as int].transitions,
                        forall|s: int|
                            0 <= s < count ==> marks_closure(graph, (#[trigger] closures@[s])@, s),
                        transition_models(list@) == emit_transitions(
                            front,
                            graph,
                            u as int,
                            k as nat,
                        ),
                    decreases transitions.len() - k,
                {
                    let transition = &transitions[k];
                    proof {
                        assert(graph[u as int][k as int] == transition@);
                        assert(0 <= graph[u as int][k as int].next_state_id < count);
                    }
                    if !transition.condition.is_epsilon() {
                        assert(marks_closure(
                            graph,
                            closures@[transition.next_state_id as int]@,
                            transition.next_state_id as int,
                        ));
                        Self::emit_closure(
                            &mut list,
                            states,
                            &closures[transition.next_state_id],
                            transition.next_state_id,
                            &transition.condition,
                        );
                    }
                    k += 1;
                }
                assert(graph[u as int].len() == transitions@.len());
            }
            u += 1;
        }
        State { id: old.id, transitions: list }
    }

    /// The states and the start states once epsilon transitions are gone.
    pub(crate) fn simplify_states(states: &Vec<State>, start_states: &Vec<usize>) -> (result: (
        Vec<State>,
        Vec<usize>,
    ))
        requires
            ids_dense(states@),
            graph_wf(state_models(states@)),
            forall|i: int| 0 <= i < start_states@.len() ==> start_states@[i] < states@.len(),
        ensures
            ids_dense(result.0@),
            state_models(result.0@) == spec_eliminate_graph(state_models(states@)),
            index_models(result.1@) == spec_eliminate_starts(
                state_models(states@),
                index_models(start_states@),
            ),
    {
        let ghost graph = state_models(states@);
        let ghost starts = index_models(start_states@);
        let count = states.len();
        let mut closures: Vec<Vec<bool>> = Vec::new();
        let mut s: usize = 0;
        while s < count
            invariant
                s <= count,
                count == states.len(),
                graph == state_models(states@),
                graph_wf(graph),
                closures@.len() == s,
                forall|t: int| 0 <= t < s ==> marks_closure(graph, (#[trigger] closures@[t])@, t),
            decreases count - s,
        {
            let marks = Self::calculate_epsilon_reach(states, s);
            closures.push(marks);
            s += 1;
        }
        // The start states: every state that one of them reaches.
        let mut reached = no_marks(count);
        let mut i: usize = 0;
        while i < start_states.len()
            invariant
                i <= start_states.len(),
                count == states.len(),
                graph == state_models(states@),
                starts == index_models(start_states@),
                closures@.len() == count,
                reached@.len() == count,
                forall|i: int| 0 <= i < start_states@.len() ==> start_states@[i] < count,
                forall|t: int| 0 <= t < count ==> marks_closure(graph, (#[trigger] closures@[t])@, t),
                forall|t: int|
                    0 <= t < count ==> (#[trigger] reached@[t] <==> eps_reach_any(
                        graph,
                        starts.subrange(0, i as int),
                        t,
                    )),
            decreases start_states.len() - i,
        {
            let start = start_states[i];
            let marks = &closures[start];
            assert(marks_closure(graph, closures@[start as int]@, start as int));
            let ghost before = reached@;
            let mut t: usize = 0;
            while t < count
                invariant
                    t <= count,
                    reached@.len() == count,
                    marks@.len() == count,
                    before.len() == count,
                    forall|v: int|
                        0 <= v < t ==> #[trigger] reached@[v] == (before[v] || marks@[v]),
                    forall|v: int| t <= v < count ==> #[trigger] reached@[v] == before[v],
                decreases count - t,
            {
                let ghost earlier = reached@;
                if marks[t] {
                    reached.set(t, true);
                }
                assert(forall|v: int| 0 <= v < count && v != t ==> reached@[v] == earlier[v]);
                assert(reached@[t as int] == (before[t as int] || marks@[t as int]));
                t += 1;
            }
            proof {
                let shorter = starts.subrange(0, i as int);
                let longer = starts.subrange(0, i + 1);
                assert(longer[i as int] == start as int);
                assert forall|v: int| 0 <= v < count implies (#[trigger] reached@[v]
                    <==> eps_reach_any(graph, longer, v)) by {
                    if eps_reach_any(graph, longer, v) {
                        let j = choose|j: int|
                            0 <= j < longer.len() && eps_reach(graph, #[trigger] longer[j], v);
                        if j < i {
                            assert(shorter[j] == longer[j]);
                        }
                    }
                    if before[v] {
                        let j = choose|j: int|
                            0 <= j < shorter.len() && eps_reach(graph, #[trigger] shorter[j], v);
                        assert(longer[j] == shorter[j]);
                    }
                }
            }
            i += 1;
        }
        assert(starts.subrange(0, i as int) =~= starts);
        let mut new_start_states: Vec<usize> = Vec::new();
        let mut t: usize = 0;
        assert(index_models(new_start_states@) =~= Seq::<int>::empty());
        while t < count
            invariant
                t <= count,
                reached@.len() == count,
                forall|v: int|
                    0 <= v < count ==> (#[trigger] reached@[v] <==> eps_reach_any(graph, starts, v)),
                index_models(new_start_states@) == reached_below(graph, starts, t as nat),
            decreases count - t,
        {
            if reached[t] {
                proof {
                    assert(index_models(new_start_states@.push(t)) =~= index_models(
                        new_start_states@,
                    ).push(t as int));
                }
                new_start_states.push(t);
            }
            t += 1;
        }
        // The states.
        let mut new_states: Vec<State> = Vec::new();
        let mut s: usize = 0;
        while s < count
            invariant
                s <= count,
                count == states.len(),
                graph == state_models(states@),
                graph_wf(graph),
                ids_dense(states@),
                ids_dense(new_states@),
                closures@.len() == count,
                forall|t: int| 0 <= t < count ==> marks_closure(graph, (#[trigger] closures@[t])@, t),
                new_states@.len() == s,
                forall|t: int|
                    0 <= t < s ==> (#[trigger] new_states@[t])@ == emit_sources(
                        graph,
                        t,
                        count as nat,
                    ),
            decreases count - s,
        {
            let state = Self::calculate_new_state(states, &closures, &states[s]);
            new_states.push(state);
            s += 1;
        }
        assert(state_models(new_states@) =~= spec_eliminate_graph(graph));
        (new_states, new_start_states)
    }
}

// ----------------------------------------------------------- dead states

/// Whether the list holds `wanted`.
pub fn contains_index(list: &Vec<usize>, wanted: usize) -> (found: bool)
    ensures
        found == index_models(list@).contains(wanted as int),
{
    let mut i: usize = 0;
    while i < list.len()
        invariant
            i <= list.len(),
            forall|j: int| 0 <= j < i ==> index_models(list@)[j] != wanted as int,
        decreases list.len() - i,
    {
        if list[i] == wanted {
            assert(index_models(list@)[i as int] == wanted as int);
            return true;
        }
        i += 1;
    }
    false
}

/// A state with a reading transition to a live state is live.
pub proof fn lemma_live_step(graph: Graph, terminals: Seq<int>, state: int, next: int)
    requires
        reading_step(graph, state, next),
        live(graph, terminals, next),
    ensures
        live(graph, terminals, state),
{
    let steps = choose|steps: nat| live_in(graph, terminals, next, steps);
    assert(live_in(graph, terminals, next, ((steps + 1) - 1) as nat));
    assert(live_in(graph, terminals, state, steps + 1));
}

/// A terminal state is live.
pub proof fn lemma_live_terminal(graph: Graph, terminals: Seq<int>, state: int)
    requires
        0 <= state < graph.len(),
        terminals.contains(state),
    ensures
        live(graph, terminals, state),
{
    assert(live_in(graph, terminals, state, 0));
}

/// Whether every state with a reading transition to a marked state is
/// marked.
pub open spec fn live_closed(graph: Graph, marks: Seq<bool>) -> bool {
    forall|u: int, i: int|
        0 <= u < graph.len() && 0 <= i < graph[u].len() && !((
        #[trigger] graph[u][i]).condition is Epsilon) && marks[graph[u][i].next_state_id]
            ==> marks[u]
}

/// A set of states that holds the terminal states and every state with a
/// reading transition into the set holds every live state.
pub proof fn lemma_live_closed_holds(
    graph: Graph,
    terminals: Seq<int>,
    marks: Seq<bool>,
    state: int,
    steps: nat,
)
    requires
        graph_wf(graph),
        marks.len() == graph.len(),
        forall|t: int| 0 <= t < graph.len() && terminals.contains(t) ==> marks[t],
        live_closed(graph, marks),
        0 <= state < graph.len(),
        live_in(graph, terminals, state, steps),
    ensures
        marks[state],
    decreases steps,
{
    if steps > 0 {
        let next = choose|next: int| #[trigger]
            reading_step(graph, state, next) && live_in(graph, terminals, next, (steps - 1) as nat);
        let i = choose|i: int|
            0 <= i < graph[state].len() && !((#[trigger] graph[state][i]).condition is Epsilon)
                && graph[state][i].next_state_id == next;
        lemma_live_closed_holds(graph, terminals, marks, next, (steps - 1) as nat);
    }
}

/// The live states below a bound are below it, and no more than the bound.
pub proof fn lemma_live_below(graph: Graph, terminals: Seq<int>, bound: nat)
    ensures
        live_below(graph, terminals, bound).len() <= bound,
        forall|k: int|
            0 <= k < live_below(graph, terminals, bound).len() ==> 0 <= #[trigger] live_below(
                graph,
                terminals,
                bound,
            )[k] < bound && live(graph, terminals, live_below(graph, terminals, bound)[k]),
    decreases bound,
{
    if bound > 0 {
        lemma_live_below(graph, terminals, (bound - 1) as nat);
    }
}

/// The rank of a state is at most that of every state above it, and below
/// it where the state is live.
pub proof fn lemma_live_rank_order(graph: Graph, terminals: Seq<int>, state: int, bound: int)
    requires
        0 <= state < bound,
    ensures
        live_rank(graph, terminals, state) <= live_rank(graph, terminals, bound),
        live(graph, terminals, state) ==> live_rank(graph, terminals, state) < live_rank(
            graph,
            terminals,
            bound,
        ),
        live(graph, terminals, state) ==> live_below(graph, terminals, bound as nat)[live_rank(
            graph,
            terminals,
            state,
        )] == state,
    decreases bound - state,
{
    if bound == state + 1 {
    } else {
        lemma_live_rank_order(graph, terminals, state, bound - 1);
    }
}

impl Automata {
    /// One mark for each state, set for the live ones.
    pub(crate) fn live_marks(states: &Vec<State>, terminal_states: &Vec<usize>) -> (marks: Vec<bool>)
        requires
            graph_wf(state_models(states@)),
            forall|i: int| 0 <= i < terminal_states@.len() ==> terminal_states@[i] < states@.len(),
        ensures
            marks@.len() == states@.len(),
            forall|s: int|
                0 <= s < states@.len() ==> (#[trigger] marks@[s] <==> live(
                    state_models(states@),
                    index_models(terminal_states@),
                    s,
                )),
    {
        let ghost graph = state_models(states@);
        let ghost terminals = index_models(terminal_states@);
        let count = states.len();
        let mut marks = no_marks(count);
        let mut marked: usize = 0;
        let mut i: usize = 0;
        while i < terminal_states.len()
            invariant
                i <= terminal_states.len(),
                count == states.len(),
                graph == state_models(states@),
                terminals == index_models(terminal_states@),
                forall|i: int| 0 <= i < terminal_states@.len() ==> terminal_states@[i] < count,
                marks@.len() == count,
                marked == count_marked(marks@),
                forall|s: int| 0 <= s < count && marks@[s] ==> live(graph, terminals, s),
                forall|j: int| 0 <= j < i ==> marks@[#[trigger] terminals[j]],
            decreases terminal_states.len() - i,
        {
            let terminal = terminal_states[i];
            assert(terminals[i as int] == terminal);
            if !marks[terminal] {
                proof {
                    lemma_count_marked_set(marks@, terminal as int);
                    lemma_count_marked_bound(marks@.update(terminal as int, true));
                    lemma_live_terminal(graph, terminals, terminal as int);
                }
                marks.set(terminal, true);
                marked += 1;
            }
            i += 1;
        }
        let mut changed = true;
        while changed
            invariant
                graph == state_models(states@),
                terminals == index_models(terminal_states@),
                graph_wf(graph),
                count == states.len(),
                marks@.len() == count,
                marked == count_marked(marks@),
                forall|s: int| 0 <= s < count && marks@[s] ==> live(graph, terminals, s),
                forall|j: int| 0 <= j < terminals.len() ==> 0 <= #[trigger] terminals[j] < count,
                forall|j: int| 0 <= j < terminals.len() ==> marks@[#[trigger] terminals[j]],
                !changed ==> live_closed(graph, marks@),
            decreases 2 * (count - marked) + (if changed { 1int } else { 0int }),
        {
            proof {
                lemma_count_marked_bound(marks@);
            }
            changed = false;
            let ghost before = marks@;
            let mut u: usize = 0;
            while u < count
                invariant
                    graph == state_models(states@),
                    terminals == index_models(terminal_states@),
                    graph_wf(graph),
                    count == states.len(),
                    u <= count,
                    marks@.len() == count,
                    marked == count_marked(marks@),
                    before.len() == count,
                    count_marked(before) <= marked,
                    changed ==> count_marked(before) < marked,
                    forall|s: int| 0 <= s < count && marks@[s] ==> live(graph, terminals, s),
                    forall|j: int|
                        0 <= j < terminals.len() ==> 0 <= #[trigger] terminals[j] < count,
                    forall|j: int| 0 <= j < terminals.len() ==> marks@[#[trigger] terminals[j]],
                    !changed ==> marks@ == before,
                    !changed ==> forall|v: int, i: int|
                        0 <= v < u && 0 <= i < graph[v].len() && !((
                        #[trigger] graph[v][i]).condition is Epsilon)
                            && marks@[graph[v][i].next_state_id] ==> marks@[v],
                decreases count - u,
            {
                if !marks[u] {
                    let transitions = &states[u].transitions;
                    let mut found = false;
                    let ghost mut witness: int = 0;
                    let mut i: usize = 0;
                    while i < transitions.len()
                        invariant
                            graph == state_models(states@),
                            graph_wf(graph),
                            count == states.len(),
                            u < count,
                            marks@.len() == count,
                            transitions == &states@[u as int].transitions,
                            i <= transitions.len(),
                            found ==> 0 <= witness < graph[u as int].len() && !(
                            graph[u as int][witness].condition is Epsilon)
                                && marks@[graph[u as int][witness].next_state_id],
                            !found ==> forall|j: int|
                                0 <= j < i && !((#[trigger] graph[u as int][j]).condition is Epsilon)
                                    ==> !marks@[graph[u as int][j].next_state_id],
                        decreases transitions.len() - i,
                    {
                        proof {
                            assert(graph[u as int][i as int] == transitions@[i as int]@);
                            assert(0 <= graph[u as int][i as int].next_state_id < count);
                        }
                        if !found && !transitions[i].condition.is_epsilon()
                            && marks[transitions[i].next_state_id] {
                            found = true;
                            proof {
                                witness = i as int;
                            }
                        }
                        i += 1;
                    }
                    assert(graph[u as int].len() == transitions@.len());
                    if found {
                        proof {
                            let next = graph[u as int][witness].next_state_id;
                            assert(reading_step(graph, u as int, next));
                            lemma_live_step(graph, terminals, u as int, next);
                            lemma_count_marked_set(marks@, u as int);
                            lemma_count_marked_bound(marks@.update(u as int, true));
                        }
                        marks.set(u, true);
                        marked += 1;
                        changed = true;
                    }
                }
                u += 1;
            }
            proof {
                lemma_count_marked_bound(marks@);
            }
        }
        proof {
            assert forall|s: int| 0 <= s < count && live(graph, terminals, s) implies marks@[s] by {
                let steps = choose|steps: nat| live_in(graph, terminals, s, steps);
                assert forall|t: int| 0 <= t < count && terminals.contains(t) implies marks@[t] by {
                    let j = choose|j: int| 0 <= j < terminals.len() && terminals[j] == t;
                    assert(marks@[terminals[j]]);
                }
                lemma_live_closed_holds(graph, terminals, marks@, s, steps);
            }
        }
        marks
    }

    /// The transitions of the list that lead to live states, under the new
    /// indices of those states.
    fn renumber_transitions(
        list: &Vec<Transition>,
        marks: &Vec<bool>,
        ranks: &Vec<usize>,
        Ghost(graph): Ghost<Graph>,
        Ghost(terminals): Ghost<Seq<int>>,
    ) -> (kept: Vec<Transition>)
        requires
            marks@.len() == graph.len(),
            ranks@.len() == graph.len(),
            forall|s: int| 0 <= s < graph.len() ==> (#[trigger] marks@[s] <==> live(graph, terminals, s)),
            forall|s: int|
                0 <= s < graph.len() ==> #[trigger] ranks@[s] == live_rank(graph, terminals, s),
            forall|i: int| 0 <= i < list@.len() ==> (#[trigger] list@[i]).next_state_id < graph.len(),
        ensures
            transition_models(kept@) == renumbered(transition_models(list@), graph, terminals),
    {
        let ghost models = transition_models(list@);
        let mut kept: Vec<Transition> = Vec::new();
        let mut i: usize = 0;
        assert(models.subrange(0, 0) =~= Seq::<TransitionModel>::empty());
        assert(transition_models(kept@) =~= Seq::<TransitionModel>::empty());
        while i < list.len()
            invariant
                i <= list.len(),
                models == transition_models(list@),
                marks@.len() == graph.len(),
                ranks@.len() == graph.len(),
                forall|s: int|
                    0 <= s < graph.len() ==> (#[trigger] marks@[s] <==> live(graph, terminals, s)),
                forall|s: int|
                    0 <= s < graph.len() ==> #[trigger] ranks@[s] == live_rank(graph, terminals, s),
                forall|i: int|
                    0 <= i < list@.len() ==> (#[trigger] list@[i]).next_state_id < graph.len(),
                transition_models(kept@) == renumbered(
                    models.subrange(0, i as int),
                    graph,
                    terminals,
                ),
            decreases list.len() - i,
        {
            proof {
                assert(models.subrange(0, i + 1).drop_last() =~= models.subrange(0, i as int));
                assert(models.subrange(0, i + 1).last() == list@[i as int]@);
            }
            let next = list[i].next_state_id;
            if marks[next] {
                let transition = Transition::new(ranks[next], list[i].condition.duplicate());
                proof {
                    assert(transition_models(kept@.push(transition)) =~= transition_models(
                        kept@,
                    ).push(transition@));
                }
                kept.push(transition);
            }
            i += 1;
        }
        assert(models.subrange(0, i as int) =~= models);
        kept
    }

    /// The states of the list that are live, under their new indices.
    fn renumber_indices(
        list: &Vec<usize>,
        marks: &Vec<bool>,
        ranks: &Vec<usize>,
        Ghost(graph): Ghost<Graph>,
        Ghost(terminals): Ghost<Seq<int>>,
    ) -> (kept: Vec<usize>)
        requires
            marks@.len() == graph.len(),
            ranks@.len() == graph.len(),
            forall|s: int| 0 <= s < graph.len() ==> (#[trigger] marks@[s] <==> live(graph, terminals, s)),
            forall|s: int|
                0 <= s < graph.len() ==> #[trigger] ranks@[s] == live_rank(graph, terminals, s),
            forall|i: int| 0 <= i < list@.len() ==> #[trigger] list@[i] < graph.len(),
        ensures
            index_models(kept@) == renumbered_indices(index_models(list@), graph, terminals),
    {
        let ghost models = index_models(list@);
        let mut kept: Vec<usize> = Vec::new();
        let mut i: usize = 0;
        assert(models.subrange(0, 0) =~= Seq::<int>::empty());
        assert(index_models(kept@) =~= Seq::<int>::empty());
        while i < list.len()
            invariant
                i <= list.len(),
                models == index_models(list@),
                marks@.len() == graph.len(),
                ranks@.len() == graph.len(),
                forall|s: int|
                    0 <= s < graph.len() ==> (#[trigger] marks@[s] <==> live(graph, terminals, s)),
                forall|s: int|
                    0 <= s < graph.len() ==> #[trigger] ranks@[s] == live_rank(graph, terminals, s),
                forall|i: int| 0 <= i < list@.len() ==> #[trigger] list@[i] < graph.len(),
                index_models(kept@) == renumbered_indices(
                    models.subrange(0, i as int),
                    graph,
                    terminals,
                ),
            decreases list.len() - i,
        {
            proof {
                assert(models.subrange(0, i + 1).drop_last() =~= models.subrange(0, i as int));
                assert(models.subrange(0, i + 1).last() == list@[i as int] as int);
            }
            let state = list[i];
            if marks[state] {
                proof {
                    assert(index_models(kept@.push(ranks@[state as int])) =~= index_models(
                        kept@,
                    ).push(ranks@[state as int] as int));
                }
                kept.push(ranks[state]);
            }
            i += 1;
        }
        assert(models.subrange(0, i as int) =~= models);
        kept
    }

    /// The automaton without its dead states: the states, the start states
    /// and the terminal states that are left, numbered anew.
    pub(crate) fn remove_dead_states(
        states: &Vec<State>,
        start_states: &Vec<usize>,
        terminal_states: &Vec<usize>,
    ) -> (result: (Vec<State>, Vec<usize>, Vec<usize>))
        requires
            graph_wf(state_models(states@)),
            forall|i: int| 0 <= i < start_states@.len() ==> start_states@[i] < states@.len(),
            forall|i: int| 0 <= i < terminal_states@.len() ==> terminal_states@[i] < states@.len(),
        ensures
            ids_dense(result.0@),
            ({
                let reduced = spec_remove_dead(
                    NfaModel {
                        states: state_models(states@),
                        start_states: index_models(start_states@),
                        terminal_states: index_models(terminal_states@),
                        prefix: Seq::empty(),
                    },
                );
                &&& state_models(result.0@) == reduced.states
                &&& index_models(result.1@) == reduced.start_states
                &&& index_models(result.2@) == reduced.terminal_states
            }),
    {
        let ghost graph = state_models(states@);
        let ghost terminals = index_models(terminal_states@);
        let count = states.len();
        let marks = Self::live_marks(states, terminal_states);
        // The new index of each state: the number of live states before it.
        let mut ranks: Vec<usize> = Vec::new();
        let mut kept: usize = 0;
        let mut s: usize = 0;
        while s < count
            invariant
                s <= count,
                count == states.len(),
                marks@.len() == count,
                forall|t: int|
                    0 <= t < count ==> (#[trigger] marks@[t] <==> live(graph, terminals, t)),
                ranks@.len() == s,
                kept == live_rank(graph, terminals, s as int),
                kept <= s,
                forall|t: int| 0 <= t < s ==> #[trigger] ranks@[t] == live_rank(graph, terminals, t),
            decreases count - s,
        {
            ranks.push(kept);
            if marks[s] {
                kept += 1;
            }
            s += 1;
        }
        let mut new_states: Vec<State> = Vec::new();
        let mut s: usize = 0;
        while s < count
            invariant
                s <= count,
                count == states.len(),
                graph == state_models(states@),
                graph_wf(graph),
                marks@.len() == count,
                ranks@.len() == count,
                forall|t: int|
                    0 <= t < count ==> (#[trigger] marks@[t] <==> live(graph, terminals, t)),
                forall|t: int|
                    0 <= t < count ==> #[trigger] ranks@[t] == live_rank(graph, terminals, t),
                ids_dense(new_states@),
                new_states@.len() == live_below(graph, terminals, s as nat).len(),
                forall|k: int|
                    0 <= k < new_states@.len() ==> (#[trigger] new_states@[k])@ == renumbered(
                        graph[live_below(graph, terminals, s as nat)[k]],
                        graph,
                        terminals,
                    ),
            decreases count - s,
        {
            proof {
                lemma_live_below(graph, terminals, s as nat);
            }
            if marks[s] {
                proof {
                    assert forall|i: int| 0 <= i < states@[s as int].transitions@.len() implies (
                    #[trigger] states@[s as int].transitions@[i]).next_state_id < graph.len() by {
                        assert(graph[s as int][i] == states@[s as int].transitions@[i]@);
                    }
                }
                let transitions = Self::renumber_transitions(
                    &states[s].transitions,
                    &marks,
                    &ranks,
                    Ghost(graph),
                    Ghost(terminals),
                );
                let id = new_states.len();
                new_states.push(State { id, transitions });
            }
            s += 1;
        }
        let new_start_states = Self::renumber_indices(
            start_states,
            &marks,
            &ranks,
            Ghost(graph),
            Ghost(terminals),
        );
        let new_terminal_states = Self::renumber_indices(
            terminal_states,
            &marks,
            &ranks,
            Ghost(graph),
            Ghost(terminals),
        );
        proof {
            let kept_states = live_states(graph, terminals);
            assert(state_models(new_states@) =~= Seq::new(
                kept_states.len(),
                |k: int| renumbered(graph[kept_states[k]], graph, terminals),
            ));
        }
        (new_states, new_start_states, new_terminal_states)
    }
}

// -------------------------------------------------------- literal prefix

impl Automata {
    /// The scalar that `state` reads on its one transition, where it has one
    /// transition and that reads a fixed scalar.
    fn single_literal_of(states: &Vec<State>, state: usize) -> (found: Option<(char, usize)>)
        ensures
            match found {
                Some((c, next)) => single_literal(state_models(states@), state as int)
                    && state_models(states@)[state as int][0] == arc(
                    next as int,
                    ConditionModel::Literal(c),
                ),
                None => !single_literal(state_models(states@), state as int),
            },
    {
        if state >= states.len() {
            return None;
        }
        let transitions = &states[state].transitions;
        if transitions.len() != 1 {
            assert(state_models(states@)[state as int].len() == transitions@.len());
            return None;
        }
        assert(state_models(states@)[state as int][0] == transitions@[0]@);
        match &transitions[0].condition {
            TransitionCondition::Literal(c) => Some((*c, transitions[0].next_state_id)),
            _ => None,
        }
    }

    /// Moves the fixed scalars that the automaton starts with into the
    /// prefix, and gives the start states and the prefix that result.
    pub(crate) fn extract_prefix(
        states: &Vec<State>,
        start_states: Vec<usize>,
        terminal_states: &Vec<usize>,
        prefix: Vec<char>,
    ) -> (result: (Vec<usize>, Vec<char>))
        ensures
            ({
                let before = NfaModel {
                    states: state_models(states@),
                    start_states: index_models(start_states@),
                    terminal_states: index_models(terminal_states@),
                    prefix: prefix@,
                };
                let after = spec_extract_prefix(before, states@.len() as nat);
                &&& index_models(result.0@) == after.start_states
                &&& result.1@ == after.prefix
                &&& after.states == before.states
                &&& after.terminal_states == before.terminal_states
            }),
    {
        let ghost graph = state_models(states@);
        let ghost terminals = index_models(terminal_states@);
        let ghost before = NfaModel {
            states: graph,
            start_states: index_models(start_states@),
            terminal_states: terminals,
            prefix: prefix@,
        };
        let mut start_states = start_states;
        let mut prefix = prefix;
        let mut rounds: usize = states.len();
        loop
            invariant
                graph == state_models(states@),
                terminals == index_models(terminal_states@),
                rounds <= states.len(),
                ({
                    let now = NfaModel {
                        states: graph,
                        start_states: index_models(start_states@),
                        terminal_states: terminals,
                        prefix: prefix@,
                    };
                    let after = spec_extract_prefix(before, states@.len() as nat);
                    &&& after == spec_extract_prefix(now, rounds as nat)
                }),
            ensures
                ({
                    let now = NfaModel {
                        states: graph,
                        start_states: index_models(start_states@),
                        terminal_states: terminals,
                        prefix: prefix@,
                    };
                    spec_extract_prefix(before, states@.len() as nat) == now
                }),
            decreases rounds,
        {
            let ghost now = NfaModel {
                states: graph,
                start_states: index_models(start_states@),
                terminal_states: terminals,
                prefix: prefix@,
            };
            if rounds == 0 || start_states.len() != 1 {
                break ;
            }
            let start = start_states[0];
            assert(now.start_states[0] == start as int);
            let (c, next) = match Self::single_literal_of(states, start) {
                Some(found) => found,
                None => {
                    break ;
                },
            };
            if contains_index(terminal_states, start) {
                break ;
            }
            if Self::single_literal_of(states, next).is_none() {
                break ;
            }
            assert(can_peel(now));
            let mut new_start_states: Vec<usize> = Vec::new();
            new_start_states.push(next);
            let ghost longer = prefix@.push(c);
            prefix.push(c);
            start_states = new_start_states;
            rounds -= 1;
            proof {
                assert(index_models(start_states@) =~= seq![next as int]);
                assert(prefix@ == longer);
                assert(peel(now) == NfaModel {
                    states: graph,
                    start_states: index_models(start_states@),
                    terminal_states: terminals,
                    prefix: prefix@,
                });
            }
        }
        (start_states, prefix)
    }
}

} // verus!
