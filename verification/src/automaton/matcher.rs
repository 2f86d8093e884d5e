//! One step of a matcher, with the scratch space that tells in one
//! comparison whether a state is already active next.

use vstd::prelude::*;

use crate::automata::language::{char_step, read_from_any, read_run, starts_with};
use crate::automata::model::{graph_wf, Graph};
use crate::automata::simplify::{
    count_marked, lemma_count_marked_bound, lemma_count_marked_set, no_marks,
};
use crate::automata::{state_models, State};
use crate::text::char_at;

verus! {

/// Whether `state` is among the first `count` states of the list.
pub open spec fn listed(list: Seq<usize>, count: int, state: int) -> bool {
    exists|b: int| 0 <= b < count && #[trigger] list[b] == state
}

/// Whether no state occurs twice among the first `count` states of the list.
pub open spec fn listed_once(list: Seq<usize>, count: int) -> bool {
    forall|a: int, b: int| 0 <= a < b < count ==> list[a] != list[b]
}

/// Whether a transition that may be taken on reading `c` leads to `state`
/// from one of the first `count` states of the list.
pub open spec fn stepped_from(graph: Graph, list: Seq<usize>, count: int, c: char, state: int) -> bool {
    exists|a: int| 0 <= a < count && #[trigger] char_step(graph, list[a] as int, c, state)
}

/// Whether the first `count` states of the list are the states that are
/// active once `consumed` was read: those that reading `consumed` leads to
/// from a start state.
pub open spec fn holds_active(
    list: Seq<usize>,
    count: int,
    graph: Graph,
    starts: Seq<int>,
    consumed: Seq<char>,
) -> bool {
    &&& 0 <= count <= list.len()
    &&& forall|a: int|
        0 <= a < count ==> #[trigger] list[a] < graph.len() && read_from_any(
            graph,
            starts,
            consumed,
            list[a] as int,
        )
    &&& forall|state: int| #[trigger]
        read_from_any(graph, starts, consumed, state) ==> listed(list, count, state)
}

/// The states that are active once one more scalar was read are those that
/// a transition for that scalar leads to from a state that was active.
pub proof fn lemma_advance_active(
    graph: Graph,
    starts: Seq<int>,
    consumed: Seq<char>,
    c: char,
    from: Seq<usize>,
    from_count: int,
    to: Seq<usize>,
    to_count: int,
)
    requires
        holds_active(from, from_count, graph, starts, consumed),
        0 <= to_count <= to.len(),
        forall|b: int|
            0 <= b < to_count ==> #[trigger] to[b] < graph.len() && stepped_from(
                graph,
                from,
                from_count,
                c,
                to[b] as int,
            ),
        forall|state: int| #[trigger]
            stepped_from(graph, from, from_count, c, state) ==> listed(to, to_count, state),
    ensures
        holds_active(to, to_count, graph, starts, consumed.push(c)),
{
    let longer = consumed.push(c);
    assert(longer.drop_last() =~= consumed);
    assert(longer.last() == c);
    assert forall|b: int| 0 <= b < to_count implies #[trigger] to[b] < graph.len()
        && read_from_any(graph, starts, longer, to[b] as int) by {
        let a = choose|a: int|
            0 <= a < from_count && #[trigger] char_step(graph, from[a] as int, c, to[b] as int);
        assert(read_from_any(graph, starts, consumed, from[a] as int));
        let i = choose|i: int|
            0 <= i < starts.len() && read_run(graph, #[trigger] starts[i], consumed, from[a] as int);
        assert(read_run(graph, starts[i], longer, to[b] as int));
    }
    assert forall|state: int| #[trigger]
        read_from_any(graph, starts, longer, state) implies listed(to, to_count, state) by {
        let i = choose|i: int|
            0 <= i < starts.len() && read_run(graph, #[trigger] starts[i], longer, state);
        let mid = choose|mid: int|
            read_run(graph, starts[i], longer.drop_last(), mid) && #[trigger] char_step(
                graph,
                mid,
                longer.last(),
                state,
            );
        assert(read_from_any(graph, starts, consumed, mid));
        let a = choose|a: int| 0 <= a < from_count && #[trigger] from[a] == mid;
        assert(char_step(graph, from[a] as int, c, state));
        assert(stepped_from(graph, from, from_count, c, state));
    }
}

/// Reading an input leads through a state for each of its beginnings.
pub proof fn lemma_read_run_prefix(graph: Graph, from: int, input: Seq<char>, to: int, k: int)
    requires
        read_run(graph, from, input, to),
        0 <= k <= input.len(),
    ensures
        exists|mid: int| read_run(graph, from, input.subrange(0, k), mid),
    decreases input.len(),
{
    if k == input.len() {
        assert(input.subrange(0, k) =~= input);
    } else {
        let mid = choose|mid: int|
            read_run(graph, from, input.drop_last(), mid) && #[trigger] char_step(
                graph,
                mid,
                input.last(),
                to,
            );
        lemma_read_run_prefix(graph, from, input.drop_last(), mid, k);
        assert(input.drop_last().subrange(0, k) =~= input.subrange(0, k));
    }
}

/// What a matcher keeps to tell in one step whether a state is among the
/// states active next: for each state the number of the step in which it
/// last joined them, and the number of the current step.
pub struct ScratchSpace {
    pub did_add_state: Vec<usize>,
    pub did_add_state_value: usize,
}

impl ScratchSpace {
    /// Whether there is a place for each of `count` states, and no state has
    /// joined in a step later than the current one.
    pub open spec fn ready(&self, count: nat) -> bool {
        self.did_add_state@.len() == count && forall|x: int|
            0 <= x < count ==> #[trigger] self.did_add_state@[x] <= self.did_add_state_value
    }

    /// The scratch space for `count` states before the first step.
    pub fn new(count: usize) -> (scratch: ScratchSpace)
        ensures
            scratch.ready(count as nat),
            scratch.did_add_state_value == 0,
    {
        let mut did_add_state: Vec<usize> = Vec::new();
        while did_add_state.len() < count
            invariant
                did_add_state@.len() <= count,
                forall|x: int| 0 <= x < did_add_state@.len() ==> did_add_state@[x] == 0,
            decreases count - did_add_state.len(),
        {
            did_add_state.push(0);
        }
        ScratchSpace { did_add_state, did_add_state_value: 0 }
    }
}

/// One step of a matcher: fills `to` with the states that a transition for
/// the scalar `next` leads to from the first `from_count` states of `from`,
/// each once, and gives their number.
pub fn advance_from(
    states: &Vec<State>,
    from: &Vec<usize>,
    from_count: usize,
    next: char,
    to: &mut Vec<usize>,
    scratch: &mut ScratchSpace,
) -> (to_count: usize)
    requires
        graph_wf(state_models(states@)),
        from@.len() == states@.len(),
        old(to)@.len() == states@.len(),
        old(scratch).ready(states@.len()),
        old(scratch).did_add_state_value < usize::MAX,
        from_count <= from@.len(),
        forall|a: int| 0 <= a < from_count ==> #[trigger] from@[a] < states@.len(),
    ensures
        final(to)@.len() == states@.len(),
        final(scratch).ready(states@.len()),
        final(scratch).did_add_state_value == old(scratch).did_add_state_value + 1,
        to_count <= states@.len(),
        listed_once(final(to)@, to_count as int),
        forall|b: int|
            0 <= b < to_count ==> #[trigger] final(to)@[b] < states@.len() && stepped_from(
                state_models(states@),
                from@,
                from_count as int,
                next,
                final(to)@[b] as int,
            ),
        forall|state: int| #[trigger]
            stepped_from(state_models(states@), from@, from_count as int, next, state) ==> listed(
                final(to)@,
                to_count as int,
                state,
            ),
{
    let ghost graph = state_models(states@);
    let count = states.len();
    scratch.did_add_state_value += 1;
    let generation = scratch.did_add_state_value;
    let ghost mut marks: Seq<bool> = Seq::new(count as nat, |x: int| false);
    proof {
        lemma_no_marks(count as nat);
        assert(marks =~= no_marks_model(count as nat));
    }
    let mut to_count: usize = 0;
    let mut a: usize = 0;
    while a < from_count
        invariant
            graph == state_models(states@),
            graph_wf(graph),
            count == states@.len(),
            from@.len() == count,
            to@.len() == count,
            from_count <= count,
            a <= from_count,
            forall|a: int| 0 <= a < from_count ==> #[trigger] from@[a] < count,
            scratch.did_add_state_value == generation,
            scratch.ready(count as nat),
            marks.len() == count,
            forall|x: int|
                0 <= x < count ==> #[trigger] marks[x] == (scratch.did_add_state@[x] == generation),
            to_count == count_marked(marks),
            to_count <= count,
            listed_once(to@, to_count as int),
            forall|b: int|
                0 <= b < to_count ==> #[trigger] to@[b] < count && marks[to@[b] as int]
                    && stepped_from(graph, from@, from_count as int, next, to@[b] as int),
            forall|x: int| 0 <= x < count && #[trigger] marks[x] ==> listed(to@, to_count as int, x),
            forall|earlier: int, x: int|
                0 <= earlier < a && #[trigger] char_step(graph, from@[earlier] as int, next, x)
                    ==> 0 <= x < count && marks[x],
        decreases from_count - a,
    {
        let state = from[a];
        let transitions = &states[state].transitions;
        let mut j: usize = 0;
        while j < transitions.len()
            invariant
                graph == state_models(states@),
                graph_wf(graph),
                count == states@.len(),
                from@.len() == count,
                to@.len() == count,
                from_count <= count,
                a < from_count,
                state == from@[a as int],
                state < count,
                transitions == &states@[state as int].transitions,
                j <= transitions.len(),
                forall|a: int| 0 <= a < from_count ==> #[trigger] from@[a] < count,
                scratch.did_add_state_value == generation,
                scratch.ready(count as nat),
                marks.len() == count,
                forall|x: int|
                    0 <= x < count ==> #[trigger] marks[x] == (scratch.did_add_state@[x]
                        == generation),
                to_count == count_marked(marks),
                to_count <= count,
                listed_once(to@, to_count as int),
                forall|b: int|
                    0 <= b < to_count ==> #[trigger] to@[b] < count && marks[to@[b] as int]
                        && stepped_from(graph, from@, from_count as int, next, to@[b] as int),
                forall|x: int|
                    0 <= x < count && #[trigger] marks[x] ==> listed(to@, to_count as int, x),
                forall|earlier: int, x: int|
                    0 <= earlier < a && #[trigger] char_step(graph, from@[earlier] as int, next, x)
                        ==> 0 <= x < count && marks[x],
                forall|i: int|
                    0 <= i < j && (#[trigger] graph[state as int][i]).condition.accepts(next)
                        ==> marks[graph[state as int][i].next_state_id],
            decreases transitions.len() - j,
        {
            let transition = &transitions[j];
            let target = transition.next_state_id;
            proof {
                assert(graph[state as int][j as int] == transition@);
                assert(0 <= graph[state as int][j as int].next_state_id < count);
            }
            if scratch.did_add_state[target] != generation && transition.condition.accepts(next) {
                proof {
                    lemma_count_marked_set(marks, target as int);
                    lemma_count_marked_bound(marks.update(target as int, true));
                    assert(char_step(graph, from@[a as int] as int, next, target as int));
                    assert(stepped_from(graph, from@, from_count as int, next, target as int));
                }
                let ghost before = to@;
                let ghost before_count = to_count;
                scratch.did_add_state.set(target, generation);
                to.set(to_count, target);
                to_count += 1;
                proof {
                    let earlier = marks;
                    assert forall|a: int, b: int| 0 <= a < b < to_count implies to@[a]
                        != to@[b] by {
                        assert(to@[a] == before[a]);
                        if b < before_count {
                            assert(to@[b] == before[b]);
                        } else {
                            assert(earlier[before[a] as int]);
                        }
                    }
                    marks = marks.update(target as int, true);
                    assert forall|x: int| 0 <= x < count && #[trigger] marks[x] implies listed(
                        to@,
                        to_count as int,
                        x,
                    ) by {
                        if x == target {
                            assert(to@[before_count as int] == x);
                        } else {
                            assert(earlier[x]);
                            let b = choose|b: int|
                                0 <= b < before_count && #[trigger] before[b] == x;
                            assert(to@[b] == x);
                        }
                    }
                    assert forall|b: int| 0 <= b < to_count implies #[trigger] to@[b] < count
                        && marks[to@[b] as int] && stepped_from(
                        graph,
                        from@,
                        from_count as int,
                        next,
                        to@[b] as int,
                    ) by {
                        if b < before_count {
                            assert(to@[b] == before[b]);
                            assert(earlier[before[b] as int]);
                        }
                    }
                }
            }
            j += 1;
        }
        proof {
            assert(graph[state as int].len() == transitions@.len());
            assert forall|x: int| #[trigger]
                char_step(graph, from@[a as int] as int, next, x) implies 0 <= x < count
                && marks[x] by {
                let i = choose|i: int|
                    0 <= i < graph[state as int].len() && (
                    #[trigger] graph[state as int][i]).next_state_id == x
                        && graph[state as int][i].condition.accepts(next);
                assert(0 <= graph[state as int][i].next_state_id < count);
            }
        }
        a += 1;
    }
    proof {
        assert forall|x: int| #[trigger]
            stepped_from(graph, from@, from_count as int, next, x) implies listed(
            to@,
            to_count as int,
            x,
        ) by {
            let earlier = choose|earlier: int|
                0 <= earlier < from_count && #[trigger] char_step(
                    graph,
                    from@[earlier] as int,
                    next,
                    x,
                );
            assert(marks[x]);
        }
    }
    to_count
}

/// `count` marks, none of them set.
pub open spec fn no_marks_model(count: nat) -> Seq<bool> {
    Seq::new(count, |x: int| false)
}

/// No mark of `no_marks_model` is counted.
pub proof fn lemma_no_marks(count: nat)
    ensures
        count_marked(no_marks_model(count)) == 0,
    decreases count,
{
    if count > 0 {
        lemma_no_marks((count - 1) as nat);
        assert(no_marks_model(count).drop_last() =~= no_marks_model((count - 1) as nat));
    }
}

/// Whether `chars` starts with `prefix`.
pub fn has_prefix(chars: &Vec<char>, prefix: &Vec<char>) -> (has: bool)
    ensures
        has == starts_with(chars@, prefix@),
{
    if chars.len() < prefix.len() {
        return false;
    }
    let mut i: usize = 0;
    while i < prefix.len()
        invariant
            prefix.len() <= chars.len(),
            i <= prefix.len(),
            forall|j: int| 0 <= j < i ==> chars@[j] == prefix@[j],
        decreases prefix.len() - i,
    {
        if char_at(chars, i) != char_at(prefix, i) {
            assert(chars@.subrange(0, prefix@.len() as int)[i as int] != prefix@[i as int]);
            return false;
        }
        i += 1;
    }
    assert(chars@.subrange(0, prefix@.len() as int) =~= prefix@);
    true
}

} // verus!
