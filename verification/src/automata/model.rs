//! The mathematical value of an automaton, and the automaton that is built
//! for a syntax tree.

use vstd::prelude::*;

use crate::automata::{ConditionModel, TransitionModel};
use crate::parser::AstModel;

verus! {

/// The states of an automaton as a graph: for each state, the transitions
/// that leave it.
pub type Graph = Seq<Seq<TransitionModel>>;

/// Mathematical value of an automaton.
pub struct NfaModel {
    pub states: Graph,
    pub start_states: Seq<int>,
    pub terminal_states: Seq<int>,
    pub prefix: Seq<char>,
}

/// Whether every transition of the graph leads to one of its states.
pub open spec fn graph_wf(graph: Graph) -> bool {
    forall|s: int, i: int|
        0 <= s < graph.len() && 0 <= i < graph[s].len() ==> 0 <= (
        #[trigger] graph[s][i]).next_state_id < graph.len()
}

/// Whether every index of the list names a state of the graph.
pub open spec fn indices_in(indices: Seq<int>, graph: Graph) -> bool {
    forall|i: int| 0 <= i < indices.len() ==> 0 <= #[trigger] indices[i] < graph.len()
}

impl NfaModel {
    /// Whether transitions, start states and terminal states all name states
    /// of the automaton.
    pub open spec fn wf(self) -> bool {
        &&& graph_wf(self.states)
        &&& indices_in(self.start_states, self.states)
        &&& indices_in(self.terminal_states, self.states)
    }
}

/// A transition to `next` under `condition`.
pub open spec fn arc(next: int, condition: ConditionModel) -> TransitionModel {
    TransitionModel { next_state_id: next, condition }
}

/// The condition under which the automaton of a leaf of the syntax tree
/// reads its one scalar.
pub open spec fn leaf_condition(entry: AstModel) -> ConditionModel {
    match entry {
        AstModel::AnyCharacter => ConditionModel::AnyCharacter,
        AstModel::UnicodeCharacterClass(categories) => ConditionModel::UnicodeCharacterClass(
            categories,
        ),
        AstModel::NegatedUnicodeCharacterClass(categories) => ConditionModel::NegatedUnicodeClass(
            categories,
        ),
        AstModel::NonUnicodeCharacterClass(class) => ConditionModel::CharacterClass(class),
        AstModel::Literal(c) => ConditionModel::Literal(c),
        _ => ConditionModel::Epsilon,
    }
}

/// The least number of copies that a repetition asks for.
pub open spec fn least_count(min: Option<u64>) -> nat {
    match min {
        Some(count) => count as nat,
        None => 0,
    }
}

/// Whether no bounded repetition in the tree has a maximum below its
/// minimum.
pub open spec fn bounds_ordered(entry: AstModel) -> bool
    decreases entry,
{
    match entry {
        AstModel::Concatenation(members) => forall|i: int|
            0 <= i < members.len() ==> bounds_ordered(#[trigger] members[i]),
        AstModel::Alternation(members) => forall|i: int|
            0 <= i < members.len() ==> bounds_ordered(#[trigger] members[i]),
        AstModel::Repetition { base, min, max } => bounds_ordered(*base) && (max matches Some(most)
            ==> least_count(min) <= most),
        _ => true,
    }
}

/// The graph with the automaton of `entry` added behind its states, and the
/// state at which that automaton is entered. Having read what `entry`
/// describes, the added automaton is in state `target`.
pub open spec fn spec_add(graph: Graph, entry: AstModel, target: int) -> (Graph, int)
    decreases entry, 0nat, 0nat,
{
    match entry {
        AstModel::Concatenation(members) => spec_chain(graph, members, target),
        AstModel::Alternation(members) => {
            let (built, entries) = spec_branches(graph, members, target);
            (built.push(Seq::new(entries.len(), |i: int| arc(entries[i], ConditionModel::Epsilon))), built.len() as int)
        },
        AstModel::Repetition { base, min, max: Some(most) } => {
            let (optional, after) = spec_optional(
                graph,
                *base,
                (most - least_count(min)) as nat,
                target,
            );
            spec_exact(optional, *base, least_count(min), after)
        },
        AstModel::Repetition { base, min, max: None } => {
            let trampoline = graph.len() as int;
            let opened = graph.push(seq![arc(target, ConditionModel::Epsilon)]);
            let (looped, loop_start) = spec_add(opened, *base, trampoline);
            let closed = looped.update(
                trampoline,
                looped[trampoline].push(arc(loop_start, ConditionModel::Epsilon)),
            );
            spec_exact(closed, *base, least_count(min), trampoline)
        },
        _ => (graph.push(seq![arc(target, leaf_condition(entry))]), graph.len() as int),
    }
}

/// The automata of `members` added from the last to the first, each leading
/// into the one added before it and the last into `target`.
pub open spec fn spec_chain(graph: Graph, members: Seq<AstModel>, target: int) -> (Graph, int)
    decreases members, 0nat, 0nat,
{
    if members.len() == 0 {
        (graph, target)
    } else {
        let (built, entry) = spec_add(graph, members.last(), target);
        spec_chain(built, members.drop_last(), entry)
    }
}

/// The automata of `members` added from the first to the last, each leading
/// to `target`, with the states at which they are entered.
pub open spec fn spec_branches(graph: Graph, members: Seq<AstModel>, target: int) -> (
    Graph,
    Seq<int>,
)
    decreases members, 0nat, 0nat,
{
    if members.len() == 0 {
        (graph, Seq::empty())
    } else {
        let (front, entries) = spec_branches(graph, members.drop_last(), target);
        let (built, entry) = spec_add(front, members.last(), target);
        (built, entries.push(entry))
    }
}

/// `count` copies of the automaton of `base` in a row, the last leading to
/// `target`.
pub open spec fn spec_exact(graph: Graph, base: AstModel, count: nat, target: int) -> (Graph, int)
    decreases base, 1nat, count,
{
    if count == 0 {
        (graph, target)
    } else {
        let (built, entry) = spec_exact(graph, base, (count - 1) as nat, target);
        spec_add(built, base, entry)
    }
}

/// `count` copies of the automaton of `base` in a row, each entered through
/// a state from which `target` is also reached at once.
pub open spec fn spec_optional(graph: Graph, base: AstModel, count: nat, target: int) -> (
    Graph,
    int,
)
    decreases base, 1nat, count,
{
    if count == 0 {
        (graph, target)
    } else {
        let (built, after) = spec_optional(graph, base, (count - 1) as nat, target);
        let (copied, start) = spec_add(built, base, after);
        (
            copied.push(
                seq![arc(start, ConditionModel::Epsilon), arc(target, ConditionModel::Epsilon)],
            ),
            copied.len() as int,
        )
    }
}

/// The automaton of a syntax tree: state 0 is the one terminal state, and
/// the automaton of the tree leads to it.
pub open spec fn spec_from_regex(entry: AstModel) -> NfaModel {
    let (graph, start) = spec_add(seq![Seq::empty()], entry, 0);
    NfaModel { states: graph, start_states: seq![start], terminal_states: seq![0int], prefix: Seq::empty() }
}

/// The number of states that the automaton of `entry` has.
pub open spec fn added_states(entry: AstModel) -> nat
    decreases entry, 0nat,
{
    match entry {
        AstModel::Concatenation(members) => added_by_all(members),
        AstModel::Alternation(members) => added_by_all(members) + 1,
        AstModel::Repetition { base, min, max: Some(most) } => ((most - least_count(min)) as nat) * (
        added_states(*base) + 1) + least_count(min) * added_states(*base),
        AstModel::Repetition { base, min, max: None } => 1 + added_states(*base) + least_count(min)
            * added_states(*base),
        _ => 1,
    }
}

/// The number of states that the automata of `members` have together.
pub open spec fn added_by_all(members: Seq<AstModel>) -> nat
    decreases members, 0nat,
{
    if members.len() == 0 {
        0
    } else {
        added_by_all(members.drop_last()) + added_states(members.last())
    }
}

/// Whether `longer` holds the states of `graph` unchanged and in place.
pub open spec fn extends(longer: Graph, graph: Graph) -> bool {
    graph.len() <= longer.len() && forall|i: int| 0 <= i < graph.len() ==> longer[i] == graph[i]
}

/// Adding the automaton of a tree leaves the states before it as they were
/// and adds as many states as the tree asks for.
pub proof fn lemma_add_extends(graph: Graph, entry: AstModel, target: int)
    ensures
        extends(spec_add(graph, entry, target).0, graph),
        spec_add(graph, entry, target).0.len() == graph.len() + added_states(entry),
    decreases entry, 0nat, 0nat,
{
    match entry {
        AstModel::Concatenation(members) => {
            lemma_chain_extends(graph, members, target);
        },
        AstModel::Alternation(members) => {
            lemma_branches_extends(graph, members, target);
        },
        AstModel::Repetition { base, min, max: Some(most) } => {
            let count = (most - least_count(min)) as nat;
            lemma_optional_extends(graph, *base, count, target);
            let (optional, after) = spec_optional(graph, *base, count, target);
            lemma_exact_extends(optional, *base, least_count(min), after);
        },
        AstModel::Repetition { base, min, max: None } => {
            let trampoline = graph.len() as int;
            let opened = graph.push(seq![arc(target, ConditionModel::Epsilon)]);
            lemma_add_extends(opened, *base, trampoline);
            let (looped, loop_start) = spec_add(opened, *base, trampoline);
            let closed = looped.update(
                trampoline,
                looped[trampoline].push(arc(loop_start, ConditionModel::Epsilon)),
            );
            lemma_exact_extends(closed, *base, least_count(min), trampoline);
        },
        _ => {},
    }
}

/// The same for automata in a row.
pub proof fn lemma_chain_extends(graph: Graph, members: Seq<AstModel>, target: int)
    ensures
        extends(spec_chain(graph, members, target).0, graph),
        spec_chain(graph, members, target).0.len() == graph.len() + added_by_all(members),
    decreases members, 0nat, 0nat,
{
    if members.len() > 0 {
        lemma_add_extends(graph, members.last(), target);
        let (built, entry) = spec_add(graph, members.last(), target);
        lemma_chain_extends(built, members.drop_last(), entry);
    }
}

/// The same for the automata of the members of an alternation.
pub proof fn lemma_branches_extends(graph: Graph, members: Seq<AstModel>, target: int)
    ensures
        extends(spec_branches(graph, members, target).0, graph),
        spec_branches(graph, members, target).0.len() == graph.len() + added_by_all(members),
        spec_branches(graph, members, target).1.len() == members.len(),
    decreases members, 0nat, 0nat,
{
    if members.len() > 0 {
        lemma_branches_extends(graph, members.drop_last(), target);
        let (front, entries) = spec_branches(graph, members.drop_last(), target);
        lemma_add_extends(front, members.last(), target);
    }
}

/// The same for copies in a row.
pub proof fn lemma_exact_extends(graph: Graph, base: AstModel, count: nat, target: int)
    ensures
        extends(spec_exact(graph, base, count, target).0, graph),
        spec_exact(graph, base, count, target).0.len() == graph.len() + count * added_states(base),
    decreases base, 1nat, count,
{
    if count > 0 {
        lemma_exact_extends(graph, base, (count - 1) as nat, target);
        let (built, entry) = spec_exact(graph, base, (count - 1) as nat, target);
        lemma_add_extends(built, base, entry);
        assert(count * added_states(base) == (count - 1) * added_states(base) + added_states(base))
            by (nonlinear_arith);
    }
}

/// The same for copies in a row that can be left out.
pub proof fn lemma_optional_extends(graph: Graph, base: AstModel, count: nat, target: int)
    ensures
        extends(spec_optional(graph, base, count, target).0, graph),
        spec_optional(graph, base, count, target).0.len() == graph.len() + count * (added_states(
            base,
        ) + 1),
    decreases base, 1nat, count,
{
    if count > 0 {
        lemma_optional_extends(graph, base, (count - 1) as nat, target);
        let (built, after) = spec_optional(graph, base, (count - 1) as nat, target);
        lemma_add_extends(built, base, after);
        assert(count * (added_states(base) + 1) == (count - 1) * (added_states(base) + 1) + (
        added_states(base) + 1)) by (nonlinear_arith);
    }
}

/// The states of the members before `k` are among those of all members.
pub proof fn lemma_added_by_prefix(members: Seq<AstModel>, k: int)
    requires
        0 <= k <= members.len(),
    ensures
        added_by_all(members.subrange(0, k)) <= added_by_all(members),
    decreases members.len(),
{
    if k == members.len() {
        assert(members.subrange(0, k) =~= members);
    } else {
        assert(members.drop_last().subrange(0, k) =~= members.subrange(0, k));
        lemma_added_by_prefix(members.drop_last(), k);
    }
}

/// Whether `state` is one of the states `lo..hi` or is `target`.
pub open spec fn within(state: int, lo: int, hi: int, target: int) -> bool {
    lo <= state < hi || state == target
}

/// Whether every transition that leaves one of the states `lo..hi` leads to
/// one of them or to `target`.
pub open spec fn closed_range(graph: Graph, lo: int, hi: int, target: int) -> bool {
    forall|s: int, i: int|
        lo <= s < hi && 0 <= i < graph[s].len() ==> within(
            (#[trigger] graph[s][i]).next_state_id,
            lo,
            hi,
            target,
        )
}

/// The states added for a tree are entered at one of them (or at the target,
/// where none was added), and their transitions stay among them until they
/// reach the target.
pub proof fn lemma_add_shape(graph: Graph, entry: AstModel, target: int)
    requires
        0 <= target < graph.len(),
    ensures
        closed_range(
            spec_add(graph, entry, target).0,
            graph.len() as int,
            spec_add(graph, entry, target).0.len() as int,
            target,
        ),
        within(
            spec_add(graph, entry, target).1,
            graph.len() as int,
            spec_add(graph, entry, target).0.len() as int,
            target,
        ),
    decreases entry, 0nat, 0nat,
{
    let lo = graph.len() as int;
    lemma_add_extends(graph, entry, target);
    match entry {
        AstModel::Concatenation(members) => {
            lemma_chain_shape(graph, members, target);
        },
        AstModel::Alternation(members) => {
            lemma_branches_shape(graph, members, target);
            lemma_branches_extends(graph, members, target);
            let (built, entries) = spec_branches(graph, members, target);
            let result = spec_add(graph, entry, target).0;
            let hi = result.len() as int;
            assert forall|s: int, i: int| lo <= s < hi && 0 <= i < result[s].len() implies within(
                (#[trigger] result[s][i]).next_state_id,
                lo,
                hi,
                target,
            ) by {
                if s < built.len() {
                    assert(result[s] == built[s]);
                    assert(within(built[s][i].next_state_id, lo, built.len() as int, target));
                } else {
                    assert(within(entries[i], lo, built.len() as int, target));
                }
            }
        },
        AstModel::Repetition { base, min, max: Some(most) } => {
            let count = (most - least_count(min)) as nat;
            lemma_optional_shape(graph, *base, count, target);
            lemma_optional_extends(graph, *base, count, target);
            let (optional, after) = spec_optional(graph, *base, count, target);
            lemma_exact_shape(optional, *base, least_count(min), after);
            lemma_exact_extends(optional, *base, least_count(min), after);
            let result = spec_add(graph, entry, target).0;
            let hi = result.len() as int;
            let mid = optional.len() as int;
            assert forall|s: int, i: int| lo <= s < hi && 0 <= i < result[s].len() implies within(
                (#[trigger] result[s][i]).next_state_id,
                lo,
                hi,
                target,
            ) by {
                if s < mid {
                    assert(result[s] == optional[s]);
                    assert(within(optional[s][i].next_state_id, lo, mid, target));
                } else {
                    assert(within(result[s][i].next_state_id, mid, hi, after));
                }
            }
        },
        AstModel::Repetition { base, min, max: None } => {
            let trampoline = lo;
            let opened = graph.push(seq![arc(target, ConditionModel::Epsilon)]);
            lemma_add_shape(opened, *base, trampoline);
            lemma_add_extends(opened, *base, trampoline);
            let (looped, loop_start) = spec_add(opened, *base, trampoline);
            let closed = looped.update(
                trampoline,
                looped[trampoline].push(arc(loop_start, ConditionModel::Epsilon)),
            );
            lemma_exact_shape(closed, *base, least_count(min), trampoline);
            lemma_exact_extends(closed, *base, least_count(min), trampoline);
            let result = spec_add(graph, entry, target).0;
            let hi = result.len() as int;
            let mid = closed.len() as int;
            assert(looped[trampoline] == opened[trampoline]);
            assert forall|s: int, i: int| lo <= s < hi && 0 <= i < result[s].len() implies within(
                (#[trigger] result[s][i]).next_state_id,
                lo,
                hi,
                target,
            ) by {
                if s == trampoline {
                    assert(result[s] == closed[s]);
                } else if s < mid {
                    assert(result[s] == closed[s]);
                    assert(closed[s] == looped[s]);
                    assert(within(looped[s][i].next_state_id, lo + 1, mid, trampoline));
                } else {
                    assert(within(result[s][i].next_state_id, mid, hi, trampoline));
                }
            }
        },
        _ => {},
    }
}

/// The same for automata in a row.
pub proof fn lemma_chain_shape(graph: Graph, members: Seq<AstModel>, target: int)
    requires
        0 <= target < graph.len(),
    ensures
        closed_range(
            spec_chain(graph, members, target).0,
            graph.len() as int,
            spec_chain(graph, members, target).0.len() as int,
            target,
        ),
        within(
            spec_chain(graph, members, target).1,
            graph.len() as int,
            spec_chain(graph, members, target).0.len() as int,
            target,
        ),
    decreases members, 0nat, 0nat,
{
    if members.len() > 0 {
        let lo = graph.len() as int;
        lemma_add_shape(graph, members.last(), target);
        lemma_add_extends(graph, members.last(), target);
        let (built, entry) = spec_add(graph, members.last(), target);
        lemma_chain_shape(built, members.drop_last(), entry);
        lemma_chain_extends(built, members.drop_last(), entry);
        let result = spec_chain(graph, members, target).0;
        let hi = result.len() as int;
        let mid = built.len() as int;
        assert forall|s: int, i: int| lo <= s < hi && 0 <= i < result[s].len() implies within(
            (#[trigger] result[s][i]).next_state_id,
            lo,
            hi,
            target,
        ) by {
            if s < mid {
                assert(result[s] == built[s]);
                assert(within(built[s][i].next_state_id, lo, mid, target));
            } else {
                assert(within(result[s][i].next_state_id, mid, hi, entry));
            }
        }
    }
}

/// The same for the automata of the members of an alternation, each of
/// which is entered at one of the added states or at the target.
pub proof fn lemma_branches_shape(graph: Graph, members: Seq<AstModel>, target: int)
    requires
        0 <= target < graph.len(),
    ensures
        closed_range(
            spec_branches(graph, members, target).0,
            graph.len() as int,
            spec_branches(graph, members, target).0.len() as int,
            target,
        ),
        forall|i: int|
            0 <= i < spec_branches(graph, members, target).1.len() ==> within(
                #[trigger] spec_branches(graph, members, target).1[i],
                graph.len() as int,
                spec_branches(graph, members, target).0.len() as int,
                target,
            ),
    decreases members, 0nat, 0nat,
{
    if members.len() > 0 {
        let lo = graph.len() as int;
        lemma_branches_shape(graph, members.drop_last(), target);
        lemma_branches_extends(graph, members.drop_last(), target);
        let (front, entries) = spec_branches(graph, members.drop_last(), target);
        lemma_add_shape(front, members.last(), target);
        lemma_add_extends(front, members.last(), target);
        let (result, all) = spec_branches(graph, members, target);
        let hi = result.len() as int;
        let mid = front.len() as int;
        assert forall|s: int, i: int| lo <= s < hi && 0 <= i < result[s].len() implies within(
            (#[trigger] result[s][i]).next_state_id,
            lo,
            hi,
            target,
        ) by {
            if s < mid {
                assert(result[s] == front[s]);
                assert(within(front[s][i].next_state_id, lo, mid, target));
            } else {
                assert(within(result[s][i].next_state_id, mid, hi, target));
            }
        }
        assert forall|i: int| 0 <= i < all.len() implies within(#[trigger] all[i], lo, hi, target) by {
            if i < entries.len() {
                assert(within(entries[i], lo, mid, target));
            }
        }
    }
}

/// The same for copies in a row.
pub proof fn lemma_exact_shape(graph: Graph, base: AstModel, count: nat, target: int)
    requires
        0 <= target < graph.len(),
    ensures
        closed_range(
            spec_exact(graph, base, count, target).0,
            graph.len() as int,
            spec_exact(graph, base, count, target).0.len() as int,
            target,
        ),
        within(
            spec_exact(graph, base, count, target).1,
            graph.len() as int,
            spec_exact(graph, base, count, target).0.len() as int,
            target,
        ),
    decreases base, 1nat, count,
{
    if count > 0 {
        let lo = graph.len() as int;
        lemma_exact_shape(graph, base, (count - 1) as nat, target);
        lemma_exact_extends(graph, base, (count - 1) as nat, target);
        let (built, entry) = spec_exact(graph, base, (count - 1) as nat, target);
        lemma_add_shape(built, base, entry);
        lemma_add_extends(built, base, entry);
        let result = spec_exact(graph, base, count, target).0;
        let hi = result.len() as int;
        let mid = built.len() as int;
        assert forall|s: int, i: int| lo <= s < hi && 0 <= i < result[s].len() implies within(
            (#[trigger] result[s][i]).next_state_id,
            lo,
            hi,
            target,
        ) by {
            if s < mid {
                assert(result[s] == built[s]);
                assert(within(built[s][i].next_state_id, lo, mid, target));
            } else {
                assert(within(result[s][i].next_state_id, mid, hi, entry));
            }
        }
    }
}

/// The same for copies in a row that can be left out.
pub proof fn lemma_optional_shape(graph: Graph, base: AstModel, count: nat, target: int)
    requires
        0 <= target < graph.len(),
    ensures
        closed_range(
            spec_optional(graph, base, count, target).0,
            graph.len() as int,
            spec_optional(graph, base, count, target).0.len() as int,
            target,
        ),
        within(
            spec_optional(graph, base, count, target).1,
            graph.len() as int,
            spec_optional(graph, base, count, target).0.len() as int,
            target,
        ),
    decreases base, 1nat, count,
{
    if count > 0 {
        let lo = graph.len() as int;
        lemma_optional_shape(graph, base, (count - 1) as nat, target);
        lemma_optional_extends(graph, base, (count - 1) as nat, target);
        let (built, after) = spec_optional(graph, base, (count - 1) as nat, target);
        lemma_add_shape(built, base, after);
        lemma_add_extends(built, base, after);
        let (copied, start) = spec_add(built, base, after);
        let result = spec_optional(graph, base, count, target).0;
        let hi = result.len() as int;
        let mid = built.len() as int;
        assert forall|s: int, i: int| lo <= s < hi && 0 <= i < result[s].len() implies within(
            (#[trigger] result[s][i]).next_state_id,
            lo,
            hi,
            target,
        ) by {
            if s < mid {
                assert(result[s] == built[s]);
                assert(within(built[s][i].next_state_id, lo, mid, target));
            } else if s < copied.len() {
                assert(result[s] == copied[s]);
                assert(within(copied[s][i].next_state_id, mid, copied.len() as int, after));
            } else {
            }
        }
    }
}

/// A well-formed graph stays well-formed when the automaton of a tree is
/// added to it.
pub proof fn lemma_add_wf(graph: Graph, entry: AstModel, target: int)
    requires
        graph_wf(graph),
        0 <= target < graph.len(),
    ensures
        graph_wf(spec_add(graph, entry, target).0),
        0 <= spec_add(graph, entry, target).1 < spec_add(graph, entry, target).0.len(),
{
    lemma_add_shape(graph, entry, target);
    lemma_add_extends(graph, entry, target);
    let result = spec_add(graph, entry, target).0;
    assert forall|s: int, i: int| 0 <= s < result.len() && 0 <= i < result[s].len() implies 0 <= (
    #[trigger] result[s][i]).next_state_id < result.len() by {
        if s < graph.len() {
            assert(result[s] == graph[s]);
        } else {
            assert(within(
                result[s][i].next_state_id,
                graph.len() as int,
                result.len() as int,
                target,
            ));
        }
    }
}

/// The automaton of a syntax tree is well-formed.
pub proof fn lemma_from_regex_wf(entry: AstModel)
    ensures
        spec_from_regex(entry).wf(),
{
    let seed: Graph = seq![Seq::empty()];
    lemma_add_wf(seed, entry, 0);
}

} // verus!
