//! How many states the automaton of a syntax tree needs, and whether it can
//! be built.

use vstd::prelude::*;

use crate::automata::model::{added_by_all, added_states, bounds_ordered, least_count, spec_from_regex};
use crate::automata::Automata;
use crate::parser::{ast_models, AstModel, RegexEntry};

verus! {

/// Whether `value` tells `actual`: the number itself where it fits 64 bits,
/// and nothing where it does not.
pub open spec fn fits(value: Option<u64>, actual: nat) -> bool {
    match value {
        Some(number) => number == actual,
        None => actual > u64::MAX,
    }
}

/// The sum of two numbers that may not fit.
fn add_fitting(left: Option<u64>, right: Option<u64>, Ghost(x): Ghost<nat>, Ghost(y): Ghost<nat>) -> (sum:
    Option<u64>)
    requires
        fits(left, x),
        fits(right, y),
    ensures
        fits(sum, x + y),
{
    match (left, right) {
        (Some(a), Some(b)) => a.checked_add(b),
        _ => None,
    }
}

/// The product of a number and one that may not fit.
fn mul_fitting(count: u64, size: Option<u64>, Ghost(y): Ghost<nat>) -> (product: Option<u64>)
    requires
        fits(size, y),
    ensures
        fits(product, count as nat * y),
{
    if count == 0 {
        assert(0 * y == 0) by (nonlinear_arith);
        return Some(0);
    }
    match size {
        Some(b) => {
            let product = count.checked_mul(b);
            product
        },
        None => {
            assert(count as nat * y >= y) by (nonlinear_arith)
                requires
                    count >= 1,
            ;
            None
        },
    }
}

impl Automata {
    /// Whether no bounded repetition in the tree has a maximum below its
    /// minimum.
    pub fn bounds_are_ordered(regex: &RegexEntry) -> (ordered: bool)
        ensures
            ordered == bounds_ordered(regex@),
        decreases regex,
    {
        match regex {
            RegexEntry::Concatenation(entries) => {
                proof {
                    assert(decreases_to!(*regex => regex->Concatenation_0));
                }
                let ordered = Self::all_bounds_are_ordered(entries);
                proof {
                    assert(regex@->Concatenation_0 =~= ast_models(entries@));
                    if ordered {
                        assert forall|i: int| 0 <= i < regex@->Concatenation_0.len() implies bounds_ordered(
                            #[trigger] regex@->Concatenation_0[i],
                        ) by {
                            assert(bounds_ordered(entries@[i]@));
                        }
                    } else {
                        let i = choose|i: int|
                            0 <= i < entries@.len() && !bounds_ordered(#[trigger] entries@[i]@);
                        assert(regex@->Concatenation_0[i] == entries@[i]@);
                    }
                }
                ordered
            },
            RegexEntry::Alternation(entries) => {
                proof {
                    assert(decreases_to!(*regex => regex->Alternation_0));
                }
                let ordered = Self::all_bounds_are_ordered(entries);
                proof {
                    assert(regex@->Alternation_0 =~= ast_models(entries@));
                    if ordered {
                        assert forall|i: int| 0 <= i < regex@->Alternation_0.len() implies bounds_ordered(
                            #[trigger] regex@->Alternation_0[i],
                        ) by {
                            assert(bounds_ordered(entries@[i]@));
                        }
                    } else {
                        let i = choose|i: int|
                            0 <= i < entries@.len() && !bounds_ordered(#[trigger] entries@[i]@);
                        assert(regex@->Alternation_0[i] == entries@[i]@);
                    }
                }
                ordered
            },
            RegexEntry::Repetition { base, min, max } => {
                let least: u64 = match min {
                    Some(count) => *count,
                    None => 0,
                };
                let fitting = match max {
                    Some(most) => least <= *most,
                    None => true,
                };
                fitting && Self::bounds_are_ordered(base)
            },
            _ => true,
        }
    }

    /// Whether the bounds are ordered in every tree of the list.
    fn all_bounds_are_ordered(entries: &Vec<RegexEntry>) -> (ordered: bool)
        ensures
            ordered == (forall|i: int|
                0 <= i < entries@.len() ==> bounds_ordered(#[trigger] entries@[i]@)),
        decreases entries,
    {
        let mut i: usize = 0;
        while i < entries.len()
            invariant
                i <= entries.len(),
                forall|j: int| 0 <= j < i ==> bounds_ordered(#[trigger] entries@[j]@),
            decreases entries.len() - i,
        {
            proof {
                vstd::std_specs::vec::axiom_vec_index_decreases(*entries, i as int);
            }
            if !Self::bounds_are_ordered(&entries[i]) {
                return false;
            }
            i += 1;
        }
        true
    }

    /// The number of states that the automaton of `regex` has beside its
    /// terminal state, where that number fits 64 bits.
    pub fn added_state_count(regex: &RegexEntry) -> (count: Option<u64>)
        requires
            bounds_ordered(regex@),
        ensures
            fits(count, added_states(regex@)),
        decreases regex,
    {
        match regex {
            RegexEntry::Concatenation(entries) => {
                proof {
                    assert(decreases_to!(*regex => regex->Concatenation_0));
                    assert(regex@->Concatenation_0 =~= ast_models(entries@));
                    assert forall|i: int| 0 <= i < entries@.len() implies bounds_ordered(
                        #[trigger] entries@[i]@,
                    ) by {
                        assert(regex@->Concatenation_0[i] == entries@[i]@);
                    }
                }
                Self::added_state_count_of_all(entries)
            },
            RegexEntry::Alternation(entries) => {
                proof {
                    assert(decreases_to!(*regex => regex->Alternation_0));
                    assert(regex@->Alternation_0 =~= ast_models(entries@));
                    assert forall|i: int| 0 <= i < entries@.len() implies bounds_ordered(
                        #[trigger] entries@[i]@,
                    ) by {
                        assert(regex@->Alternation_0[i] == entries@[i]@);
                    }
                }
                let members = Self::added_state_count_of_all(entries);
                add_fitting(
                    members,
                    Some(1),
                    Ghost(added_by_all(ast_models(entries@))),
                    Ghost(1nat),
                )
            },
            RegexEntry::Repetition { base, min, max: Some(most) } => {
                let least: u64 = match min {
                    Some(count) => *count,
                    None => 0,
                };
                let ghost size = added_states(base@);
                let copy = Self::added_state_count(base);
                let entered = add_fitting(copy, Some(1), Ghost(size), Ghost(1nat));
                let optional = mul_fitting(*most - least, entered, Ghost(size + 1));
                let exact = mul_fitting(least, copy, Ghost(size));
                add_fitting(
                    optional,
                    exact,
                    Ghost((*most - least) as nat * (size + 1)),
                    Ghost(least as nat * size),
                )
            },
            RegexEntry::Repetition { base, min, max: None } => {
                let least: u64 = match min {
                    Some(count) => *count,
                    None => 0,
                };
                let ghost size = added_states(base@);
                let copy = Self::added_state_count(base);
                let looped = add_fitting(Some(1), copy, Ghost(1nat), Ghost(size));
                let exact = mul_fitting(least, copy, Ghost(size));
                add_fitting(looped, exact, Ghost(1 + size), Ghost(least as nat * size))
            },
            _ => Some(1),
        }
    }

    /// The number of states that the automata of `entries` have together.
    fn added_state_count_of_all(entries: &Vec<RegexEntry>) -> (count: Option<u64>)
        requires
            forall|i: int| 0 <= i < entries@.len() ==> bounds_ordered(#[trigger] entries@[i]@),
        ensures
            fits(count, added_by_all(ast_models(entries@))),
        decreases entries,
    {
        let ghost members = ast_models(entries@);
        let mut total: Option<u64> = Some(0);
        let mut i: usize = 0;
        assert(members.subrange(0, 0) =~= Seq::<AstModel>::empty());
        while i < entries.len()
            invariant
                i <= entries.len(),
                members == ast_models(entries@),
                forall|i: int| 0 <= i < entries@.len() ==> bounds_ordered(#[trigger] entries@[i]@),
                fits(total, added_by_all(members.subrange(0, i as int))),
            decreases entries.len() - i,
        {
            proof {
                vstd::std_specs::vec::axiom_vec_index_decreases(*entries, i as int);
                assert(members.subrange(0, i + 1).drop_last() =~= members.subrange(0, i as int));
                assert(members.subrange(0, i + 1).last() == entries@[i as int]@);
            }
            let member = Self::added_state_count(&entries[i]);
            total = add_fitting(
                total,
                member,
                Ghost(added_by_all(members.subrange(0, i as int))),
                Ghost(added_states(entries@[i as int]@)),
            );
            i += 1;
        }
        assert(members.subrange(0, i as int) =~= members);
        total
    }

    /// The automaton of a syntax tree, where there is one: no bounded
    /// repetition of the tree has a maximum below its minimum, and the
    /// indices of the states fit the machine.
    pub fn try_from_regex(regex: RegexEntry) -> (automata: Option<Automata>)
        ensures
            match automata {
                Some(built) => bounds_ordered(regex@) && added_states(regex@) < usize::MAX
                    && built@ == spec_from_regex(regex@) && built@.wf(),
                None => !bounds_ordered(regex@) || added_states(regex@) >= usize::MAX,
            },
    {
        if !Self::bounds_are_ordered(&regex) {
            return None;
        }
        match Self::added_state_count(&regex) {
            Some(count) => {
                if count < usize::MAX as u64 {
                    Some(Self::from_regex(regex))
                } else {
                    None
                }
            },
            None => None,
        }
    }
}

} // verus!
