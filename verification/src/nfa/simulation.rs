//! What it means for a deterministic automaton to be the subset
//! construction of a nondeterministic one, and what follows from it.

use super::state::StateId;
use super::Nfa;
use crate::dfa::state::{distinct_labels, has_label, lemma_target_of_entry, target_of};
use crate::dfa::Dfa;
use crate::powerset::{lemma_subsets_count, subsets};
use vstd::arithmetic::power2::pow2;
use vstd::prelude::*;

verus! {

/// Whether `edge`, an edge of the deterministic state `from`, leads to the
/// state that stands for what the states of `from` reach by its label.
pub open spec fn edge_sound<T>(
    nfa: Nfa<T>,
    sets: Seq<Set<StateId>>,
    from: int,
    edge: (T, StateId),
) -> bool {
    &&& edge.1 < sets.len()
    &&& sets[edge.1 as int] == nfa.epsilon_closure(nfa.moves(sets[from], edge.0))
}

/// Whether the deterministic state `at` is kept under its own identifier,
/// has one edge per label, and every edge of it is sound.
pub open spec fn state_sound<T>(nfa: Nfa<T>, dfa: Dfa<T>, sets: Seq<Set<StateId>>, at: int) -> bool {
    &&& dfa.states()[at].spec_id() == at
    &&& distinct_labels(dfa.states()[at]@)
    &&& forall|k: int|
        0 <= k < dfa.states()[at]@.len() ==> edge_sound(nfa, sets, at, #[trigger] dfa.states()[at]@[k])
}

/// Whether the deterministic state `at` has an edge for exactly the
/// elements of the alphabet that label an edge of one of its states.
pub open spec fn state_complete<T>(
    nfa: Nfa<T>,
    dfa: Dfa<T>,
    sets: Seq<Set<StateId>>,
    at: int,
) -> bool {
    forall|a: T| has_label(dfa.states()[at]@, a) <==> #[trigger] nfa.alphabet(sets[at]).contains(a)
}

/// Whether an edge of an earlier deterministic state leads to `at`.
pub open spec fn entered<T>(dfa: Dfa<T>, at: int) -> bool {
    exists|from: int, k: int|
        0 <= from < at && 0 <= k < dfa.states()[from]@.len() && (
        #[trigger] dfa.states()[from]@[k]).1 == at
}

/// Whether `dfa` is the subset construction of `nfa`, its state `q`
/// standing for the set `sets[q]` of states of `nfa`:
/// the start state stands for what `nfa` reaches from its start state
/// without input; no two states stand for the same set; every state has
/// exactly the edges that its set asks for, each leading to the state of
/// the set reached; every state but the first is led to from an earlier
/// one; and the goal states are those whose set holds a goal state.
pub open spec fn determinizes<T>(nfa: Nfa<T>, dfa: Dfa<T>, sets: Seq<Set<StateId>>) -> bool {
    &&& nfa.start() is Some
    &&& sets.len() == dfa.states().len()
    &&& sets.len() >= 1
    &&& dfa.start() == Some(0usize)
    &&& sets[0] == nfa.epsilon_closure(nfa.start_set())
    &&& forall|i: int, j: int| 0 <= i < j < sets.len() ==> sets[i] != sets[j]
    &&& forall|at: int| 0 <= at < sets.len() ==> #[trigger] state_sound(nfa, dfa, sets, at)
    &&& forall|at: int| 0 <= at < sets.len() ==> #[trigger] state_complete(nfa, dfa, sets, at)
    &&& forall|at: int| 1 <= at < sets.len() ==> #[trigger] entered(dfa, at)
    &&& forall|at: StateId|
        #[trigger] dfa.goals().contains(at) <==> at < sets.len() && nfa.meets_goals(sets[at as int])
}

/// Reading the same input, the deterministic automaton is in the state that
/// stands for the set of states that the nondeterministic one may be in; it
/// is in no state exactly where the other can be in none.
pub proof fn lemma_runs_agree<T>(nfa: Nfa<T>, dfa: Dfa<T>, sets: Seq<Set<StateId>>, input: Seq<T>)
    requires
        determinizes(nfa, dfa, sets),
    ensures
        match dfa.run(input) {
            Some(at) => at < sets.len() && sets[at as int] == nfa.run(input),
            None => nfa.run(input) == Set::<StateId>::empty(),
        },
    decreases input.len(),
{
    if input.len() > 0 {
        let before = input.drop_last();
        let a = input.last();
        lemma_runs_agree(nfa, dfa, sets, before);
        match dfa.run(before) {
            Some(at) => {
                let edges = dfa.states()[at as int]@;
                assert(state_sound(nfa, dfa, sets, at as int));
                assert(state_complete(nfa, dfa, sets, at as int));
                match target_of(edges, a) {
                    Some(to) => {
                        let k = choose|k: int| 0 <= k < edges.len() && edges[k].0 == a;
                        assert(edge_sound(nfa, sets, at as int, edges[k]));
                    },
                    None => {
                        assert(!nfa.alphabet(sets[at as int]).contains(a));
                        nfa.lemma_moves_within(sets[at as int], a);
                        nfa.lemma_closure_of_none();
                    },
                }
            },
            None => {
                assert(nfa.moves(Set::<StateId>::empty(), a) =~= Set::<StateId>::empty());
                nfa.lemma_closure_of_none();
            },
        }
    }
}

/// The two automata accept the same inputs.
pub proof fn lemma_same_language<T>(
    nfa: Nfa<T>,
    dfa: Dfa<T>,
    sets: Seq<Set<StateId>>,
    input: Seq<T>,
)
    requires
        determinizes(nfa, dfa, sets),
    ensures
        dfa.accepts(input) == nfa.accepts(input),
{
    lemma_runs_agree(nfa, dfa, sets, input);
}

/// A state of the deterministic automaton is a goal state exactly where the
/// set that it stands for holds a goal state of the nondeterministic one.
pub proof fn lemma_goal_states<T>(nfa: Nfa<T>, dfa: Dfa<T>, sets: Seq<Set<StateId>>, at: StateId)
    requires
        determinizes(nfa, dfa, sets),
        at < sets.len(),
    ensures
        dfa.goals().contains(at) <==> exists|id: StateId|
            sets[at as int].contains(id) && nfa.goals().contains(id),
{
}

/// From one state of the deterministic automaton, one label leads to at
/// most one state.
pub proof fn lemma_one_target<T>(
    nfa: Nfa<T>,
    dfa: Dfa<T>,
    sets: Seq<Set<StateId>>,
    at: int,
    i: int,
    j: int,
)
    requires
        determinizes(nfa, dfa, sets),
        0 <= at < dfa.states().len(),
        0 <= i < dfa.states()[at]@.len(),
        0 <= j < dfa.states()[at]@.len(),
        dfa.states()[at]@[i].0 == dfa.states()[at]@[j].0,
    ensures
        i == j,
        dfa.step(at as StateId, dfa.states()[at]@[i].0) == Some(dfa.states()[at]@[i].1),
{
    assert(state_sound(nfa, dfa, sets, at));
    lemma_target_of_entry(dfa.states()[at]@, i);
    lemma_target_of_entry(dfa.states()[at]@, j);
}

/// Every set that a deterministic state stands for lies within the start
/// state and what the edges of the nondeterministic automaton lead to.
pub proof fn lemma_sets_within<T>(nfa: Nfa<T>, dfa: Dfa<T>, sets: Seq<Set<StateId>>, at: int)
    requires
        determinizes(nfa, dfa, sets),
        0 <= at < sets.len(),
    ensures
        sets[at].subset_of(nfa.universe()),
{
    if at == 0 {
        nfa.lemma_closure_within(nfa.start_set());
    } else {
        assert(entered(dfa, at));
        let (from, k) = choose|from: int, k: int|
            0 <= from < at && 0 <= k < dfa.states()[from]@.len() && (
            #[trigger] dfa.states()[from]@[k]).1 == at;
        assert(state_sound(nfa, dfa, sets, from));
        let edge = dfa.states()[from]@[k];
        assert(edge_sound(nfa, sets, from, edge));
        let moved = nfa.moves(sets[from], edge.0);
        nfa.lemma_moves_within(sets[from], edge.0);
        nfa.lemma_closure_within(moved);
    }
}

/// A sequence of distinct subsets of a finite set is at most as long as
/// the set has subsets.
pub proof fn lemma_distinct_subsets(sets: Seq<Set<StateId>>, all: Set<StateId>)
    requires
        all.finite(),
        forall|i: int, j: int| 0 <= i < j < sets.len() ==> sets[i] != sets[j],
        forall|i: int| 0 <= i < sets.len() ==> (#[trigger] sets[i]).subset_of(all),
    ensures
        subsets(all).finite(),
        sets.len() <= subsets(all).len(),
        sets.len() <= pow2(all.len()),
{
    lemma_subsets_count(all);
    assert(sets.no_duplicates()) by {
        assert forall|i: int, j: int| 0 <= i < sets.len() && 0 <= j < sets.len() && i != j implies sets[i]
            != sets[j] by {
            if i < j {
                assert(sets[i] != sets[j]);
            } else {
                assert(sets[j] != sets[i]);
            }
        }
    }
    sets.unique_seq_to_set();
    assert(sets.to_set().subset_of(subsets(all))) by {
        assert forall|part: Set<StateId>| sets.to_set().contains(part) implies subsets(all).contains(
            part,
        ) by {
            let i = choose|i: int| 0 <= i < sets.len() && sets[i] == part;
            assert(sets[i].subset_of(all));
        }
    }
    vstd::set_lib::lemma_len_subset(sets.to_set(), subsets(all));
}

/// The deterministic automaton has at most two to the number of states
/// that the nondeterministic one can ever be in.
pub proof fn lemma_state_count_within<T>(nfa: Nfa<T>, dfa: Dfa<T>, sets: Seq<Set<StateId>>)
    requires
        determinizes(nfa, dfa, sets),
    ensures
        nfa.universe().finite(),
        dfa.states().len() <= pow2(nfa.universe().len()),
{
    nfa.lemma_targets_finite();
    assert forall|i: int| 0 <= i < sets.len() implies (#[trigger] sets[i]).subset_of(
        nfa.universe(),
    ) by {
        lemma_sets_within(nfa, dfa, sets, i);
    }
    lemma_distinct_subsets(sets, nfa.universe());
}

/// The identifiers below `n`, of which there are `n`.
pub open spec fn below(n: nat) -> Set<StateId> {
    Set::new(|id: StateId| id < n)
}

/// There are `n` identifiers below `n`.
pub proof fn lemma_below_count(n: nat)
    requires
        n <= usize::MAX,
    ensures
        below(n).finite(),
        below(n).len() == n,
    decreases n,
{
    if n == 0 {
        assert(below(n) =~= Set::<StateId>::empty());
    } else {
        let m = (n - 1) as nat;
        lemma_below_count(m);
        assert(below(n) =~= below(m).insert(m as StateId));
    }
}

/// Where the start state and every edge of the nondeterministic automaton
/// name states that it has, the deterministic automaton has at most two to
/// the number of those states.
pub proof fn lemma_state_count<T>(nfa: Nfa<T>, dfa: Dfa<T>, sets: Seq<Set<StateId>>)
    requires
        determinizes(nfa, dfa, sets),
        forall|id: StateId| nfa.universe().contains(id) ==> nfa.has_state(id),
        nfa.states().len() <= usize::MAX,
    ensures
        dfa.states().len() <= pow2(nfa.states().len()),
{
    let all = below(nfa.states().len());
    lemma_below_count(nfa.states().len());
    assert forall|i: int| 0 <= i < sets.len() implies (#[trigger] sets[i]).subset_of(all) by {
        lemma_sets_within(nfa, dfa, sets, i);
        assert forall|id: StateId| sets[i].contains(id) implies all.contains(id) by {
            assert(nfa.universe().contains(id));
            assert(nfa.has_state(id));
        }
    }
    lemma_distinct_subsets(sets, all);
}

} // verus!
