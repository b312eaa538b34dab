//! The subset construction: from a nondeterministic automaton to a
//! deterministic one whose states stand for sets of the first one's states.

use super::state::{
    adjoin, decides_equality, lemma_targets_of_entry, same_value, value_labels, State, StateEdge,
    StateId,
};
use super::simulation::{
    determinizes, edge_sound, entered, lemma_distinct_subsets, lemma_same_language, state_complete,
    state_sound,
};
use super::Nfa;
use crate::dfa::state::{has_label as has_edge, StateId as DfaStateId};
use crate::dfa::Dfa;
use crate::powerset::subsets;
use crate::set::StateSet;
use vstd::prelude::*;

verus! {

/// Whether a worklist step took `added` into a set and its worklist: the set
/// grew from `set0` to `set1` by `added`, and the worklist from `work0` to
/// `work1` by exactly the states that were new to the set.
spec fn admitted(
    set0: Set<StateId>,
    work0: Seq<StateId>,
    set1: Set<StateId>,
    work1: Seq<StateId>,
    added: Set<StateId>,
) -> bool {
    &&& set1 == set0.union(added)
    &&& work0.len() <= work1.len()
    &&& work1.len() - work0.len() == set1.len() - set0.len()
    &&& work1.take(work0.len() as int) == work0
    &&& forall|k: int| work0.len() <= k < work1.len() ==> added.contains(#[trigger] work1[k])
    &&& forall|t: StateId| added.contains(t) && !set0.contains(t) ==> work1.contains(t)
}

/// Two worklist steps in a row are one step that took both additions.
proof fn lemma_admitted_twice(
    set0: Set<StateId>,
    work0: Seq<StateId>,
    set1: Set<StateId>,
    work1: Seq<StateId>,
    set2: Set<StateId>,
    work2: Seq<StateId>,
    first: Set<StateId>,
    second: Set<StateId>,
)
    requires
        admitted(set0, work0, set1, work1, first),
        admitted(set1, work1, set2, work2, second),
    ensures
        admitted(set0, work0, set2, work2, first.union(second)),
{
    let both = first.union(second);
    assert(set2 =~= set0.union(both));
    assert(work2.take(work0.len() as int) =~= work0) by {
        assert forall|k: int| 0 <= k < work0.len() implies work2[k] == work0[k] by {
            assert(work2.take(work1.len() as int)[k] == work1[k]);
            assert(work1.take(work0.len() as int)[k] == work0[k]);
        }
    }
    assert forall|k: int| work0.len() <= k < work2.len() implies both.contains(
        #[trigger] work2[k],
    ) by {
        if k < work1.len() {
            assert(work2.take(work1.len() as int)[k] == work1[k]);
            assert(first.contains(work1[k]));
        }
    }
    assert forall|t: StateId| both.contains(t) && !set0.contains(t) implies work2.contains(t) by {
        if first.contains(t) {
            let k = choose|k: int| 0 <= k < work1.len() && work1[k] == t;
            assert(work2.take(work1.len() as int)[k] == work1[k]);
        }
    }
}

/// Takes every state of `targets` that is new to `set` into `set` and onto
/// the worklist.
fn admit_all(set: &mut StateSet, work: &mut Vec<StateId>, targets: &StateSet)
    ensures
        admitted(old(set)@, old(work)@, final(set)@, final(work)@, targets@),
{
    let ghost set0 = set@;
    let ghost work0 = work@;
    let n = targets.len();
    let mut i: usize = 0;
    proof {
        vstd::seq_lib::seq_to_set_is_finite(set.seq());
        assert(work@.take(work0.len() as int) =~= work0);
    }
    while i < n
        invariant
            i <= n,
            n == targets.seq().len(),
            set@.finite(),
            set0.subset_of(set@),
            forall|t: StateId|
                set@.contains(t) <==> set0.contains(t) || exists|k: int|
                    0 <= k < i && targets.seq()[k] == t,
            work0.len() <= work@.len(),
            work@.len() - work0.len() == set@.len() - set0.len(),
            work@.take(work0.len() as int) == work0,
            forall|k: int| work0.len() <= k < work@.len() ==> targets@.contains(#[trigger] work@[k]),
            forall|k: int|
                0 <= k < i && !set0.contains(targets.seq()[k]) ==> work@.contains(
                    #[trigger] targets.seq()[k],
                ),
        decreases n - i,
    {
        let t = targets.at(i);
        let ghost before = set@;
        let ghost stack = work@;
        let fresh = set.insert(t);
        if fresh {
            work.push(t);
            proof {
                assert(work@.take(work0.len() as int) =~= work0);
                assert(work@[work@.len() - 1] == t);
                assert forall|k: int|
                    0 <= k < i && !set0.contains(targets.seq()[k]) implies work@.contains(
                    #[trigger] targets.seq()[k],
                ) by {
                    let j = choose|j: int| 0 <= j < stack.len() && stack[j] == targets.seq()[k];
                    assert(work@[j] == targets.seq()[k]);
                }
            }
        } else {
            assert(set@ =~= before);
        }
        proof {
            vstd::seq_lib::seq_to_set_is_finite(set.seq());
            assert forall|x: StateId|
                set@.contains(x) <==> set0.contains(x) || exists|k: int|
                    0 <= k < i + 1 && targets.seq()[k] == x by {
                if x == t {
                    assert(targets.seq()[i as int] == x);
                }
            }
            if !set0.contains(t) {
                if fresh {
                    assert(work@[work@.len() - 1] == t);
                } else {
                    let k = choose|k: int| 0 <= k < i && targets.seq()[k] == t;
                    assert(work@.contains(targets.seq()[k]));
                }
            }
        }
        i += 1;
    }
    proof {
        assert forall|t: StateId| set@.contains(t) <==> set0.union(targets@).contains(t) by {
            if targets@.contains(t) {
                let k = choose|k: int| 0 <= k < targets.seq().len() && targets.seq()[k] == t;
                assert(targets.seq()[k] == t);
            }
            if set@.contains(t) && !set0.contains(t) {
                let k = choose|k: int| 0 <= k < i && targets.seq()[k] == t;
                assert(targets.seq().contains(t));
            }
        }
        assert(set@ =~= set0.union(targets@));
        assert forall|t: StateId| targets@.contains(t) && !set0.contains(t) implies work@.contains(
            t,
        ) by {
            let k = choose|k: int| 0 <= k < targets.seq().len() && targets.seq()[k] == t;
            assert(work@.contains(targets.seq()[k]));
        }
    }
}

/// Takes into `set`, and onto the worklist, every state that an edge without
/// input leads to from the state `from`.
fn expand<T>(nfa: &Nfa<T>, from: StateId, set: &mut StateSet, work: &mut Vec<StateId>)
    ensures
        admitted(
            old(set)@,
            old(work)@,
            final(set)@,
            final(work)@,
            nfa.step(from, StateEdge::Epsilon),
        ),
{
    let ghost set0 = set@;
    let ghost work0 = work@;
    let ghost goal = nfa.step(from, StateEdge::Epsilon);
    proof {
        assert(set@ =~= set0.union(Set::<StateId>::empty()));
        assert(work@.take(work0.len() as int) =~= work0);
    }
    match nfa.get_state(from) {
        Some(state) => {
            let edges = state.edges_iter();
            let ghost mut added = Set::<StateId>::empty();
            let mut i: usize = 0;
            while i < edges.len()
                invariant
                    i <= edges@.len(),
                    edges@.len() == state@.len(),
                    forall|k: int|
                        0 <= k < edges@.len() ==> *(#[trigger] edges@[k]).0 == state@[k].0
                            && *edges@[k].1 == state@[k].1,
                    admitted(set0, work0, set@, work@, added),
                    forall|t: StateId|
                        added.contains(t) <==> exists|k: int|
                            0 <= k < i && state@[k].0 == StateEdge::<T>::Epsilon
                                && state@[k].1@.contains(t),
                decreases edges@.len() - i,
            {
                let (edge, targets) = edges[i];
                let ghost set1 = set@;
                let ghost work1 = work@;
                let ghost before = added;
                match edge {
                    StateEdge::Epsilon => {
                        admit_all(set, work, targets);
                        proof {
                            lemma_admitted_twice(
                                set0,
                                work0,
                                set1,
                                work1,
                                set@,
                                work@,
                                before,
                                targets@,
                            );
                            added = before.union(targets@);
                        }
                    },
                    _ => {},
                }
                proof {
                    assert forall|t: StateId|
                        added.contains(t) <==> exists|k: int|
                            0 <= k < i + 1 && state@[k].0 == StateEdge::<T>::Epsilon
                                && state@[k].1@.contains(t) by {
                        if added.contains(t) && !before.contains(t) {
                            assert(state@[i as int].0 == StateEdge::<T>::Epsilon
                                && state@[i as int].1@.contains(t));
                        }
                        if before.contains(t) {
                            let k = choose|k: int|
                                0 <= k < i && state@[k].0 == StateEdge::<T>::Epsilon
                                    && state@[k].1@.contains(t);
                            assert(0 <= k < i + 1);
                        }
                    }
                }
                i += 1;
            }
            assert(added =~= goal);
        },
        None => {
            assert(goal =~= Set::<StateId>::empty());
        },
    }
}

/// The states reached from a state of `states` without reading input.
pub fn closure<T>(nfa: &Nfa<T>, states: &StateSet) -> (reached: StateSet)
    ensures
        reached@ == nfa.epsilon_closure(states@),
{
    let mut set = StateSet::new();
    let mut work: Vec<StateId> = Vec::new();
    let ghost all = states@.union(nfa.targets());
    let ghost closed = nfa.epsilon_closure(states@);
    admit_all(&mut set, &mut work, states);
    proof {
        nfa.lemma_targets_finite();
        vstd::seq_lib::seq_to_set_is_finite(states.seq());
        vstd::seq_lib::seq_to_set_is_finite(set.seq());
        nfa.lemma_closure_extends(states@);
        assert(set@ =~= states@);
        assert forall|k: int| 0 <= k < work@.len() implies set@.contains(#[trigger] work@[k]) by {}
    }
    while work.len() > 0
        invariant
            all == states@.union(nfa.targets()),
            closed == nfa.epsilon_closure(states@),
            all.finite(),
            set@.finite(),
            states@.subset_of(set@),
            set@.subset_of(all),
            set@.subset_of(closed),
            forall|k: int| 0 <= k < work@.len() ==> set@.contains(#[trigger] work@[k]),
            forall|z: StateId|
                set@.contains(z) ==> work@.contains(z) || (#[trigger] nfa.step(
                    z,
                    StateEdge::Epsilon,
                )).subset_of(set@),
        decreases all.len() - set@.len(), work@.len(),
    {
        let ghost set0 = set@;
        let ghost work0 = work@;
        let from = work.pop().unwrap();
        let ghost work1 = work@;
        expand(nfa, from, &mut set, &mut work);
        proof {
            let added = nfa.step(from, StateEdge::Epsilon);
            vstd::seq_lib::seq_to_set_is_finite(set.seq());
            nfa.lemma_step_in_targets(from, StateEdge::Epsilon);
            nfa.lemma_closure_closed(states@);
            assert(set0.contains(work0[work0.len() - 1]));
            assert forall|t: StateId| added.contains(t) implies closed.contains(t) by {
                assert(closed.contains(from) && nfa.step(from, StateEdge::Epsilon).contains(t));
            }
            assert forall|k: int| 0 <= k < work@.len() implies set@.contains(
                #[trigger] work@[k],
            ) by {
                if k < work1.len() {
                    assert(work@.take(work1.len() as int)[k] == work1[k]);
                    assert(work1[k] == work0[k]);
                }
            }
            assert forall|z: StateId| set@.contains(z) implies work@.contains(z) || (
            #[trigger] nfa.step(z, StateEdge::Epsilon)).subset_of(set@) by {
                if z == from {
                } else if set0.contains(z) {
                    if work0.contains(z) {
                        let k = choose|k: int| 0 <= k < work0.len() && work0[k] == z;
                        assert(k < work1.len());
                        assert(work@.take(work1.len() as int)[k] == work1[k]);
                        assert(work@[k] == z);
                    } else {
                        assert(nfa.step(z, StateEdge::Epsilon).subset_of(set0));
                    }
                }
            }
            vstd::set_lib::lemma_len_subset(set@, all);
            vstd::set_lib::lemma_len_subset(set0, set@);
        }
    }
    proof {
        assert(nfa.closed_silently(set@)) by {
            assert forall|from: StateId, to: StateId|
                set@.contains(from) && #[trigger] nfa.step(from, StateEdge::Epsilon).contains(
                    to,
                ) implies set@.contains(to) by {
                assert(!work@.contains(from));
                assert(nfa.step(from, StateEdge::Epsilon).subset_of(set@));
            }
        }
        nfa.lemma_closure_least(states@, set@);
        assert(set@ =~= closed);
    }
    set
}

/// The states reached from a state of `states` by one edge labelled `edge`.
pub fn get_move<T: Copy + Eq>(nfa: &Nfa<T>, states: &StateSet, edge: T) -> (reached: StateSet)
    requires
        decides_equality::<T>(),
    ensures
        reached@ == nfa.moves(states@, edge),
{
    let mut set = StateSet::new();
    let n = states.len();
    let mut i: usize = 0;
    while i < n
        invariant
            i <= n,
            n == states.seq().len(),
            decides_equality::<T>(),
            forall|t: StateId|
                set@.contains(t) <==> exists|k: int|
                    0 <= k < i && (#[trigger] nfa.step(
                        states.seq()[k],
                        StateEdge::Value(edge),
                    )).contains(t),
        decreases n - i,
    {
        let from = states.at(i);
        let ghost before = set@;
        let ghost gained = nfa.step(from, StateEdge::Value(edge));
        match nfa.get_state(from) {
            Some(state) => {
                let found = state.get_edges(StateEdge::Value(edge));
                proof {
                    lemma_targets_of_entry(state@, StateEdge::Value(edge));
                }
                match found {
                    Some(targets) => {
                        set.extend(targets);
                    },
                    None => {},
                }
            },
            None => {},
        }
        proof {
            assert(set@ =~= before.union(gained));
            assert forall|t: StateId|
                set@.contains(t) <==> exists|k: int|
                    0 <= k < i + 1 && (#[trigger] nfa.step(
                        states.seq()[k],
                        StateEdge::Value(edge),
                    )).contains(t) by {
                if gained.contains(t) {
                    assert(nfa.step(states.seq()[i as int], StateEdge::Value(edge)).contains(t));
                }
                if before.contains(t) {
                    let k = choose|k: int|
                        0 <= k < i && (#[trigger] nfa.step(
                            states.seq()[k],
                            StateEdge::Value(edge),
                        )).contains(t);
                    assert(0 <= k < i + 1);
                }
            }
        }
        i += 1;
    }
    proof {
        let goal = nfa.moves(states@, edge);
        assert forall|t: StateId| set@.contains(t) <==> goal.contains(t) by {
            if set@.contains(t) {
                let k = choose|k: int|
                    0 <= k < i && (#[trigger] nfa.step(
                        states.seq()[k],
                        StateEdge::Value(edge),
                    )).contains(t);
                assert(states.seq().contains(states.seq()[k]));
            }
            if goal.contains(t) {
                let from = choose|from: StateId|
                    states@.contains(from) && #[trigger] nfa.step(
                        from,
                        StateEdge::Value(edge),
                    ).contains(t);
                let k = choose|k: int| 0 <= k < states.seq().len() && states.seq()[k] == from;
                assert(nfa.step(states.seq()[k], StateEdge::Value(edge)).contains(t));
            }
        }
        assert(set@ =~= goal);
    }
    set
}

/// Whether `list` holds `a`.
fn holds<T: Copy + Eq>(list: &Vec<T>, a: T) -> (found: bool)
    requires
        decides_equality::<T>(),
    ensures
        found == list@.contains(a),
{
    let mut i: usize = 0;
    while i < list.len()
        invariant
            i <= list@.len(),
            decides_equality::<T>(),
            forall|k: int| 0 <= k < i ==> list@[k] != a,
        decreases list@.len() - i,
    {
        if same_value(&list[i], &a) {
            return true;
        }
        i += 1;
    }
    false
}

/// Appends to `moves` each element of the alphabet that labels an edge of
/// `state` and is not yet in `moves`.
fn collect_labels<T: Copy + Eq>(state: &State<T>, moves: &mut Vec<T>)
    requires
        decides_equality::<T>(),
    ensures
        final(moves)@ == adjoin(old(moves)@, value_labels(state@)),
{
    let edges = state.edges_iter();
    let mut i: usize = 0;
    assert(state@.take(0) =~= Seq::empty());
    while i < edges.len()
        invariant
            i <= edges@.len(),
            decides_equality::<T>(),
            edges@.len() == state@.len(),
            forall|k: int|
                0 <= k < edges@.len() ==> *(#[trigger] edges@[k]).0 == state@[k].0 && *edges@[k].1
                    == state@[k].1,
            moves@ == adjoin(old(moves)@, value_labels(state@.take(i as int))),
        decreases edges@.len() - i,
    {
        let (edge, _) = edges[i];
        proof {
            let upto = state@.take(i + 1);
            assert(upto.drop_last() =~= state@.take(i as int));
            assert(upto.last() == state@[i as int]);
        }
        match edge {
            StateEdge::Value(a) => {
                let ghost labels = value_labels(state@.take(i as int));
                assert(labels.push(*a).drop_last() =~= labels);
                if !holds(moves, *a) {
                    moves.push(*a);
                }
            },
            StateEdge::Epsilon => {},
        }
        i += 1;
    }
    assert(state@.take(edges@.len() as int) =~= state@);
}

/// The elements of the alphabet that label an edge of a state of `states`,
/// each once: state by state in ascending order, and for each state in the
/// order of its edges.
pub fn get_edges<T: Copy + Eq>(nfa: &Nfa<T>, states: &StateSet) -> (moves: Vec<T>)
    requires
        decides_equality::<T>(),
    ensures
        moves@ == nfa.labels_in_order(states.seq()),
        moves@.no_duplicates(),
        forall|a: T| moves@.contains(a) <==> nfa.alphabet(states@).contains(a),
{
    let mut moves: Vec<T> = Vec::new();
    let n = states.len();
    let mut i: usize = 0;
    assert(states.seq().take(0) =~= Seq::empty());
    while i < n
        invariant
            i <= n,
            n == states.seq().len(),
            decides_equality::<T>(),
            moves@ == nfa.labels_in_order(states.seq().take(i as int)),
        decreases n - i,
    {
        let from = states.at(i);
        proof {
            let upto = states.seq().take(i + 1);
            assert(upto.drop_last() =~= states.seq().take(i as int));
            assert(upto.last() == from);
        }
        match nfa.get_state(from) {
            Some(state) => {
                collect_labels(state, &mut moves);
            },
            None => {},
        }
        i += 1;
    }
    proof {
        assert(states.seq().take(n as int) =~= states.seq());
        nfa.lemma_labels_in_order(states.seq());
    }
    moves
}

/// A state of the deterministic automaton under construction: its
/// identifier and the set of states that it stands for.
#[derive(Debug)]
pub struct DfaState {
    pub id: DfaStateId,
    states: StateSet,
}

impl DfaState {
    /// The identifier of the deterministic state.
    pub closed spec fn ident(&self) -> DfaStateId {
        self.id
    }

    /// The states that the record stands for.
    pub closed spec fn members(&self) -> Set<StateId> {
        self.states@
    }

    /// The record of the deterministic state `id`, which stands for
    /// `states`.
    pub fn new(id: DfaStateId, states: StateSet) -> (record: DfaState)
        ensures
            record.ident() == id,
            record.members() == states@,
    {
        DfaState { id, states }
    }
}

/// The sets that the records stand for, in the records' order.
spec fn record_sets(records: Seq<DfaState>) -> Seq<Set<StateId>> {
    Seq::new(records.len(), |i: int| records[i].members())
}

/// Whether the records are numbered by their positions, which are the
/// identifiers of the states of `dfa`.
spec fn numbered<T>(dfa: Dfa<T>, records: Seq<DfaState>) -> bool {
    &&& records.len() == dfa.states().len()
    &&& forall|i: int| 0 <= i < records.len() ==> (#[trigger] records[i]).ident() == i
}

/// Whether the deterministic state `id` stands for `set` after a step that
/// changed nothing where a record held `set` before, and otherwise added the
/// state `id` without edges, its record, and its place in the queue.
spec fn seated<T>(
    dfa0: Dfa<T>,
    records0: Seq<DfaState>,
    queue0: Seq<DfaStateId>,
    dfa1: Dfa<T>,
    records1: Seq<DfaState>,
    queue1: Seq<DfaStateId>,
    set: Set<StateId>,
    id: DfaStateId,
) -> bool {
    &&& numbered(dfa1, records1)
    &&& dfa1.start() == dfa0.start()
    &&& dfa1.goals() == dfa0.goals()
    &&& id < records1.len()
    &&& records1[id as int].members() == set
    &&& id < records0.len() ==> {
        &&& dfa1.states() == dfa0.states()
        &&& records1 == records0
        &&& queue1 == queue0
    }
    &&& id >= records0.len() ==> {
        &&& id == records0.len()
        &&& forall|i: int| 0 <= i < records0.len() ==> (#[trigger] records0[i]).members() != set
        &&& dfa1.states().len() == id + 1
        &&& dfa1.states().take(id as int) == dfa0.states()
        &&& dfa1.states()[id as int].spec_id() == id
        &&& dfa1.states()[id as int]@.len() == 0
        &&& records1.len() == id + 1
        &&& records1.take(id as int) == records0
        &&& queue1 == queue0.push(id)
    }
}

/// The identifier of the deterministic state that stands for `set`: that of
/// the record that holds an equal set, or, where there is none, that of a
/// new state, which is recorded and queued.
fn seat<T>(
    dfa: &mut Dfa<T>,
    records: &mut Vec<DfaState>,
    queue: &mut Vec<DfaStateId>,
    set: StateSet,
) -> (id: DfaStateId)
    requires
        numbered(*old(dfa), old(records)@),
    ensures
        seated(
            *old(dfa),
            old(records)@,
            old(queue)@,
            *final(dfa),
            final(records)@,
            final(queue)@,
            set@,
            id,
        ),
{
    let mut i: usize = 0;
    while i < records.len()
        invariant
            i <= records@.len(),
            records@ == old(records)@,
            queue@ == old(queue)@,
            *dfa == *old(dfa),
            numbered(*dfa, records@),
            forall|k: int| 0 <= k < i ==> records@[k].members() != set@,
        decreases records@.len() - i,
    {
        if records[i].states.equals(&set) {
            return records[i].id;
        }
        i += 1;
    }
    let id = dfa.add_state().id();
    records.push(DfaState::new(id, set));
    queue.push(id);
    proof {
        assert(dfa.states().take(id as int) =~= old(dfa).states());
        assert(records@.take(id as int) =~= old(records)@);
    }
    id
}

/// Makes a goal state of every deterministic state whose set holds a goal
/// state of `nfa`.
fn mark_goals<T>(nfa: &Nfa<T>, dfa: &mut Dfa<T>, records: &Vec<DfaState>)
    requires
        numbered(*old(dfa), records@),
        old(dfa).goals() == Set::<DfaStateId>::empty(),
    ensures
        final(dfa).states() == old(dfa).states(),
        final(dfa).start() == old(dfa).start(),
        forall|at: DfaStateId|
            #[trigger] final(dfa).goals().contains(at) <==> at < records@.len() && nfa.meets_goals(
                records@[at as int].members(),
            ),
{
    let goals = nfa.goal_ids();
    let mut i: usize = 0;
    while i < records.len()
        invariant
            i <= records@.len(),
            numbered(*dfa, records@),
            goals@ == nfa.goals(),
            dfa.states() == old(dfa).states(),
            dfa.start() == old(dfa).start(),
            forall|at: DfaStateId|
                #[trigger] dfa.goals().contains(at) <==> at < i && nfa.meets_goals(
                    records@[at as int].members(),
                ),
        decreases records@.len() - i,
    {
        if records[i].states.intersects(goals) {
            dfa.add_goal(records[i].id);
        }
        i += 1;
    }
}

/// Whether the deterministic state `at` is as far as the construction has
/// come: without edges while it waits in the queue, with all its edges once
/// it has left the queue and is not the state `current` being worked on.
spec fn settled<T>(
    nfa: Nfa<T>,
    dfa: Dfa<T>,
    sets: Seq<Set<StateId>>,
    queue: Seq<DfaStateId>,
    current: int,
    at: DfaStateId,
) -> bool {
    if queue.contains(at) {
        dfa.states()[at as int]@.len() == 0
    } else {
        at != current ==> state_complete(nfa, dfa, sets, at as int)
    }
}

/// What holds of the construction at every step: the records number the
/// states of `dfa` and stand for distinct sets, the first for what `nfa`
/// reaches from its start state without input; every edge made so far is
/// sound; every state but the first is led to from an earlier one; and each
/// state is settled.
spec fn building<T>(
    nfa: Nfa<T>,
    dfa: Dfa<T>,
    records: Seq<DfaState>,
    queue: Seq<DfaStateId>,
    current: int,
) -> bool {
    let sets = record_sets(records);
    &&& nfa.start() is Some
    &&& numbered(dfa, records)
    &&& records.len() >= 1
    &&& dfa.start() == Some(0usize)
    &&& dfa.goals() == Set::<DfaStateId>::empty()
    &&& sets[0] == nfa.epsilon_closure(nfa.start_set())
    &&& forall|i: int, j: int| 0 <= i < j < sets.len() ==> sets[i] != sets[j]
    &&& forall|i: int| 0 <= i < sets.len() ==> (#[trigger] sets[i]).subset_of(nfa.universe())
    &&& queue.no_duplicates()
    &&& forall|k: int| 0 <= k < queue.len() ==> (#[trigger] queue[k]) < records.len()
    &&& forall|at: int| 0 <= at < sets.len() ==> #[trigger] state_sound(nfa, dfa, sets, at)
    &&& forall|at: int| 1 <= at < sets.len() ==> #[trigger] entered(dfa, at)
    &&& forall|at: DfaStateId|
        at < sets.len() ==> #[trigger] settled(nfa, dfa, sets, queue, current, at)
}

/// Seating the set that an edge of the state `id` leads to, and then making
/// the edge, keeps the construction as it should be, and adds the edge at
/// the end of the state's edges.
proof fn lemma_edge_built<T>(
    nfa: Nfa<T>,
    dfa0: Dfa<T>,
    records0: Seq<DfaState>,
    queue0: Seq<DfaStateId>,
    dfa1: Dfa<T>,
    records1: Seq<DfaState>,
    queue1: Seq<DfaStateId>,
    dfa2: Dfa<T>,
    id: DfaStateId,
    edge: T,
    to: DfaStateId,
)
    requires
        building(nfa, dfa0, records0, queue0, id as int),
        id < records0.len(),
        !queue0.contains(id),
        !has_edge(dfa0.states()[id as int]@, edge),
        seated(
            dfa0,
            records0,
            queue0,
            dfa1,
            records1,
            queue1,
            nfa.epsilon_closure(nfa.moves(records0[id as int].members(), edge)),
            to,
        ),
        dfa1.linked(dfa2, id, edge, to),
    ensures
        building(nfa, dfa2, records1, queue1, id as int),
        !queue1.contains(id),
        records1[id as int] == records0[id as int],
        dfa2.states()[id as int]@ == dfa0.states()[id as int]@.push((edge, to)),
{
    let sets0 = record_sets(records0);
    let sets1 = record_sets(records1);
    let n0 = records0.len() as int;
    let target = nfa.epsilon_closure(nfa.moves(records0[id as int].members(), edge));
    let fresh = to >= n0;
    assert(forall|i: int| 0 <= i < n0 ==> records1[i] == records0[i]) by {
        if fresh {
            assert forall|i: int| 0 <= i < n0 implies records1[i] == records0[i] by {
                assert(records1.take(to as int)[i] == records1[i]);
            }
        }
    }
    assert(forall|i: int| 0 <= i < n0 ==> dfa1.states()[i] == dfa0.states()[i]) by {
        if fresh {
            assert forall|i: int| 0 <= i < n0 implies dfa1.states()[i] == dfa0.states()[i] by {
                assert(dfa1.states().take(to as int)[i] == dfa1.states()[i]);
            }
        }
    }
    assert(forall|i: int| 0 <= i < n0 ==> sets1[i] == sets0[i]);
    assert(sets1[to as int] == target);
    assert(dfa1.has_state(id));
    assert(dfa1.states()[id as int] == dfa0.states()[id as int]);
    let before = dfa0.states()[id as int]@;
    let after = dfa2.states()[id as int]@;
    assert(after == before.push((edge, to)));
    assert forall|i: int, j: int| 0 <= i < j < sets1.len() implies sets1[i] != sets1[j] by {
        if j < n0 {
            assert(sets0[i] != sets0[j]);
        } else {
            assert(records0[i].members() != target);
        }
    }
    assert forall|i: int| 0 <= i < sets1.len() implies (#[trigger] sets1[i]).subset_of(
        nfa.universe(),
    ) by {
        if i < n0 {
            assert(sets0[i].subset_of(nfa.universe()));
        } else {
            nfa.lemma_moves_within(records0[id as int].members(), edge);
            nfa.lemma_closure_within(nfa.moves(records0[id as int].members(), edge));
        }
    }
    assert(queue1.no_duplicates()) by {
        if fresh {
            assert forall|k: int| 0 <= k < queue0.len() implies queue0[k] != to by {
                assert(queue0[k] < records0.len());
            }
        }
    }
    assert forall|k: int| 0 <= k < queue1.len() implies (#[trigger] queue1[k]) < records1.len() by {
        if k < queue0.len() {
            assert(queue0[k] < records0.len());
        }
    }
    assert(!queue1.contains(id));
    assert forall|at: int| 0 <= at < sets1.len() implies #[trigger] state_sound(
        nfa,
        dfa2,
        sets1,
        at,
    ) by {
        if at < n0 {
            assert(state_sound(nfa, dfa0, sets0, at));
            if at == id {
                assert forall|k: int| 0 <= k < after.len() implies edge_sound(
                    nfa,
                    sets1,
                    at,
                    #[trigger] after[k],
                ) by {
                    if k < before.len() {
                        assert(edge_sound(nfa, sets0, at, before[k]));
                    }
                }
            } else {
                assert(dfa2.states()[at] == dfa0.states()[at]);
                assert forall|k: int| 0 <= k < dfa2.states()[at]@.len() implies edge_sound(
                    nfa,
                    sets1,
                    at,
                    #[trigger] dfa2.states()[at]@[k],
                ) by {
                    assert(edge_sound(nfa, sets0, at, dfa0.states()[at]@[k]));
                }
            }
        } else {
            assert(dfa2.states()[at] == dfa1.states()[at]);
        }
    }
    assert forall|at: int| 1 <= at < sets1.len() implies #[trigger] entered(dfa2, at) by {
        if at < n0 {
            assert(entered(dfa0, at));
            let (from, k) = choose|from: int, k: int|
                0 <= from < at && 0 <= k < dfa0.states()[from]@.len() && (
                #[trigger] dfa0.states()[from]@[k]).1 == at;
            if from == id {
                assert(after[k] == before[k]);
            } else {
                assert(dfa2.states()[from] == dfa0.states()[from]);
            }
            assert(dfa2.states()[from]@[k].1 == at);
        } else {
            assert(after[before.len() as int].1 == at);
            assert(dfa2.states()[id as int]@[before.len() as int].1 == at);
        }
    }
    assert forall|at: DfaStateId| at < sets1.len() implies #[trigger] settled(
        nfa,
        dfa2,
        sets1,
        queue1,
        id as int,
        at,
    ) by {
        if at < n0 {
            assert(settled(nfa, dfa0, sets0, queue0, id as int, at));
            if at != id {
                assert(dfa2.states()[at as int] == dfa0.states()[at as int]);
                if queue0.contains(at) {
                    let k = choose|k: int| 0 <= k < queue0.len() && queue0[k] == at;
                    assert(queue1[k] == at);
                } else {
                    assert(!queue1.contains(at)) by {
                        if queue1.contains(at) {
                            let k = choose|k: int| 0 <= k < queue1.len() && queue1[k] == at;
                            if k < queue0.len() {
                                assert(queue0[k] == at);
                            }
                        }
                    }
                    assert(state_complete(nfa, dfa0, sets0, at as int));
                    assert(state_complete(nfa, dfa2, sets1, at as int));
                }
            }
        } else {
            assert(queue1[queue0.len() as int] == at);
            assert(dfa2.states()[at as int] == dfa1.states()[at as int]);
        }
    }
}

/// The deterministic automaton that accepts what `nfa` accepts, made by
/// the subset construction from the start state of `nfa`.
pub fn process<T: Copy + Eq>(nfa: &Nfa<T>) -> (dfa: Dfa<T>)
    requires
        decides_equality::<T>(),
        nfa.start() is Some,
    ensures
        exists|sets: Seq<Set<StateId>>| determinizes(*nfa, dfa, sets),
        forall|input: Seq<T>| #[trigger] dfa.accepts(input) == nfa.accepts(input),
{
    let mut dfa = Dfa::new();
    let start = nfa.start_id().unwrap();
    let mut seed = StateSet::new();
    seed.insert(start);
    let first = DfaState::new(dfa.add_state().id(), closure(nfa, &seed));
    dfa.set_start(first.id);
    let mut queue: Vec<DfaStateId> = Vec::new();
    queue.push(first.id);
    let mut states: Vec<DfaState> = Vec::new();
    states.push(first);
    let ghost all = nfa.universe();
    proof {
        nfa.lemma_targets_finite();
        assert(seed@ =~= nfa.start_set());
        nfa.lemma_closure_within(nfa.start_set());
        let sets = record_sets(states@);
        assert(dfa.states().len() == 1);
        assert(dfa.states()[0].spec_id() == 0);
        assert(dfa.states()[0]@.len() == 0);
        assert(state_sound(*nfa, dfa, sets, 0));
        assert(queue@[0] == 0);
        assert(settled(*nfa, dfa, sets, queue@, -1, 0usize));
    }
    while queue.len() > 0
        invariant
            decides_equality::<T>(),
            all == nfa.universe(),
            all.finite(),
            building(*nfa, dfa, states@, queue@, -1),
        decreases subsets(all).len() - states@.len(), queue@.len(),
    {
        let ghost records0 = states@;
        let ghost queue0 = queue@;
        let id = queue.pop().unwrap();
        proof {
            assert(queue0[queue0.len() - 1] == id);
            assert(queue@ =~= queue0.drop_last());
            assert(!queue@.contains(id)) by {
                if queue@.contains(id) {
                    let k = choose|k: int| 0 <= k < queue@.len() && queue@[k] == id;
                    assert(queue0[k] == queue0[queue0.len() - 1]);
                }
            }
            assert forall|at: DfaStateId| at < states@.len() implies #[trigger] settled(
                *nfa,
                dfa,
                record_sets(states@),
                queue@,
                id as int,
                at,
            ) by {
                assert(settled(*nfa, dfa, record_sets(states@), queue0, -1, at));
                if queue0.contains(at) && at != id {
                    let k = choose|k: int| 0 <= k < queue0.len() && queue0[k] == at;
                    assert(k != queue0.len() - 1);
                    assert(queue@[k] == queue0[k]);
                }
            }
            assert(settled(*nfa, dfa, record_sets(states@), queue0, -1, id));
        }
        let ghost from = states@[id as int].members();
        let ghost base = queue@.len();
        let edges = get_edges(nfa, &states[id].states);
        let mut j: usize = 0;
        while j < edges.len()
            invariant
                decides_equality::<T>(),
                all == nfa.universe(),
                all.finite(),
                building(*nfa, dfa, states@, queue@, id as int),
                id < states@.len(),
                !queue@.contains(id),
                states@[id as int].members() == from,
                edges@.no_duplicates(),
                forall|a: T| edges@.contains(a) <==> nfa.alphabet(from).contains(a),
                j <= edges@.len(),
                dfa.states()[id as int]@.len() == j,
                forall|k: int| 0 <= k < j ==> (#[trigger] dfa.states()[id as int]@[k]).0 == edges@[k],
                records0.len() <= states@.len(),
                states@.len() - records0.len() == queue@.len() - base,
            decreases edges@.len() - j,
        {
            let edge = edges[j];
            let moved = get_move(nfa, &states[id].states, edge);
            let target = closure(nfa, &moved);
            let ghost dfa0 = dfa;
            let ghost records1 = states@;
            let ghost queue1 = queue@;
            let to = seat(&mut dfa, &mut states, &mut queue, target);
            let ghost dfa1 = dfa;
            dfa.link(id, edge, to);
            proof {
                assert(!has_edge(dfa0.states()[id as int]@, edge)) by {
                    if has_edge(dfa0.states()[id as int]@, edge) {
                        let k = choose|k: int|
                            0 <= k < dfa0.states()[id as int]@.len() && dfa0.states()[id as int]@[k].0
                                == edge;
                        assert(edges@[k] == edges@[j as int]);
                    }
                }
                lemma_edge_built(
                    *nfa,
                    dfa0,
                    records1,
                    queue1,
                    dfa1,
                    states@,
                    queue@,
                    dfa,
                    id,
                    edge,
                    to,
                );
            }
            j += 1;
        }
        proof {
            let sets = record_sets(states@);
            assert(state_complete(*nfa, dfa, sets, id as int)) by {
                let made = dfa.states()[id as int]@;
                assert forall|a: T| has_edge(made, a) <==> #[trigger] nfa.alphabet(
                    sets[id as int],
                ).contains(a) by {
                    if has_edge(made, a) {
                        let k = choose|k: int| 0 <= k < made.len() && made[k].0 == a;
                        assert(edges@[k] == a);
                    }
                    if edges@.contains(a) {
                        let k = choose|k: int| 0 <= k < edges@.len() && edges@[k] == a;
                        assert(made[k].0 == a);
                    }
                }
            }
            assert forall|at: DfaStateId| at < states@.len() implies #[trigger] settled(
                *nfa,
                dfa,
                sets,
                queue@,
                -1,
                at,
            ) by {
                assert(settled(*nfa, dfa, sets, queue@, id as int, at));
            }
            lemma_distinct_subsets(sets, all);
        }
    }
    let ghost built = dfa;
    mark_goals(nfa, &mut dfa, &states);
    proof {
        let sets = record_sets(states@);
        assert forall|at: int| 0 <= at < sets.len() implies #[trigger] state_sound(
            *nfa,
            dfa,
            sets,
            at,
        ) by {
            assert(state_sound(*nfa, built, sets, at));
        }
        assert forall|at: int| 0 <= at < sets.len() implies #[trigger] state_complete(
            *nfa,
            dfa,
            sets,
            at,
        ) by {
            assert(settled(*nfa, built, sets, queue@, -1, at as DfaStateId));
            assert(!queue@.contains(at as DfaStateId));
            assert(state_complete(*nfa, built, sets, at));
        }
        assert forall|at: int| 1 <= at < sets.len() implies #[trigger] entered(dfa, at) by {
            assert(entered(built, at));
        }
        assert(determinizes(*nfa, dfa, sets));
        assert forall|input: Seq<T>| #[trigger] dfa.accepts(input) == nfa.accepts(input) by {
            lemma_same_language(*nfa, dfa, sets, input);
        }
    }
    dfa
}

} // verus!
