//! Nondeterministic automata: states with labelled edges, one optional start
//! state and a set of goal states.

pub mod closure;
pub mod graph;
pub mod simulation;
pub mod state;
pub mod subset;

use self::state::{
    decides_equality, edge_added, same_edges, targets_of, EdgeList, State, StateEdge, StateId,
};
use crate::set::{ascending, StateSet};
use vstd::prelude::*;

verus! {

/// A nondeterministic automaton over the alphabet `T`.
#[derive(Debug)]
pub struct Nfa<T> {
    states: Vec<State<T>>,
    start: Option<StateId>,
    goals: StateSet,
}

impl<T> Nfa<T> {
    /// The states, each at the position of the identifier it is kept under.
    pub closed spec fn states(&self) -> Seq<State<T>> {
        self.states@
    }

    /// The start state's identifier, once one is set.
    pub closed spec fn start(&self) -> Option<StateId> {
        self.start
    }

    /// The identifiers of the goal states.
    pub closed spec fn goals(&self) -> Set<StateId> {
        self.goals@
    }

    /// The identifiers of the goal states in ascending order.
    pub closed spec fn goal_seq(&self) -> Seq<StateId> {
        self.goals.seq()
    }

    /// Whether a state is kept under `id`.
    pub open spec fn has_state(&self, id: StateId) -> bool {
        id < self.states().len()
    }

    /// The states that one edge labelled `label` leads to from `from`; none
    /// where `from` names no state.
    pub open spec fn step(&self, from: StateId, label: StateEdge<T>) -> Set<StateId> {
        if self.has_state(from) {
            targets_of(self.states()[from as int]@, label)
        } else {
            Set::empty()
        }
    }

    /// Whether `after` is this automaton with one more edge, labelled `edge`,
    /// from the state `from` to `to`, and nothing else changed; where no
    /// state is kept under `from`, whether nothing changed at all.
    pub open spec fn linked(self, after: Nfa<T>, from: StateId, edge: StateEdge<T>, to: StateId) -> bool {
        &&& after.start() == self.start()
        &&& after.goals() == self.goals()
        &&& after.states().len() == self.states().len()
        &&& forall|id: int|
            0 <= id < self.states().len() && id != from ==> after.states()[id] == self.states()[id]
        &&& self.has_state(from) ==> {
            &&& after.states()[from as int].spec_id() == self.states()[from as int].spec_id()
            &&& edge_added(self.states()[from as int]@, after.states()[from as int]@, edge, to)
        }
    }

    #[verifier::type_invariant]
    spec fn inv(&self) -> bool {
        &&& self.start matches Some(s) ==> s < self.states@.len()
        &&& forall|g: StateId| self.goals@.contains(g) ==> g < self.states@.len()
    }

    /// The start state's identifier, once one is set.
    pub fn start_id(&self) -> (start: Option<StateId>)
        ensures
            start == self.start(),
            start matches Some(id) ==> self.has_state(id),
    {
        proof {
            use_type_invariant(self);
        }
        self.start
    }

    /// The identifiers of the goal states.
    pub fn goal_ids(&self) -> (goals: &StateSet)
        ensures
            goals@ == self.goals(),
            goals.seq() == self.goal_seq(),
            forall|id: StateId| self.goals().contains(id) ==> self.has_state(id),
    {
        proof {
            use_type_invariant(self);
        }
        &self.goals
    }

    /// The start state, once one is set.
    pub fn get_start(&self) -> (state: Option<&State<T>>)
        ensures
            state == match self.start() {
                Some(id) => Some(&self.states()[id as int]),
                None => None,
            },
            self.start() matches Some(id) ==> self.has_state(id),
    {
        proof {
            use_type_invariant(self);
        }
        match self.start {
            Some(id) => self.get_state(id),
            None => None,
        }
    }

    /// The goal states, in ascending order of their identifiers.
    pub fn get_goals(&self) -> (states: Vec<&State<T>>)
        ensures
            ascending(self.goal_seq()),
            self.goal_seq().to_set() == self.goals(),
            states@.len() == self.goal_seq().len(),
            forall|i: int| 0 <= i < states@.len() ==> self.has_state(#[trigger] self.goal_seq()[i]),
            forall|i: int|
                0 <= i < states@.len() ==> *(#[trigger] states@[i]) == self.states()[self.goal_seq()[i] as int],
    {
        proof {
            use_type_invariant(self);
        }
        let n = self.goals.len();
        let mut states: Vec<&State<T>> = Vec::new();
        let mut i: usize = 0;
        while i < n
            invariant
                i <= n,
                n == self.goals.seq().len(),
                states@.len() == i,
                forall|g: StateId| self.goals@.contains(g) ==> g < self.states@.len(),
                forall|k: int|
                    0 <= k < i ==> *(#[trigger] states@[k]) == self.states@[self.goals.seq()[k] as int],
            decreases n - i,
        {
            let id = self.goals.at(i);
            let ghost before = states@;
            match self.get_state(id) {
                Some(state) => {
                    states.push(state);
                },
                None => {},
            }
            assert forall|k: int| 0 <= k < i + 1 implies *(#[trigger] states@[k])
                == self.states@[self.goals.seq()[k] as int] by {
                if k < i {
                    assert(states@[k] == before[k]);
                }
            }
            i += 1;
        }
        proof {
            assert forall|k: int| 0 <= k < states@.len() implies self.has_state(
                #[trigger] self.goal_seq()[k],
            ) by {
                let id = self.goals.seq()[k];
                assert(self.goals.seq().contains(id));
                assert(self.goals@.contains(id));
                assert(id < self.states@.len());
            }
        }
        states
    }

    /// Every state with the identifier that it is kept under, in ascending
    /// order of the identifiers.
    pub fn states_iter(&self) -> (states: Vec<(StateId, &State<T>)>)
        ensures
            states@.len() == self.states().len(),
            forall|i: int|
                0 <= i < states@.len() ==> (#[trigger] states@[i]).0 == i && *states@[i].1
                    == self.states()[i],
    {
        let mut states: Vec<(StateId, &State<T>)> = Vec::new();
        let mut i: usize = 0;
        while i < self.states.len()
            invariant
                i <= self.states@.len(),
                states@.len() == i,
                forall|k: int|
                    0 <= k < i ==> (#[trigger] states@[k]).0 == k && *states@[k].1 == self.states@[k],
            decreases self.states@.len() - i,
        {
            let ghost before = states@;
            states.push((i, &self.states[i]));
            assert(forall|k: int| 0 <= k < i ==> states@[k] == before[k]);
            i += 1;
        }
        states
    }

    /// An automaton without states.
    pub fn new() -> (nfa: Nfa<T>)
        ensures
            nfa.states() == Seq::<State<T>>::empty(),
            nfa.start() == None::<StateId>,
            nfa.goals() == Set::<StateId>::empty(),
    {
        Nfa { states: Vec::new(), start: None, goals: StateSet::new() }
    }

    /// Adds a state without edges under the lowest identifier not in use,
    /// found by trying the identifiers from the number of states upward,
    /// and hands it out.
    pub fn add_state(&mut self) -> (state: &mut State<T>)
        ensures
            state.spec_id() == old(self).states().len(),
            !old(self).has_state(state.spec_id()),
            forall|id: StateId| id < state.spec_id() ==> old(self).has_state(id),
            state@ == EdgeList::<T>::empty(),
            final(self).states() == old(self).states().push(*final(state)),
            final(self).start() == old(self).start(),
            final(self).goals() == old(self).goals(),
    {
        proof {
            use_type_invariant(&*self);
        }
        let mut id = self.states.len();
        while self.get_state(id).is_some()
            invariant
                *self == *old(self),
                self.states@.len() <= id,
                forall|below: StateId| self.states@.len() <= below < id ==> self.has_state(below),
            decreases usize::MAX - id,
        {
            id += 1;
        }
        proof {
            use_type_invariant(&*self);
            if id > self.states@.len() {
                assert(self.has_state(self.states@.len() as StateId));
            }
        }
        let mut whole = Nfa::new();
        std::mem::swap(self, &mut whole);
        let Nfa { mut states, start, goals } = whole;
        states.push(State::new(id));
        *self = Nfa { states, start, goals };
        &mut self.states[id]
    }

    /// The state kept under `id`.
    pub fn get_state(&self, id: StateId) -> (state: Option<&State<T>>)
        ensures
            state == if self.has_state(id) {
                Some(&self.states()[id as int])
            } else {
                None
            },
    {
        if id < self.states.len() {
            Some(&self.states[id])
        } else {
            None
        }
    }

    /// The state kept under `id`, open to change.
    pub fn get_state_mut(&mut self, id: StateId) -> (state: Option<&mut State<T>>)
        ensures
            final(self).start() == old(self).start(),
            final(self).goals() == old(self).goals(),
            match state {
                Some(s) => old(self).has_state(id) && *s == old(self).states()[id as int]
                    && final(self).states() == old(self).states().update(id as int, *final(s)),
                None => !old(self).has_state(id) && final(self).states() == old(self).states(),
            },
    {
        proof {
            use_type_invariant(&*self);
        }
        if id < self.states.len() {
            Some(&mut self.states[id])
        } else {
            None
        }
    }

    /// Makes `id` the start state where a state is kept under it; changes
    /// nothing otherwise.
    pub fn set_start(&mut self, id: StateId)
        ensures
            final(self).states() == old(self).states(),
            final(self).goals() == old(self).goals(),
            final(self).start() == if old(self).has_state(id) {
                Some(id)
            } else {
                old(self).start()
            },
    {
        proof {
            use_type_invariant(&*self);
        }
        if id < self.states.len() {
            self.start = Some(id);
        }
    }

    /// Makes `id` a goal state where a state is kept under it; changes
    /// nothing otherwise.
    pub fn add_goal(&mut self, id: StateId)
        ensures
            final(self).states() == old(self).states(),
            final(self).start() == old(self).start(),
            final(self).goals() == if old(self).has_state(id) {
                old(self).goals().insert(id)
            } else {
                old(self).goals()
            },
    {
        proof {
            use_type_invariant(&*self);
        }
        if id < self.states.len() {
            let mut goals = StateSet::new();
            std::mem::swap(&mut goals, &mut self.goals);
            goals.insert(id);
            self.goals = goals;
        }
    }
}

impl<T: Copy + Eq> Nfa<T> {
    /// Adds an edge labelled `edge` from the state `from` to the state `to`.
    /// Changes nothing where no state is kept under `from`; `to` is stored
    /// as it is given.
    pub fn link(&mut self, from: StateId, edge: StateEdge<T>, to: StateId)
        requires
            decides_equality::<T>(),
        ensures
            old(self).linked(*final(self), from, edge, to),
    {
        if let Some(state) = self.get_state_mut(from) {
            state.add_edge(edge, to);
        }
    }
}

impl<T: Copy> Clone for Nfa<T> {
    fn clone(&self) -> (copy: Self)
        ensures
            copy.start() == self.start(),
            copy.goals() == self.goals(),
            copy.goal_seq() == self.goal_seq(),
            copy.states().len() == self.states().len(),
            forall|i: int|
                0 <= i < self.states().len() ==> (#[trigger] copy.states()[i]).spec_id()
                    == self.states()[i].spec_id() && same_edges(copy.states()[i]@, self.states()[i]@),
    {
        proof {
            use_type_invariant(self);
        }
        let mut states: Vec<State<T>> = Vec::new();
        let mut i: usize = 0;
        while i < self.states.len()
            invariant
                i <= self.states@.len(),
                states@.len() == i,
                forall|k: int|
                    0 <= k < i ==> (#[trigger] states@[k]).spec_id() == self.states@[k].spec_id()
                        && same_edges(states@[k]@, self.states@[k]@),
            decreases self.states@.len() - i,
        {
            let ghost before = states@;
            states.push(self.states[i].clone());
            proof {
                assert forall|k: int| 0 <= k < i + 1 implies (#[trigger] states@[k]).spec_id()
                    == self.states@[k].spec_id() && same_edges(states@[k]@, self.states@[k]@) by {
                    if k < i {
                        assert(states@[k] == before[k]);
                    }
                }
            }
            i += 1;
        }
        Nfa { states, start: self.start, goals: self.goals.clone() }
    }
}

} // verus!
