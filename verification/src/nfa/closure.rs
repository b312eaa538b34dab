//! What an automaton reaches without reading input, and what it reaches by
//! reading one element of the alphabet.

use super::state::{
    adjoin, edge_targets, has_label, lemma_adjoin, lemma_bounded_union_finite,
    lemma_edge_targets_finite, lemma_value_labels, value_labels, StateEdge, StateId,
};
use super::Nfa;
use vstd::prelude::*;

verus! {

impl<T> Nfa<T> {
    /// Whether `path` is a walk along edges that read no input: it has a
    /// first state, and every state of it leads to the next by such an edge.
    pub open spec fn silent_path(&self, path: Seq<StateId>) -> bool {
        &&& path.len() > 0
        &&& forall|i: int|
            0 <= i < path.len() - 1 ==> (#[trigger] self.step(path[i], StateEdge::Epsilon)).contains(
                path[i + 1],
            )
    }

    /// Whether a walk along edges that read no input leads from `from` to
    /// `to`; a walk of no edge leads from each state to itself.
    pub open spec fn reaches_silently(&self, from: StateId, to: StateId) -> bool {
        exists|path: Seq<StateId>|
            #[trigger] self.silent_path(path) && path[0] == from && path.last() == to
    }

    /// The states reached from a state of `states` without reading input:
    /// the least set that holds `states` and, with each state, all that its
    /// edges without input lead to.
    pub open spec fn epsilon_closure(&self, states: Set<StateId>) -> Set<StateId> {
        Set::new(
            |to: StateId| exists|from: StateId| states.contains(from) && self.reaches_silently(from, to),
        )
    }

    /// Whether `states` holds, with each of its states, all that the state's
    /// edges without input lead to.
    pub open spec fn closed_silently(&self, states: Set<StateId>) -> bool {
        forall|from: StateId, to: StateId|
            states.contains(from) && #[trigger] self.step(from, StateEdge::Epsilon).contains(to)
                ==> states.contains(to)
    }

    /// The states reached from a state of `states` by one edge labelled
    /// with the element `a`.
    pub open spec fn moves(&self, states: Set<StateId>, a: T) -> Set<StateId> {
        Set::new(
            |to: StateId|
                exists|from: StateId|
                    states.contains(from) && #[trigger] self.step(from, StateEdge::Value(a)).contains(
                        to,
                    ),
        )
    }

    /// The elements of the alphabet that label an edge of a state of
    /// `states`.
    pub open spec fn alphabet(&self, states: Set<StateId>) -> Set<T> {
        Set::new(
            |a: T|
                exists|from: StateId|
                    states.contains(from) && self.has_state(from) && has_label(
                        #[trigger] self.states()[from as int]@,
                        StateEdge::Value(a),
                    ),
        )
    }

    /// The start state as a set: empty while no start state is set.
    pub open spec fn start_set(&self) -> Set<StateId> {
        match self.start() {
            Some(start) => set![start],
            None => Set::empty(),
        }
    }

    /// The states that the automaton may be in after reading `input` from
    /// the start state, edges without input taken freely before and after
    /// each element.
    pub open spec fn run(&self, input: Seq<T>) -> Set<StateId>
        decreases input.len(),
    {
        if input.len() == 0 {
            self.epsilon_closure(self.start_set())
        } else {
            self.epsilon_closure(self.moves(self.run(input.drop_last()), input.last()))
        }
    }

    /// Whether `states` holds a goal state.
    pub open spec fn meets_goals(&self, states: Set<StateId>) -> bool {
        exists|id: StateId| states.contains(id) && self.goals().contains(id)
    }

    /// Whether the automaton may be in a goal state after reading `input`.
    pub open spec fn accepts(&self, input: Seq<T>) -> bool {
        self.meets_goals(self.run(input))
    }

    /// Every state that an automaton can ever be in: its start state and
    /// what its edges lead to.
    pub open spec fn universe(&self) -> Set<StateId> {
        self.start_set().union(self.targets())
    }

    /// A closure adds only states that edges lead to.
    pub proof fn lemma_closure_within(&self, states: Set<StateId>)
        ensures
            self.epsilon_closure(states).subset_of(states.union(self.targets())),
    {
        let bound = states.union(self.targets());
        assert forall|from: StateId, to: StateId|
            bound.contains(from) && #[trigger] self.step(from, StateEdge::Epsilon).contains(
                to,
            ) implies bound.contains(to) by {
            self.lemma_step_in_targets(from, StateEdge::Epsilon);
        }
        self.lemma_closure_least(states, bound);
    }

    /// The closure of no state is no state.
    pub proof fn lemma_closure_of_none(&self)
        ensures
            self.epsilon_closure(Set::empty()) == Set::<StateId>::empty(),
    {
        assert(self.epsilon_closure(Set::empty()) =~= Set::<StateId>::empty());
    }

    /// One edge with input leads only to states that edges lead to, and only
    /// by an element of the alphabet of the states it starts from.
    pub proof fn lemma_moves_within(&self, states: Set<StateId>, a: T)
        ensures
            self.moves(states, a).subset_of(self.targets()),
            !self.alphabet(states).contains(a) ==> self.moves(states, a) == Set::<StateId>::empty(),
    {
        assert forall|to: StateId| self.moves(states, a).contains(to) implies self.targets().contains(
            to,
        ) && self.alphabet(states).contains(a) by {
            let from = choose|from: StateId|
                states.contains(from) && #[trigger] self.step(from, StateEdge::Value(a)).contains(
                    to,
                );
            self.lemma_step_in_targets(from, StateEdge::Value(a));
            let edges = self.states()[from as int]@;
            let i = choose|i: int|
                0 <= i < edges.len() && edges[i].0 == StateEdge::Value(a) && edges[i].1@.contains(to);
            assert(has_label(edges, StateEdge::Value(a)));
        }
        if !self.alphabet(states).contains(a) {
            assert(self.moves(states, a) =~= Set::<StateId>::empty());
        }
    }

    /// The elements of the alphabet that label an edge of a state listed in
    /// `order`, each once: state by state as `order` lists them, and for each
    /// state in the order of its edges.
    pub open spec fn labels_in_order(&self, order: Seq<StateId>) -> Seq<T>
        decreases order.len(),
    {
        if order.len() == 0 {
            Seq::empty()
        } else {
            let seen = self.labels_in_order(order.drop_last());
            if self.has_state(order.last()) {
                adjoin(seen, value_labels(self.states()[order.last() as int]@))
            } else {
                seen
            }
        }
    }

    /// The labels listed in order repeat nothing and are the alphabet of the
    /// states listed.
    pub proof fn lemma_labels_in_order(&self, order: Seq<StateId>)
        ensures
            self.labels_in_order(order).no_duplicates(),
            forall|a: T|
                self.labels_in_order(order).contains(a) <==> self.alphabet(order.to_set()).contains(a),
        decreases order.len(),
    {
        let listed = self.labels_in_order(order);
        if order.len() == 0 {
            assert forall|a: T| !self.alphabet(order.to_set()).contains(a) by {
                if self.alphabet(order.to_set()).contains(a) {
                    let from = choose|from: StateId|
                        order.to_set().contains(from) && self.has_state(from) && has_label(
                            #[trigger] self.states()[from as int]@,
                            StateEdge::Value(a),
                        );
                    assert(order.contains(from));
                }
            }
        } else {
            let fewer = order.drop_last();
            let last = order.last();
            let seen = self.labels_in_order(fewer);
            self.lemma_labels_in_order(fewer);
            if self.has_state(last) {
                lemma_adjoin(seen, value_labels(self.states()[last as int]@));
                lemma_value_labels(self.states()[last as int]@);
            }
            assert forall|a: T| listed.contains(a) <==> self.alphabet(order.to_set()).contains(a) by {
                if listed.contains(a) {
                    if seen.contains(a) {
                        assert(self.alphabet(fewer.to_set()).contains(a));
                        let from = choose|from: StateId|
                            fewer.to_set().contains(from) && self.has_state(from) && has_label(
                                #[trigger] self.states()[from as int]@,
                                StateEdge::Value(a),
                            );
                        assert(fewer.contains(from));
                        let k = choose|k: int| 0 <= k < fewer.len() && fewer[k] == from;
                        assert(order[k] == from);
                        assert(order.contains(from));
                        assert(order.to_set().contains(from));
                        assert(has_label(self.states()[from as int]@, StateEdge::Value(a)));
                    } else {
                        assert(self.has_state(last));
                        assert(value_labels(self.states()[last as int]@).contains(a));
                        assert(order[order.len() - 1] == last);
                        assert(order.contains(last));
                        assert(order.to_set().contains(last));
                        assert(has_label(self.states()[last as int]@, StateEdge::Value(a)));
                    }
                    assert(self.alphabet(order.to_set()).contains(a));
                }
                if self.alphabet(order.to_set()).contains(a) {
                    let from = choose|from: StateId|
                        order.to_set().contains(from) && self.has_state(from) && has_label(
                            #[trigger] self.states()[from as int]@,
                            StateEdge::Value(a),
                        );
                    assert(order.contains(from));
                    let k = choose|k: int| 0 <= k < order.len() && order[k] == from;
                    if k < fewer.len() {
                        assert(fewer[k] == from);
                        assert(fewer.contains(from));
                        assert(fewer.to_set().contains(from));
                        assert(has_label(self.states()[from as int]@, StateEdge::Value(a)));
                        assert(self.alphabet(fewer.to_set()).contains(a));
                        assert(seen.contains(a));
                    } else {
                        assert(from == last);
                        assert(value_labels(self.states()[last as int]@).contains(a));
                    }
                    assert(listed.contains(a));
                }
            }
        }
    }

    /// Every state that some edge of the automaton leads to.
    pub open spec fn targets(&self) -> Set<StateId> {
        Set::new(
            |t: StateId|
                exists|q: int|
                    0 <= q < self.states().len() && edge_targets(self.states()[q]@).contains(t),
        )
    }

    /// The edges of an automaton lead to finitely many states.
    pub proof fn lemma_targets_finite(&self)
        ensures
            self.targets().finite(),
    {
        let parts = Seq::new(self.states().len(), |q: int| edge_targets(self.states()[q]@));
        assert forall|q: int| 0 <= q < parts.len() implies (#[trigger] parts[q]).finite() by {
            lemma_edge_targets_finite(self.states()[q]@);
        }
        lemma_bounded_union_finite(parts);
        assert forall|t: StateId| self.targets().contains(t) implies exists|q: int|
            0 <= q < parts.len() && (#[trigger] parts[q]).contains(t) by {
            let q = choose|q: int|
                0 <= q < self.states().len() && edge_targets(self.states()[q]@).contains(t);
            assert(parts[q].contains(t));
        }
        assert(self.targets() =~= Set::new(
            |t: StateId| exists|q: int| 0 <= q < parts.len() && (#[trigger] parts[q]).contains(t),
        ));
    }

    /// What an edge leads to is among the automaton's targets.
    pub proof fn lemma_step_in_targets(&self, from: StateId, label: StateEdge<T>)
        ensures
            self.step(from, label).subset_of(self.targets()),
    {
        assert forall|t: StateId| self.step(from, label).contains(t) implies self.targets().contains(
            t,
        ) by {
            let edges = self.states()[from as int]@;
            let i = choose|i: int| 0 <= i < edges.len() && edges[i].0 == label && edges[i].1@.contains(t);
            assert(edge_targets(edges).contains(t));
        }
    }

    /// Every state of `states` is in the closure of `states`.
    pub proof fn lemma_closure_extends(&self, states: Set<StateId>)
        ensures
            states.subset_of(self.epsilon_closure(states)),
    {
        assert forall|s: StateId| states.contains(s) implies self.epsilon_closure(states).contains(
            s,
        ) by {
            let path = seq![s];
            assert(self.silent_path(path) && path[0] == s && path.last() == s);
            assert(self.reaches_silently(s, s));
        }
    }

    /// The closure holds, with each of its states, all that the state's
    /// edges without input lead to.
    pub proof fn lemma_closure_closed(&self, states: Set<StateId>)
        ensures
            self.closed_silently(self.epsilon_closure(states)),
    {
        let closure = self.epsilon_closure(states);
        assert forall|from: StateId, to: StateId|
            closure.contains(from) && #[trigger] self.step(from, StateEdge::Epsilon).contains(
                to,
            ) implies closure.contains(to) by {
            let origin = choose|origin: StateId|
                states.contains(origin) && self.reaches_silently(origin, from);
            let path = choose|path: Seq<StateId>|
                #[trigger] self.silent_path(path) && path[0] == origin && path.last() == from;
            let longer = path.push(to);
            assert forall|i: int| 0 <= i < longer.len() - 1 implies (#[trigger] self.step(
                longer[i],
                StateEdge::Epsilon,
            )).contains(longer[i + 1]) by {
                if i < path.len() - 1 {
                    assert(self.step(path[i], StateEdge::Epsilon).contains(path[i + 1]));
                }
            }
            assert(self.silent_path(longer) && longer[0] == origin && longer.last() == to);
            assert(self.reaches_silently(origin, to));
        }
    }

    /// A set that is closed holds every state that a walk reaches from one
    /// of its states.
    proof fn lemma_walk_stays(&self, closed: Set<StateId>, path: Seq<StateId>)
        requires
            self.closed_silently(closed),
            self.silent_path(path),
            closed.contains(path[0]),
        ensures
            closed.contains(path.last()),
        decreases path.len(),
    {
        if path.len() > 1 {
            let shorter = path.drop_last();
            assert forall|i: int| 0 <= i < shorter.len() - 1 implies (#[trigger] self.step(
                shorter[i],
                StateEdge::Epsilon,
            )).contains(shorter[i + 1]) by {
                assert(self.step(path[i], StateEdge::Epsilon).contains(path[i + 1]));
            }
            self.lemma_walk_stays(closed, shorter);
            let k = path.len() - 2;
            assert(self.step(path[k], StateEdge::Epsilon).contains(path[k + 1]));
        }
    }

    /// The closure is the least closed set that holds `states`.
    pub proof fn lemma_closure_least(&self, states: Set<StateId>, closed: Set<StateId>)
        requires
            states.subset_of(closed),
            self.closed_silently(closed),
        ensures
            self.epsilon_closure(states).subset_of(closed),
    {
        assert forall|to: StateId| self.epsilon_closure(states).contains(to) implies closed.contains(
            to,
        ) by {
            let origin = choose|origin: StateId|
                states.contains(origin) && self.reaches_silently(origin, to);
            let path = choose|path: Seq<StateId>|
                #[trigger] self.silent_path(path) && path[0] == origin && path.last() == to;
            self.lemma_walk_stays(closed, path);
        }
    }

    /// Taking the closure of a closure adds nothing.
    pub proof fn lemma_closure_idempotent(&self, states: Set<StateId>)
        ensures
            self.epsilon_closure(self.epsilon_closure(states)) == self.epsilon_closure(states),
    {
        let once = self.epsilon_closure(states);
        self.lemma_closure_closed(states);
        self.lemma_closure_least(once, once);
        self.lemma_closure_extends(once);
        assert(self.epsilon_closure(once) =~= once);
    }
}

} // verus!
