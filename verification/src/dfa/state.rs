//! States of a deterministic automaton: every label leads to one state.

pub use crate::nfa::state::StateId;
use crate::nfa::state::{decides_equality, same_value};
use vstd::prelude::*;

verus! {

/// The label of an edge: an element of the alphabet.
pub type StateEdge<T> = T;

/// The outgoing edges of a state: one entry per label, each with the state
/// that the label leads to.
pub type EdgeList<T> = Seq<(StateEdge<T>, StateId)>;

/// Whether some entry of `edges` carries `label`.
pub open spec fn has_label<T>(edges: EdgeList<T>, label: StateEdge<T>) -> bool {
    exists|i: int| 0 <= i < edges.len() && edges[i].0 == label
}

/// The position of the entry that carries `label`, if there is one.
pub open spec fn label_index<T>(edges: EdgeList<T>, label: StateEdge<T>) -> Option<int> {
    if has_label(edges, label) {
        Some(choose|i: int| 0 <= i < edges.len() && edges[i].0 == label)
    } else {
        None
    }
}

/// Whether no two entries of `edges` carry the same label.
pub open spec fn distinct_labels<T>(edges: EdgeList<T>) -> bool {
    forall|i: int, j: int| 0 <= i < j < edges.len() ==> edges[i].0 != edges[j].0
}

/// The state that `label` leads to, if an entry carries it.
pub open spec fn target_of<T>(edges: EdgeList<T>, label: StateEdge<T>) -> Option<StateId> {
    match label_index(edges, label) {
        Some(i) => Some(edges[i].1),
        None => None,
    }
}

/// Whether `after` is `before` with the edge labelled `label` set to lead to
/// `id`: the entry of that label now holds `id`, or, where there was none, a
/// new entry stands at the end.
pub open spec fn edge_set<T>(
    before: EdgeList<T>,
    after: EdgeList<T>,
    label: StateEdge<T>,
    id: StateId,
) -> bool {
    match label_index(before, label) {
        Some(i) => after == before.update(i, (label, id)),
        None => after == before.push((label, id)),
    }
}

/// Where labels are distinct, every entry is what its label leads to.
pub proof fn lemma_target_of_entry<T>(edges: EdgeList<T>, i: int)
    requires
        distinct_labels(edges),
        0 <= i < edges.len(),
    ensures
        label_index(edges, edges[i].0) == Some(i),
        target_of(edges, edges[i].0) == Some(edges[i].1),
{
    let k = label_index(edges, edges[i].0).unwrap();
    if k < i {
        assert(edges[k].0 != edges[i].0);
    } else if i < k {
        assert(edges[i].0 != edges[k].0);
    }
}

/// Setting an edge makes its label lead to the new target, keeps every
/// other label as it was, and keeps labels distinct.
pub proof fn lemma_edge_set<T>(
    before: EdgeList<T>,
    after: EdgeList<T>,
    label: StateEdge<T>,
    id: StateId,
)
    requires
        distinct_labels(before),
        edge_set(before, after, label, id),
    ensures
        distinct_labels(after),
        target_of(after, label) == Some(id),
        forall|other: StateEdge<T>|
            other != label ==> target_of(after, other) == target_of(before, other),
        forall|other: StateEdge<T>|
            has_label(after, other) <==> (other == label || has_label(before, other)),
{
    let n = before.len() as int;
    let at = label_index(before, label);
    let k = if at is Some {
        at.unwrap()
    } else {
        n
    };
    assert(after[k] == (label, id));
    assert(forall|j: int| 0 <= j < n && j != k ==> after[j] == before[j]);
    assert forall|i: int, j: int| 0 <= i < j < after.len() implies after[i].0 != after[j].0 by {
        if i != k && j != k {
            assert(before[i].0 != before[j].0);
        } else if at is Some {
            if i == k {
                assert(before[i].0 != before[j].0);
            } else {
                assert(before[i].0 != before[j].0);
            }
        } else {
            assert(before[i].0 != label);
        }
    }
    lemma_target_of_entry(after, k);
    assert forall|other: StateEdge<T>|
        has_label(after, other) <==> (other == label || has_label(before, other)) by {
        if has_label(after, other) {
            let j = choose|j: int| 0 <= j < after.len() && after[j].0 == other;
            if j != k {
                assert(before[j].0 == other);
            }
        }
        if has_label(before, other) {
            let j = choose|j: int| 0 <= j < before.len() && before[j].0 == other;
            if j != k {
                assert(after[j].0 == other);
            } else {
                assert(before[k].0 == label);
            }
        }
    }
    assert forall|other: StateEdge<T>| other != label implies target_of(after, other)
        == target_of(before, other) by {
        if has_label(before, other) {
            let j = label_index(before, other).unwrap();
            assert(j != k);
            assert(after[j] == before[j]);
            lemma_target_of_entry(after, j);
        }
    }
}

/// A state of a deterministic automaton: its identifier and its outgoing
/// edges, in the order in which their labels were first used.
#[derive(Debug)]
pub struct State<T> {
    id: StateId,
    edges: Edges<T>,
}

/// The labels of a state's edges and, at the same positions, the states
/// that they lead to.
#[derive(Debug)]
struct Edges<T> {
    labels: Vec<StateEdge<T>>,
    targets: Vec<StateId>,
}

impl<T> View for State<T> {
    type V = EdgeList<T>;

    closed spec fn view(&self) -> EdgeList<T> {
        Seq::new(self.edges.labels@.len(), |i: int| (self.edges.labels@[i], self.edges.targets@[i]))
    }
}

impl<T> State<T> {
    /// The identifier that the state was made with.
    pub closed spec fn spec_id(&self) -> StateId {
        self.id
    }

    #[verifier::type_invariant]
    spec fn inv(&self) -> bool {
        &&& self.edges.labels@.len() == self.edges.targets@.len()
        &&& forall|i: int, j: int|
            0 <= i < j < self.edges.labels@.len() ==> self.edges.labels@[i]
                != self.edges.labels@[j]
    }

    /// A state without edges.
    pub fn new(id: StateId) -> (state: State<T>)
        ensures
            state.spec_id() == id,
            state@ == EdgeList::<T>::empty(),
    {
        let state = State { id, edges: Edges { labels: Vec::new(), targets: Vec::new() } };
        assert(state@ =~= EdgeList::<T>::empty());
        state
    }

    /// The state's identifier.
    pub fn id(&self) -> (id: StateId)
        ensures
            id == self.spec_id(),
    {
        self.id
    }

    /// The outgoing edges in order, one entry per label.
    pub fn edges_iter(&self) -> (edges: Vec<(&StateEdge<T>, StateId)>)
        ensures
            distinct_labels(self@),
            edges@.len() == self@.len(),
            forall|i: int|
                0 <= i < edges@.len() ==> *(#[trigger] edges@[i]).0 == self@[i].0 && edges@[i].1
                    == self@[i].1,
    {
        proof {
            use_type_invariant(self);
        }
        let mut edges: Vec<(&StateEdge<T>, StateId)> = Vec::new();
        let mut i: usize = 0;
        while i < self.edges.labels.len()
            invariant
                i <= self.edges.labels@.len(),
                self.edges.labels@.len() == self.edges.targets@.len(),
                edges@.len() == i,
                forall|k: int|
                    0 <= k < i ==> *(#[trigger] edges@[k]).0 == self.edges.labels@[k]
                        && edges@[k].1 == self.edges.targets@[k],
            decreases self.edges.labels@.len() - i,
        {
            let ghost before = edges@;
            edges.push((&self.edges.labels[i], self.edges.targets[i]));
            assert(forall|k: int| 0 <= k < i ==> edges@[k] == before[k]);
            i += 1;
        }
        edges
    }
}

impl<T: Copy + Eq> State<T> {
    /// The position of the entry that carries `edge`.
    fn position(&self, edge: StateEdge<T>) -> (at: Option<usize>)
        requires
            decides_equality::<T>(),
        ensures
            distinct_labels(self@),
            match at {
                Some(i) => label_index(self@, edge) == Some(i as int) && i < self@.len(),
                None => !has_label(self@, edge),
            },
    {
        proof {
            use_type_invariant(self);
        }
        let mut i: usize = 0;
        while i < self.edges.labels.len()
            invariant
                i <= self.edges.labels@.len(),
                decides_equality::<T>(),
                distinct_labels(self@),
                self@.len() == self.edges.labels@.len(),
                forall|k: int| 0 <= k < i ==> self@[k].0 != edge,
            decreases self.edges.labels@.len() - i,
        {
            if same_value(&self.edges.labels[i], &edge) {
                proof {
                    assert(self@[i as int].0 == edge);
                    lemma_target_of_entry(self@, i as int);
                }
                return Some(i);
            }
            i += 1;
        }
        None
    }

    /// The state that `edge` leads to, where the state has an edge with
    /// that label.
    pub fn get_edge(&self, edge: StateEdge<T>) -> (found: Option<&StateId>)
        requires
            decides_equality::<T>(),
        ensures
            distinct_labels(self@),
            match found {
                Some(id) => target_of(self@, edge) == Some(*id),
                None => target_of(self@, edge) == None::<StateId>,
            },
    {
        proof {
            use_type_invariant(self);
        }
        match self.position(edge) {
            Some(i) => Some(&self.edges.targets[i]),
            None => None,
        }
    }

    /// The same target, open to change.
    pub fn get_edge_mut(&mut self, edge: StateEdge<T>) -> (found: Option<&mut StateId>)
        requires
            decides_equality::<T>(),
        ensures
            distinct_labels(old(self)@),
            final(self).spec_id() == old(self).spec_id(),
            match found {
                Some(id) => target_of(old(self)@, edge) == Some(*id) && final(self)@ == old(
                    self,
                )@.update(label_index(old(self)@, edge).unwrap(), (edge, *final(id))),
                None => !has_label(old(self)@, edge) && final(self)@ == old(self)@,
            },
    {
        proof {
            use_type_invariant(&*self);
        }
        match self.position(edge) {
            Some(i) => Some(&mut self.edges.targets[i]),
            None => None,
        }
    }

    /// Makes the edge labelled `edge` lead to the state `id`: the entry of
    /// that label is overwritten where the state has one, else a new entry
    /// is added at the end.
    pub fn add_edge(&mut self, edge: StateEdge<T>, id: StateId)
        requires
            decides_equality::<T>(),
        ensures
            final(self).spec_id() == old(self).spec_id(),
            distinct_labels(old(self)@),
            distinct_labels(final(self)@),
            edge_set(old(self)@, final(self)@, edge, id),
    {
        proof {
            use_type_invariant(&*self);
        }
        let ghost before = self@;
        if let Some(target) = self.get_edge_mut(edge) {
            *target = id;
            proof {
                lemma_edge_set(before, before.update(label_index(before, edge).unwrap(), (edge, id)), edge, id);
            }
            return ;
        }
        proof {
            use_type_invariant(&*self);
        }
        let mut edges = Edges { labels: Vec::new(), targets: Vec::new() };
        std::mem::swap(&mut edges, &mut self.edges);
        assert(forall|k: int| 0 <= k < before.len() ==> before[k] == (edges.labels@[k], edges.targets@[k]));
        edges.labels.push(edge);
        edges.targets.push(id);
        proof {
            let labels = edges.labels@;
            assert forall|i: int, j: int| 0 <= i < j < labels.len() implies labels[i] != labels[j] by {
                if j == labels.len() - 1 {
                    assert(before[i].0 != edge);
                } else {
                    assert(before[i].0 != before[j].0);
                }
            }
        }
        self.edges = edges;
        assert(self@ =~= before.push((edge, id)));
        proof {
            lemma_edge_set(before, self@, edge, id);
        }
    }
}

impl<T: Copy> Clone for State<T> {
    fn clone(&self) -> (copy: Self)
        ensures
            copy.spec_id() == self.spec_id(),
            copy@ == self@,
    {
        proof {
            use_type_invariant(self);
        }
        let mut labels: Vec<StateEdge<T>> = Vec::new();
        let mut targets: Vec<StateId> = Vec::new();
        let mut i: usize = 0;
        while i < self.edges.labels.len()
            invariant
                i <= self.edges.labels@.len(),
                self.edges.labels@.len() == self.edges.targets@.len(),
                labels@ == self.edges.labels@.take(i as int),
                targets@ == self.edges.targets@.take(i as int),
            decreases self.edges.labels@.len() - i,
        {
            labels.push(self.edges.labels[i]);
            targets.push(self.edges.targets[i]);
            proof {
                assert(labels@ =~= self.edges.labels@.take(i + 1));
                assert(targets@ =~= self.edges.targets@.take(i + 1));
            }
            i += 1;
        }
        assert(labels@ =~= self.edges.labels@);
        assert(targets@ =~= self.edges.targets@);
        let copy = State { id: self.id, edges: Edges { labels, targets } };
        assert(copy@ =~= self@);
        copy
    }
}

} // verus!
