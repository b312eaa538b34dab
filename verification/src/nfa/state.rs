//! States of a nondeterministic automaton and the labels on their edges.

use crate::set::StateSet;
use vstd::prelude::*;
use vstd::string::StringExecFns;

verus! {

/// The name of a state within one automaton.
pub type StateId = usize;

/// The label of an edge: an element of the alphabet, or the marker of a
/// transition that consumes no input.
#[derive(Clone, Copy, Debug, PartialEq, Eq)]
pub enum StateEdge<T> {
    Value(T),
    Epsilon,
}

impl<T> StateEdge<T> {
    /// The text that stands for the label in a drawing, given the text of
    /// the element that it carries: that text for an element, and
    /// `<epsilon>` for the marker of a transition without input.
    pub fn text(&self, value: &str) -> (text: String)
        ensures
            text@ == match *self {
                StateEdge::Value(_) => value@,
                StateEdge::Epsilon => "<epsilon>"@,
            },
    {
        match self {
            StateEdge::Value(_) => String::from_str(value),
            StateEdge::Epsilon => String::from_str("<epsilon>"),
        }
    }
}

/// The outgoing edges of a state: one entry per label, each with the set of
/// states that the label leads to.
pub type EdgeList<T> = Seq<(StateEdge<T>, StateSet)>;

/// Whether some entry of `edges` carries `label`.
pub open spec fn has_label<T>(edges: EdgeList<T>, label: StateEdge<T>) -> bool {
    exists|i: int| 0 <= i < edges.len() && edges[i].0 == label
}

/// The position of the entry that carries `label`, if there is one.
pub open spec fn label_index<T>(edges: EdgeList<T>, label: StateEdge<T>) -> Option<int> {
    if has_label(edges, label) {
        Some(choose|i: int| 0 <= i < edges.len() && edges[i].0 == label)
    } else {
        None
    }
}

/// Whether no two entries of `edges` carry the same label.
pub open spec fn distinct_labels<T>(edges: EdgeList<T>) -> bool {
    forall|i: int, j: int| 0 <= i < j < edges.len() ==> edges[i].0 != edges[j].0
}

/// The states that `label` leads to: empty where no entry carries it.
pub open spec fn targets_of<T>(edges: EdgeList<T>, label: StateEdge<T>) -> Set<usize> {
    Set::new(
        |t: usize| exists|i: int| 0 <= i < edges.len() && edges[i].0 == label && edges[i].1@.contains(t),
    )
}

/// Where labels are distinct, a label leads to the set of its one entry.
pub proof fn lemma_targets_of_entry<T>(edges: EdgeList<T>, label: StateEdge<T>)
    requires
        distinct_labels(edges),
    ensures
        targets_of(edges, label) == match label_index(edges, label) {
            Some(i) => edges[i].1@,
            None => Set::<usize>::empty(),
        },
{
    match label_index(edges, label) {
        Some(i) => {
            assert forall|t: usize| targets_of(edges, label).contains(t) implies edges[i].1@.contains(
                t,
            ) by {
                let k = choose|k: int|
                    0 <= k < edges.len() && edges[k].0 == label && edges[k].1@.contains(t);
                if k < i {
                    assert(edges[k].0 != edges[i].0);
                } else if i < k {
                    assert(edges[i].0 != edges[k].0);
                }
            }
            assert(targets_of(edges, label) =~= edges[i].1@);
        },
        None => {
            assert(targets_of(edges, label) =~= Set::<usize>::empty());
        },
    }
}

/// The elements of the alphabet that label the entries of `edges`, in the
/// order of the entries.
pub open spec fn value_labels<T>(edges: EdgeList<T>) -> Seq<T>
    decreases edges.len(),
{
    if edges.len() == 0 {
        Seq::empty()
    } else {
        let before = value_labels(edges.drop_last());
        match edges.last().0 {
            StateEdge::Value(a) => before.push(a),
            StateEdge::Epsilon => before,
        }
    }
}

/// `seen`, followed by those elements of `more` that are not in it, each
/// once and in the order in which `more` first has them.
pub open spec fn adjoin<T>(seen: Seq<T>, more: Seq<T>) -> Seq<T>
    decreases more.len(),
{
    if more.len() == 0 {
        seen
    } else {
        let before = adjoin(seen, more.drop_last());
        if before.contains(more.last()) {
            before
        } else {
            before.push(more.last())
        }
    }
}

/// The labels listed are the elements that label an entry.
pub proof fn lemma_value_labels<T>(edges: EdgeList<T>)
    ensures
        forall|a: T| value_labels(edges).contains(a) <==> has_label(edges, StateEdge::Value(a)),
    decreases edges.len(),
{
    if edges.len() > 0 {
        let fewer = edges.drop_last();
        let before = value_labels(fewer);
        lemma_value_labels(fewer);
        assert forall|a: T|
            value_labels(edges).contains(a) <==> has_label(edges, StateEdge::Value(a)) by {
            if value_labels(edges).contains(a) {
                if before.contains(a) {
                    let k = choose|k: int| 0 <= k < fewer.len() && fewer[k].0 == StateEdge::Value(a);
                    assert(edges[k].0 == StateEdge::Value(a));
                } else {
                    let k = choose|k: int|
                        0 <= k < value_labels(edges).len() && value_labels(edges)[k] == a;
                    assert(edges[edges.len() - 1].0 == StateEdge::Value(a));
                }
            }
            if has_label(edges, StateEdge::Value(a)) {
                let k = choose|k: int| 0 <= k < edges.len() && edges[k].0 == StateEdge::Value(a);
                if k < fewer.len() {
                    assert(fewer[k].0 == StateEdge::Value(a));
                    let j = choose|j: int| 0 <= j < before.len() && before[j] == a;
                    assert(value_labels(edges)[j] == a);
                } else {
                    assert(value_labels(edges)[before.len() as int] == a);
                }
            }
        }
    }
}

/// Adjoining keeps a list free of repetitions and adds exactly the elements
/// of what is adjoined.
pub proof fn lemma_adjoin<T>(seen: Seq<T>, more: Seq<T>)
    requires
        seen.no_duplicates(),
    ensures
        adjoin(seen, more).no_duplicates(),
        forall|a: T| adjoin(seen, more).contains(a) <==> seen.contains(a) || more.contains(a),
    decreases more.len(),
{
    if more.len() > 0 {
        let fewer = more.drop_last();
        let before = adjoin(seen, fewer);
        let all = adjoin(seen, more);
        lemma_adjoin(seen, fewer);
        assert forall|a: T| all.contains(a) <==> seen.contains(a) || more.contains(a) by {
            if all.contains(a) {
                if before.contains(a) {
                    if fewer.contains(a) {
                        let k = choose|k: int| 0 <= k < fewer.len() && fewer[k] == a;
                        assert(more[k] == a);
                    }
                } else {
                    let k = choose|k: int| 0 <= k < all.len() && all[k] == a;
                    assert(more[more.len() - 1] == a);
                }
            }
            if seen.contains(a) {
                assert(before.contains(a));
                let k = choose|k: int| 0 <= k < before.len() && before[k] == a;
                assert(all[k] == a);
            }
            if more.contains(a) {
                let k = choose|k: int| 0 <= k < more.len() && more[k] == a;
                if k < fewer.len() {
                    assert(fewer[k] == a);
                    let j = choose|j: int| 0 <= j < before.len() && before[j] == a;
                    assert(all[j] == a);
                } else if before.contains(a) {
                } else {
                    assert(all[before.len() as int] == a);
                }
            }
        }
    }
}

/// Every state that some entry of `edges` leads to.
pub open spec fn edge_targets<T>(edges: EdgeList<T>) -> Set<usize> {
    Set::new(|t: usize| exists|i: int| 0 <= i < edges.len() && edges[i].1@.contains(t))
}

/// The union of finitely many finite sets is finite.
pub proof fn lemma_bounded_union_finite<A>(parts: Seq<Set<A>>)
    requires
        forall|i: int| 0 <= i < parts.len() ==> (#[trigger] parts[i]).finite(),
    ensures
        Set::new(|a: A| exists|i: int| 0 <= i < parts.len() && (#[trigger] parts[i]).contains(a)).finite(),
    decreases parts.len(),
{
    let all = Set::new(
        |a: A| exists|i: int| 0 <= i < parts.len() && (#[trigger] parts[i]).contains(a),
    );
    if parts.len() == 0 {
        assert(all =~= Set::<A>::empty());
    } else {
        let fewer = parts.drop_last();
        let rest = Set::new(
            |a: A| exists|i: int| 0 <= i < fewer.len() && (#[trigger] fewer[i]).contains(a),
        );
        lemma_bounded_union_finite(fewer);
        assert(parts.last().finite());
        assert forall|a: A| all.contains(a) <==> rest.union(parts.last()).contains(a) by {
            if all.contains(a) {
                let i = choose|i: int| 0 <= i < parts.len() && (#[trigger] parts[i]).contains(a);
                if i < fewer.len() {
                    assert(fewer[i].contains(a));
                }
            }
            if rest.contains(a) {
                let i = choose|i: int| 0 <= i < fewer.len() && (#[trigger] fewer[i]).contains(a);
                assert(parts[i].contains(a));
            }
            if parts.last().contains(a) {
                assert(parts[parts.len() - 1].contains(a));
            }
        }
        assert(all =~= rest.union(parts.last()));
    }
}

/// An edge list leads to finitely many states.
pub proof fn lemma_edge_targets_finite<T>(edges: EdgeList<T>)
    ensures
        edge_targets(edges).finite(),
{
    let parts = Seq::new(edges.len(), |i: int| edges[i].1@);
    assert forall|i: int| 0 <= i < parts.len() implies (#[trigger] parts[i]).finite() by {
        vstd::seq_lib::seq_to_set_is_finite(edges[i].1.seq());
    }
    lemma_bounded_union_finite(parts);
    assert forall|t: usize| edge_targets(edges).contains(t) implies exists|i: int|
        0 <= i < parts.len() && (#[trigger] parts[i]).contains(t) by {
        let i = choose|i: int| 0 <= i < edges.len() && edges[i].1@.contains(t);
        assert(parts[i].contains(t));
    }
    assert(edge_targets(edges) =~= Set::new(
        |t: usize| exists|i: int| 0 <= i < parts.len() && (#[trigger] parts[i]).contains(t),
    ));
}

/// Whether `after` is `before` with one more edge, labelled `label` and
/// leading to `id`: the entry of that label has `id` added to its set, or,
/// where there was none, a new entry stands at the end.
pub open spec fn edge_added<T>(
    before: EdgeList<T>,
    after: EdgeList<T>,
    label: StateEdge<T>,
    id: StateId,
) -> bool {
    match label_index(before, label) {
        Some(i) => {
            &&& after.len() == before.len()
            &&& after[i].0 == label
            &&& after[i].1@ == before[i].1@.insert(id)
            &&& forall|j: int| 0 <= j < before.len() && j != i ==> after[j] == before[j]
        },
        None => {
            &&& after.len() == before.len() + 1
            &&& after.last().0 == label
            &&& after.last().1@ == set![id]
            &&& forall|j: int| 0 <= j < before.len() ==> after[j] == before[j]
        },
    }
}

/// Adding an edge adds its target to what its label leads to, and leaves
/// every other label as it was.
pub proof fn lemma_edge_added<T>(
    before: EdgeList<T>,
    after: EdgeList<T>,
    label: StateEdge<T>,
    id: StateId,
)
    requires
        edge_added(before, after, label, id),
    ensures
        targets_of(after, label) == targets_of(before, label).insert(id),
        forall|other: StateEdge<T>|
            other != label ==> targets_of(after, other) == targets_of(before, other),
        forall|other: StateEdge<T>|
            has_label(after, other) <==> (other == label || has_label(before, other)),
{
    let n = before.len() as int;
    let at = label_index(before, label);
    assert forall|other: StateEdge<T>, t: usize|
        targets_of(after, other).contains(t) <==> (targets_of(before, other).contains(t) || (other
            == label && t == id)) by {
        if targets_of(after, other).contains(t) {
            let k = choose|k: int|
                0 <= k < after.len() && after[k].0 == other && after[k].1@.contains(t);
            if at is Some && k == at.unwrap() {
                assert(before[k].0 == label);
            } else if k < n {
                assert(before[k] == after[k]);
            }
        }
        if targets_of(before, other).contains(t) {
            let k = choose|k: int|
                0 <= k < before.len() && before[k].0 == other && before[k].1@.contains(t);
            if at is Some && k == at.unwrap() {
                assert(after[k].1@.contains(t));
            } else {
                assert(after[k] == before[k]);
            }
        }
        if other == label && t == id {
            let k = if at is Some {
                at.unwrap()
            } else {
                n
            };
            assert(after[k].0 == label && after[k].1@.contains(t));
        }
    }
    assert(targets_of(after, label) =~= targets_of(before, label).insert(id));
    assert forall|other: StateEdge<T>| other != label implies targets_of(after, other)
        == targets_of(before, other) by {
        assert(targets_of(after, other) =~= targets_of(before, other));
    }
    assert forall|other: StateEdge<T>|
        has_label(after, other) <==> (other == label || has_label(before, other)) by {
        if has_label(after, other) {
            let k = choose|k: int| 0 <= k < after.len() && after[k].0 == other;
            if at is Some && k == at.unwrap() {
            } else if k < n {
                assert(before[k] == after[k]);
            }
        }
        if has_label(before, other) {
            let k = choose|k: int| 0 <= k < before.len() && before[k].0 == other;
            if at is Some && k == at.unwrap() {
                assert(after[k].0 == other);
            } else {
                assert(after[k] == before[k]);
            }
        }
        if other == label {
            let k = if at is Some {
                at.unwrap()
            } else {
                n
            };
            assert(after[k].0 == label);
        }
    }
}

/// Whether two edge lists hold the same labels in the same order, each
/// leading to the same states.
pub open spec fn same_edges<T>(a: EdgeList<T>, b: EdgeList<T>) -> bool {
    &&& a.len() == b.len()
    &&& forall|i: int|
        0 <= i < a.len() ==> (#[trigger] a[i]).0 == b[i].0 && a[i].1@ == b[i].1@ && a[i].1.seq()
            == b[i].1.seq()
}

/// Whether the alphabet's `==` decides equality of its elements: whatever it
/// answers for two elements is whether they are the same element.
pub open spec fn decides_equality<T: PartialEq>() -> bool {
    forall|a: T, b: T, same: bool| #[trigger]
        call_ensures(T::eq, (&a, &b), same) ==> same == (a == b)
}

/// `==` on `char`, of the standard library: two characters are equal exactly
/// where they are the same character.
pub assume_specification[ <char as PartialEq<char>>::eq ](a: &char, b: &char) -> (same: bool)
    ensures
        same == (*a == *b),
;

/// Characters can serve as an alphabet.
pub proof fn lemma_chars_decide_equality()
    ensures
        decides_equality::<char>(),
{
}

/// Whether two elements of the alphabet are the same.
pub fn same_value<T: Copy + Eq>(a: &T, b: &T) -> (same: bool)
    requires
        decides_equality::<T>(),
    ensures
        same == (*a == *b),
{
    *a == *b
}

/// Whether two labels are the same.
pub fn same_label<T: Copy + Eq>(a: &StateEdge<T>, b: &StateEdge<T>) -> (same: bool)
    requires
        decides_equality::<T>(),
    ensures
        same == (*a == *b),
{
    match (a, b) {
        (StateEdge::Value(x), StateEdge::Value(y)) => same_value(x, y),
        (StateEdge::Epsilon, StateEdge::Epsilon) => true,
        _ => false,
    }
}

/// A state of a nondeterministic automaton: its identifier and its outgoing
/// edges, in the order in which their labels were first used.
#[derive(Debug)]
pub struct State<T> {
    id: StateId,
    edges: Edges<T>,
}

/// The labels of a state's edges and, at the same positions, the sets that
/// they lead to.
#[derive(Debug)]
struct Edges<T> {
    labels: Vec<StateEdge<T>>,
    targets: Vec<StateSet>,
}

impl<T> View for State<T> {
    type V = EdgeList<T>;

    closed spec fn view(&self) -> EdgeList<T> {
        Seq::new(self.edges.labels@.len(), |i: int| (self.edges.labels@[i], self.edges.targets@[i]))
    }
}

impl<T> State<T> {
    /// The identifier that the state was made with.
    pub closed spec fn spec_id(&self) -> StateId {
        self.id
    }

    #[verifier::type_invariant]
    spec fn inv(&self) -> bool {
        &&& self.edges.labels@.len() == self.edges.targets@.len()
        &&& forall|i: int, j: int|
            0 <= i < j < self.edges.labels@.len() ==> self.edges.labels@[i] != self.edges.labels@[j]
    }

    /// A state without edges.
    pub fn new(id: StateId) -> (state: State<T>)
        ensures
            state.spec_id() == id,
            state@ == EdgeList::<T>::empty(),
    {
        let state = State { id, edges: Edges { labels: Vec::new(), targets: Vec::new() } };
        assert(state@ =~= EdgeList::<T>::empty());
        state
    }

    /// The state's identifier.
    pub fn id(&self) -> (id: StateId)
        ensures
            id == self.spec_id(),
    {
        self.id
    }

    /// The outgoing edges in order, one entry per label.
    pub fn edges_iter(&self) -> (edges: Vec<(&StateEdge<T>, &StateSet)>)
        ensures
            distinct_labels(self@),
            edges@.len() == self@.len(),
            forall|i: int|
                0 <= i < edges@.len() ==> *(#[trigger] edges@[i]).0 == self@[i].0 && *edges@[i].1
                    == self@[i].1,
    {
        proof {
            use_type_invariant(self);
        }
        let mut edges: Vec<(&StateEdge<T>, &StateSet)> = Vec::new();
        let mut i: usize = 0;
        while i < self.edges.labels.len()
            invariant
                i <= self.edges.labels@.len(),
                self.edges.labels@.len() == self.edges.targets@.len(),
                edges@.len() == i,
                forall|k: int|
                    0 <= k < i ==> *(#[trigger] edges@[k]).0 == self.edges.labels@[k] && *edges@[k].1
                        == self.edges.targets@[k],
            decreases self.edges.labels@.len() - i,
        {
            let ghost before = edges@;
            edges.push((&self.edges.labels[i], &self.edges.targets[i]));
            assert(forall|k: int| 0 <= k < i ==> edges@[k] == before[k]);
            i += 1;
        }
        edges
    }
}

impl<T: Copy + Eq> State<T> {
    /// The position of the entry that carries `edge`.
    fn position(&self, edge: StateEdge<T>) -> (at: Option<usize>)
        requires
            decides_equality::<T>(),
        ensures
            distinct_labels(self@),
            match at {
                Some(i) => label_index(self@, edge) == Some(i as int) && i < self@.len(),
                None => !has_label(self@, edge),
            },
    {
        proof {
            use_type_invariant(self);
        }
        let mut i: usize = 0;
        while i < self.edges.labels.len()
            invariant
                i <= self.edges.labels@.len(),
                decides_equality::<T>(),
                distinct_labels(self@),
                self@.len() == self.edges.labels@.len(),
                forall|k: int| 0 <= k < i ==> self@[k].0 != edge,
            decreases self.edges.labels@.len() - i,
        {
            if same_label(&self.edges.labels[i], &edge) {
                proof {
                    assert(self@[i as int].0 == edge);
                    let k = label_index(self@, edge).unwrap();
                    if k < i {
                    } else if k > i {
                        assert(self@[i as int].0 != self@[k].0);
                    }
                }
                return Some(i);
            }
            i += 1;
        }
        None
    }

    /// The set of states that `edge` leads to, where the state has an edge
    /// with that label.
    pub fn get_edges(&self, edge: StateEdge<T>) -> (found: Option<&StateSet>)
        requires
            decides_equality::<T>(),
        ensures
            distinct_labels(self@),
            match found {
                Some(set) => label_index(self@, edge) is Some && *set == self@[label_index(
                    self@,
                    edge,
                ).unwrap()].1,
                None => !has_label(self@, edge),
            },
    {
        proof {
            use_type_invariant(self);
        }
        match self.position(edge) {
            Some(i) => Some(&self.edges.targets[i]),
            None => None,
        }
    }

    /// Adds an edge with the label `edge` to the state `id`: into the set of
    /// that label where the state has one, else as a new entry at the end.
    pub fn add_edge(&mut self, edge: StateEdge<T>, id: StateId)
        requires
            decides_equality::<T>(),
        ensures
            final(self).spec_id() == old(self).spec_id(),
            distinct_labels(final(self)@),
            edge_added(old(self)@, final(self)@, edge, id),
    {
        proof {
            use_type_invariant(&*self);
        }
        if let Some(targets) = self.get_edges_mut(edge) {
            targets.insert(id);
            return ;
        }
        let mut targets = StateSet::new();
        targets.insert(id);
        proof {
            use_type_invariant(&*self);
            assert(targets@ =~= set![id]);
        }
        let ghost before = self@;
        let mut edges = Edges { labels: Vec::new(), targets: Vec::new() };
        std::mem::swap(&mut edges, &mut self.edges);
        assert(forall|k: int| 0 <= k < before.len() ==> before[k].0 == edges.labels@[k]);
        edges.labels.push(edge);
        edges.targets.push(targets);
        proof {
            let labels = edges.labels@;
            assert forall|i: int, j: int| 0 <= i < j < labels.len() implies labels[i] != labels[j] by {
                if j == labels.len() - 1 {
                    assert(before[i].0 != edge);
                } else {
                    assert(before[i].0 != before[j].0);
                }
            }
        }
        self.edges = edges;
        assert(forall|j: int| 0 <= j < before.len() ==> self@[j] == before[j]);
    }

    /// The same set, open to change.
    pub fn get_edges_mut(&mut self, edge: StateEdge<T>) -> (found: Option<&mut StateSet>)
        requires
            decides_equality::<T>(),
        ensures
            distinct_labels(old(self)@),
            final(self).spec_id() == old(self).spec_id(),
            match found {
                Some(set) => label_index(old(self)@, edge) is Some && *set == old(self)@[label_index(
                    old(self)@,
                    edge,
                ).unwrap()].1 && final(self)@ == old(self)@.update(
                    label_index(old(self)@, edge).unwrap(),
                    (edge, *final(set)),
                ),
                None => !has_label(old(self)@, edge) && final(self)@ == old(self)@,
            },
    {
        proof {
            use_type_invariant(&*self);
        }
        match self.position(edge) {
            Some(i) => Some(&mut self.edges.targets[i]),
            None => None,
        }
    }
}

impl<T: Copy> Clone for State<T> {
    fn clone(&self) -> (copy: Self)
        ensures
            copy.spec_id() == self.spec_id(),
            same_edges(copy@, self@),
    {
        proof {
            use_type_invariant(self);
        }
        let mut labels: Vec<StateEdge<T>> = Vec::new();
        let mut targets: Vec<StateSet> = Vec::new();
        let mut i: usize = 0;
        while i < self.edges.labels.len()
            invariant
                i <= self.edges.labels@.len(),
                self.edges.labels@.len() == self.edges.targets@.len(),
                labels@ == self.edges.labels@.take(i as int),
                targets@.len() == i,
                forall|k: int|
                    0 <= k < i ==> (#[trigger] targets@[k])@ == self.edges.targets@[k]@
                        && targets@[k].seq() == self.edges.targets@[k].seq(),
            decreases self.edges.labels@.len() - i,
        {
            let ghost before = targets@;
            labels.push(self.edges.labels[i]);
            targets.push(self.edges.targets[i].clone());
            proof {
                assert(labels@ =~= self.edges.labels@.take(i + 1));
                assert forall|k: int| 0 <= k < i + 1 implies (#[trigger] targets@[k])@
                    == self.edges.targets@[k]@ && targets@[k].seq()
                    == self.edges.targets@[k].seq() by {
                    if k < i {
                        assert(targets@[k] == before[k]);
                    }
                }
            }
            i += 1;
        }
        assert(labels@ =~= self.edges.labels@);
        State { id: self.id, edges: Edges { labels, targets } }
    }
}

} // verus!
