//! A deterministic automaton as a graph to draw: its nodes, its edges and
//! their names.

use super::state::{EdgeList, State, StateEdge};
use super::Dfa;
use crate::ident::{is_identifier, node_name_spec, Ident};
use vstd::prelude::*;
use vstd::string::StringExecFns;

verus! {

/// A node of the graph: the identifier of a state.
pub type Node = usize;

/// An edge of the graph: the node it leaves, its label, the node it leads
/// to.
pub type Edge<T> = (usize, StateEdge<T>, usize);

/// The edges from one node, in the order of `edges`.
pub open spec fn state_edges<T>(source: usize, edges: EdgeList<T>) -> Seq<Edge<T>> {
    Seq::new(edges.len(), |i: int| (source, edges[i].0, edges[i].1))
}

/// The edges of all states in order, each state's edges leaving the node of
/// the state's own identifier.
pub open spec fn graph_edges<T>(states: Seq<State<T>>) -> Seq<Edge<T>>
    decreases states.len(),
{
    if states.len() == 0 {
        Seq::empty()
    } else {
        graph_edges(states.drop_last()) + state_edges(states.last().spec_id(), states.last()@)
    }
}

/// An automaton together with the name under which it is drawn.
pub struct Graph<'a, T> {
    name: String,
    dfa: &'a Dfa<T>,
}

/// Appends the edges from the node of one state.
fn push_state_edges<T: Copy>(edges: &mut Vec<Edge<T>>, state: &State<T>)
    ensures
        final(edges)@ == old(edges)@ + state_edges(state.spec_id(), state@),
{
    let source = state.id();
    let list = state.edges_iter();
    let mut j: usize = 0;
    assert(edges@ =~= old(edges)@ + state_edges(source, state@.take(0)));
    while j < list.len()
        invariant
            j <= list@.len(),
            source == state.spec_id(),
            list@.len() == state@.len(),
            forall|i: int|
                0 <= i < list@.len() ==> *(#[trigger] list@[i]).0 == state@[i].0 && list@[i].1
                    == state@[i].1,
            edges@ == old(edges)@ + state_edges(source, state@.take(j as int)),
        decreases list@.len() - j,
    {
        let (label, target) = list[j];
        edges.push((source, *label, target));
        assert(edges@ =~= old(edges)@ + state_edges(source, state@.take(j + 1)));
        j += 1;
    }
    assert(state@.take(list@.len() as int) =~= state@);
}

impl<'a, T> Graph<'a, T> {
    /// The name under which the automaton is drawn.
    pub closed spec fn name(&self) -> Seq<char> {
        self.name@
    }

    /// The automaton that is drawn.
    pub closed spec fn dfa(&self) -> Dfa<T> {
        *self.dfa
    }

    /// The automaton `dfa`, to be drawn under the name `name`.
    pub fn new(name: &str, dfa: &'a Dfa<T>) -> (graph: Graph<'a, T>)
        ensures
            graph.name() == name@,
            graph.dfa() == *dfa,
    {
        Graph { name: String::from_str(name), dfa }
    }

    /// Whether the graph's name can serve as its identifier.
    pub fn has_graph_id(&self) -> (valid: bool)
        ensures
            valid == is_identifier(self.name()),
    {
        Ident::new(self.name.clone()).is_some()
    }

    /// The identifier of the graph: its name.
    pub fn graph_id(&self) -> (id: Ident)
        requires
            is_identifier(self.name()),
        ensures
            id@ == self.name(),
    {
        Ident::new(self.name.clone()).unwrap()
    }

    /// The identifier of the node `node`: `state_` and the node's number in
    /// decimal digits.
    pub fn node_id(&self, node: &Node) -> (id: Ident)
        ensures
            id@ == node_name_spec(*node as nat),
    {
        Ident::of_node(*node)
    }

    /// The nodes: the identifiers under which states are kept, in ascending
    /// order.
    pub fn nodes(&self) -> (nodes: Vec<Node>)
        ensures
            nodes@ == Seq::new(self.dfa().states().len(), |i: int| i as usize),
    {
        let states = self.dfa.states_iter();
        let mut nodes: Vec<Node> = Vec::new();
        let mut i: usize = 0;
        while i < states.len()
            invariant
                i <= states@.len(),
                states@.len() == self.dfa.states().len(),
                forall|k: int| 0 <= k < states@.len() ==> (#[trigger] states@[k]).0 == k,
                nodes@ == Seq::new(i as nat, |k: int| k as usize),
            decreases states@.len() - i,
        {
            nodes.push(states[i].0);
            assert(nodes@ =~= Seq::new((i + 1) as nat, |k: int| k as usize));
            i += 1;
        }
        nodes
    }

    /// The node that `edge` leaves.
    pub fn source(&self, edge: &Edge<T>) -> (node: Node)
        ensures
            node == edge.0,
    {
        edge.0
    }

    /// The node that `edge` leads to.
    pub fn target(&self, edge: &Edge<T>) -> (node: Node)
        ensures
            node == edge.2,
    {
        edge.2
    }
}

impl<'a, T: Copy> Graph<'a, T> {
    /// The edges: state by state in ascending order of the identifiers they
    /// are kept under, and for each state in the order of its labels.
    pub fn edges(&self) -> (edges: Vec<Edge<T>>)
        ensures
            edges@ == graph_edges(self.dfa().states()),
    {
        let states = self.dfa.states_iter();
        let ghost all = self.dfa.states();
        let mut edges: Vec<Edge<T>> = Vec::new();
        let mut i: usize = 0;
        assert(edges@ =~= graph_edges(all.take(0)));
        while i < states.len()
            invariant
                i <= states@.len(),
                all == self.dfa.states(),
                states@.len() == all.len(),
                forall|k: int| 0 <= k < states@.len() ==> *(#[trigger] states@[k]).1 == all[k],
                edges@ == graph_edges(all.take(i as int)),
            decreases states@.len() - i,
        {
            push_state_edges(&mut edges, states[i].1);
            proof {
                let upto = all.take(i + 1);
                assert(upto.drop_last() =~= all.take(i as int));
                assert(upto.last() == all[i as int]);
            }
            i += 1;
        }
        assert(all.take(states@.len() as int) =~= all);
        edges
    }
}

} // verus!
