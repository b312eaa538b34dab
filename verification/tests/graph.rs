use state::dfa::graph::Graph as DfaGraph;
use state::dfa::Dfa;
use state::ident::{decimal, node_name, Ident};
use state::nfa::graph::Graph as NfaGraph;
use state::nfa::state::StateEdge;
use state::nfa::Nfa;

#[test]
fn numbers_are_written_in_decimal_digits() {
    assert_eq!(decimal(0), "0");
    assert_eq!(decimal(7), "7");
    assert_eq!(decimal(10), "10");
    assert_eq!(decimal(1234567890), "1234567890");
    assert_eq!(decimal(usize::MAX), usize::MAX.to_string());
}

#[test]
fn nodes_are_named_after_their_states() {
    assert_eq!(node_name(0), "state_0");
    assert_eq!(node_name(17), "state_17");
    assert_eq!(node_name(405), "state_405");
}

#[test]
fn node_identifiers_are_accepted() {
    let nfa: Nfa<char> = Nfa::new();
    let graph = NfaGraph::new("NFA", &nfa);
    assert_eq!(graph.node_id(&0).as_str(), "state_0");
    assert_eq!(graph.node_id(&28).as_str(), "state_28");
    let dfa: Dfa<char> = Dfa::new();
    let graph = DfaGraph::new("DFA", &dfa);
    assert_eq!(graph.node_id(&3).as_str(), "state_3");
    assert_eq!(Ident::of_node(64).as_str(), "state_64");
}

#[test]
fn graph_name_must_be_an_identifier() {
    let nfa: Nfa<char> = Nfa::new();
    for name in ["NFA", "_x9", "a", "_", "Z_z_0"] {
        let graph = NfaGraph::new(name, &nfa);
        assert!(graph.has_graph_id(), "{}", name);
        assert_eq!(graph.graph_id().as_str(), name);
        assert_eq!(Ident::new(name.to_string()).unwrap().into_string(), name);
    }
    for name in ["", "9a", "a b", "a-b", "\u{e9}t\u{e9}", "a\u{e9}", "{x}", "a.b", "a\n"] {
        assert!(!NfaGraph::new(name, &nfa).has_graph_id(), "{:?}", name);
        assert!(Ident::new(name.to_string()).is_none(), "{:?}", name);
    }
    let dfa: Dfa<char> = Dfa::new();
    assert!(DfaGraph::new("DFA", &dfa).has_graph_id());
    assert_eq!(DfaGraph::new("DFA", &dfa).graph_id().as_str(), "DFA");
    assert!(!DfaGraph::new("0", &dfa).has_graph_id());
}

#[test]
fn nondeterministic_graph_lists_nodes_and_edges_in_order() {
    let mut nfa: Nfa<char> = Nfa::new();
    for _ in 0..3 {
        nfa.add_state();
    }
    nfa.link(0, StateEdge::Value('a'), 2);
    nfa.link(0, StateEdge::Epsilon, 1);
    nfa.link(0, StateEdge::Value('a'), 1);
    nfa.link(2, StateEdge::Value('b'), 9);
    let graph = NfaGraph::new("NFA", &nfa);
    assert_eq!(graph.nodes(), vec![0, 1, 2]);
    let edges = graph.edges();
    assert_eq!(
        edges,
        vec![
            (0, StateEdge::Value('a'), 1),
            (0, StateEdge::Value('a'), 2),
            (0, StateEdge::Epsilon, 1),
            (2, StateEdge::Value('b'), 9),
        ]
    );
    assert_eq!(graph.source(&edges[3]), 2);
    assert_eq!(graph.target(&edges[3]), 9);
    let empty: Nfa<char> = Nfa::new();
    let graph = NfaGraph::new("NFA", &empty);
    assert!(graph.nodes().is_empty());
    assert!(graph.edges().is_empty());
}

#[test]
fn deterministic_graph_lists_nodes_and_edges_in_order() {
    let mut dfa: Dfa<char> = Dfa::new();
    for _ in 0..2 {
        dfa.add_state();
    }
    dfa.link(1, 'x', 0);
    dfa.link(0, 'a', 1);
    dfa.link(0, 'b', 0);
    dfa.link(0, 'a', 0);
    let graph = DfaGraph::new("DFA", &dfa);
    assert_eq!(graph.nodes(), vec![0, 1]);
    let edges = graph.edges();
    assert_eq!(edges, vec![(0, 'a', 0), (0, 'b', 0), (1, 'x', 0)]);
    assert_eq!(graph.source(&edges[2]), 1);
    assert_eq!(graph.target(&edges[2]), 0);
}
