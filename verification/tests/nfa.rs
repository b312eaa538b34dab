use state::nfa::state::{same_label, same_value, State, StateEdge};
use state::nfa::Nfa;
use state::set::StateSet;

fn ids(list: &[usize]) -> StateSet {
    let mut set = StateSet::new();
    for id in list {
        set.insert(*id);
    }
    set
}

#[test]
fn labels_are_equal_when_both_are_epsilon_or_hold_equal_values() {
    assert!(same_label(&StateEdge::<char>::Epsilon, &StateEdge::Epsilon));
    assert!(same_label(&StateEdge::Value('a'), &StateEdge::Value('a')));
    assert!(!same_label(&StateEdge::Value('a'), &StateEdge::Value('b')));
    assert!(!same_label(&StateEdge::Value('a'), &StateEdge::Epsilon));
    assert!(!same_label(&StateEdge::Epsilon, &StateEdge::Value('a')));
    assert!(same_value(&3u8, &3u8));
    assert!(!same_value(&3u8, &4u8));
    assert_eq!(StateEdge::Value(1), StateEdge::Value(1));
    assert_ne!(StateEdge::Value(1), StateEdge::Epsilon);
}

#[test]
fn epsilon_has_a_text_of_its_own() {
    assert_eq!(StateEdge::<char>::Epsilon.text("x"), "<epsilon>");
    assert_eq!(StateEdge::Value('m').text("m"), "m");
    assert_eq!(StateEdge::Value(12).text("12"), "12");
}

#[test]
fn new_state_has_its_identifier_and_no_edges() {
    let state: State<char> = State::new(5);
    assert_eq!(state.id(), 5);
    assert!(state.edges_iter().is_empty());
    assert!(state.get_edges(StateEdge::Epsilon).is_none());
}

#[test]
fn an_edge_with_a_known_label_joins_the_set_of_that_label() {
    let mut state: State<char> = State::new(0);
    state.add_edge(StateEdge::Value('a'), 3);
    state.add_edge(StateEdge::Epsilon, 1);
    state.add_edge(StateEdge::Value('a'), 2);
    state.add_edge(StateEdge::Value('a'), 3);
    state.add_edge(StateEdge::Value('b'), 0);
    let edges = state.edges_iter();
    assert_eq!(edges.len(), 3);
    assert_eq!(*edges[0].0, StateEdge::Value('a'));
    assert_eq!(*edges[0].1, ids(&[2, 3]));
    assert_eq!(*edges[1].0, StateEdge::Epsilon);
    assert_eq!(*edges[1].1, ids(&[1]));
    assert_eq!(*edges[2].0, StateEdge::Value('b'));
    assert_eq!(*edges[2].1, ids(&[0]));
    assert_eq!(state.get_edges(StateEdge::Value('a')), Some(&ids(&[2, 3])));
    assert_eq!(state.get_edges(StateEdge::Value('c')), None);
    assert_eq!(state.id(), 0);
}

#[test]
fn the_set_of_a_label_can_be_changed_in_place() {
    let mut state: State<char> = State::new(0);
    state.add_edge(StateEdge::Value('a'), 3);
    state.add_edge(StateEdge::Value('b'), 4);
    assert!(state.get_edges_mut(StateEdge::Value('c')).is_none());
    state.get_edges_mut(StateEdge::Value('b')).unwrap().insert(9);
    assert_eq!(state.get_edges(StateEdge::Value('b')), Some(&ids(&[4, 9])));
    assert_eq!(state.get_edges(StateEdge::Value('a')), Some(&ids(&[3])));
}

#[test]
fn states_get_the_lowest_unused_identifiers() {
    let mut nfa: Nfa<char> = Nfa::new();
    assert!(nfa.states_iter().is_empty());
    assert_eq!(nfa.add_state().id(), 0);
    assert_eq!(nfa.add_state().id(), 1);
    assert_eq!(nfa.add_state().id(), 2);
    let states = nfa.states_iter();
    assert_eq!(states.len(), 3);
    for (at, (id, state)) in states.iter().enumerate() {
        assert_eq!(*id, at);
        assert_eq!(state.id(), at);
        assert!(state.edges_iter().is_empty());
    }
    assert!(nfa.get_state(2).is_some());
    assert!(nfa.get_state(3).is_none());
}

#[test]
fn the_handle_of_a_new_state_takes_edges() {
    let mut nfa: Nfa<char> = Nfa::new();
    nfa.add_state().add_edge(StateEdge::Value('x'), 0);
    assert_eq!(nfa.get_state(0).unwrap().get_edges(StateEdge::Value('x')), Some(&ids(&[0])));
    nfa.get_state_mut(0).unwrap().add_edge(StateEdge::Value('x'), 4);
    assert_eq!(nfa.get_state(0).unwrap().get_edges(StateEdge::Value('x')), Some(&ids(&[0, 4])));
    assert!(nfa.get_state_mut(1).is_none());
}

#[test]
fn link_from_a_missing_state_changes_nothing() {
    let mut nfa: Nfa<char> = Nfa::new();
    nfa.add_state();
    nfa.link(3, StateEdge::Value('a'), 0);
    assert_eq!(nfa.states_iter().len(), 1);
    assert!(nfa.get_state(0).unwrap().edges_iter().is_empty());
}

#[test]
fn link_stores_a_target_that_names_no_state() {
    let mut nfa: Nfa<char> = Nfa::new();
    nfa.add_state();
    nfa.link(0, StateEdge::Value('a'), 17);
    nfa.link(0, StateEdge::Value('a'), 17);
    nfa.link(0, StateEdge::Value('a'), 0);
    assert_eq!(nfa.get_state(0).unwrap().get_edges(StateEdge::Value('a')), Some(&ids(&[0, 17])));
    assert_eq!(nfa.get_state(0).unwrap().edges_iter().len(), 1);
}

#[test]
fn start_is_set_only_to_a_state_that_exists() {
    let mut nfa: Nfa<char> = Nfa::new();
    assert!(nfa.get_start().is_none());
    assert_eq!(nfa.start_id(), None);
    nfa.set_start(0);
    assert!(nfa.get_start().is_none());
    nfa.add_state();
    nfa.add_state();
    nfa.set_start(1);
    assert_eq!(nfa.start_id(), Some(1));
    assert_eq!(nfa.get_start().unwrap().id(), 1);
    nfa.set_start(2);
    assert_eq!(nfa.start_id(), Some(1));
    nfa.set_start(0);
    assert_eq!(nfa.start_id(), Some(0));
}

#[test]
fn goals_are_only_states_that_exist() {
    let mut nfa: Nfa<char> = Nfa::new();
    nfa.add_goal(0);
    assert!(nfa.get_goals().is_empty());
    for _ in 0..4 {
        nfa.add_state();
    }
    nfa.add_goal(3);
    nfa.add_goal(1);
    nfa.add_goal(3);
    nfa.add_goal(4);
    assert_eq!(*nfa.goal_ids(), ids(&[1, 3]));
    let goals = nfa.get_goals();
    assert_eq!(goals.len(), 2);
    assert_eq!(goals[0].id(), 1);
    assert_eq!(goals[1].id(), 3);
}

#[test]
fn a_cloned_automaton_has_the_same_states() {
    let mut nfa: Nfa<char> = Nfa::new();
    nfa.add_state();
    nfa.add_state();
    nfa.link(0, StateEdge::Epsilon, 1);
    nfa.link(0, StateEdge::Value('q'), 0);
    nfa.set_start(0);
    nfa.add_goal(1);
    let copy = nfa.clone();
    nfa.link(1, StateEdge::Value('z'), 0);
    assert_eq!(copy.states_iter().len(), 2);
    assert_eq!(copy.start_id(), Some(0));
    assert_eq!(*copy.goal_ids(), ids(&[1]));
    let first = copy.get_state(0).unwrap();
    assert_eq!(first.get_edges(StateEdge::Epsilon), Some(&ids(&[1])));
    assert_eq!(first.get_edges(StateEdge::Value('q')), Some(&ids(&[0])));
    assert!(copy.get_state(1).unwrap().edges_iter().is_empty());
    let state = first.clone();
    assert_eq!(state.id(), 0);
    assert_eq!(state.edges_iter().len(), 2);
}
