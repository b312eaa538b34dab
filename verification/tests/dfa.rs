use state::dfa::state::State;
use state::dfa::Dfa;
use state::set::StateSet;

fn ids(list: &[usize]) -> StateSet {
    let mut set = StateSet::new();
    for id in list {
        set.insert(*id);
    }
    set
}

#[test]
fn new_deterministic_state_has_its_identifier_and_no_edges() {
    let state: State<char> = State::new(2);
    assert_eq!(state.id(), 2);
    assert!(state.edges_iter().is_empty());
    assert_eq!(state.get_edge('a'), None);
}

#[test]
fn an_edge_with_a_known_label_is_overwritten() {
    let mut state: State<char> = State::new(0);
    state.add_edge('a', 1);
    state.add_edge('b', 2);
    state.add_edge('a', 3);
    let edges = state.edges_iter();
    assert_eq!(edges.len(), 2);
    assert_eq!((*edges[0].0, edges[0].1), ('a', 3));
    assert_eq!((*edges[1].0, edges[1].1), ('b', 2));
    assert_eq!(state.get_edge('a'), Some(&3));
    assert_eq!(state.get_edge('b'), Some(&2));
    assert_eq!(state.get_edge('c'), None);
}

#[test]
fn the_target_of_a_label_can_be_changed_in_place() {
    let mut state: State<char> = State::new(0);
    state.add_edge('a', 1);
    assert!(state.get_edge_mut('z').is_none());
    *state.get_edge_mut('a').unwrap() = 8;
    assert_eq!(state.get_edge('a'), Some(&8));
    assert_eq!(state.edges_iter().len(), 1);
}

#[test]
fn deterministic_states_get_the_lowest_unused_identifiers() {
    let mut dfa: Dfa<u8> = Dfa::new();
    assert_eq!(dfa.add_state().id(), 0);
    assert_eq!(dfa.add_state().id(), 1);
    let states = dfa.states_iter();
    assert_eq!(states.len(), 2);
    assert_eq!(states[0].0, 0);
    assert_eq!(states[1].0, 1);
    assert_eq!(states[1].1.id(), 1);
    assert!(dfa.get_state(1).is_some());
    assert!(dfa.get_state(2).is_none());
    assert!(dfa.get_state_mut(2).is_none());
    dfa.get_state_mut(1).unwrap().add_edge(4, 0);
    assert_eq!(dfa.get_state(1).unwrap().get_edge(4), Some(&0));
}

#[test]
fn link_overwrites_and_ignores_a_missing_source() {
    let mut dfa: Dfa<u8> = Dfa::new();
    dfa.add_state();
    dfa.add_state();
    dfa.link(0, 1, 1);
    dfa.link(0, 1, 0);
    dfa.link(0, 2, 30);
    dfa.link(5, 1, 0);
    let first = dfa.get_state(0).unwrap();
    assert_eq!(first.get_edge(1), Some(&0));
    assert_eq!(first.get_edge(2), Some(&30));
    assert_eq!(first.edges_iter().len(), 2);
    assert!(dfa.get_state(1).unwrap().edges_iter().is_empty());
    assert_eq!(dfa.states_iter().len(), 2);
}

#[test]
fn deterministic_start_and_goals_are_only_states_that_exist() {
    let mut dfa: Dfa<u8> = Dfa::new();
    dfa.set_start(0);
    dfa.add_goal(0);
    assert!(dfa.get_start().is_none());
    assert!(dfa.get_goals().is_empty());
    dfa.add_state();
    dfa.add_state();
    dfa.add_state();
    dfa.set_start(2);
    dfa.set_start(3);
    dfa.add_goal(2);
    dfa.add_goal(0);
    dfa.add_goal(7);
    assert_eq!(dfa.start_id(), Some(2));
    assert_eq!(dfa.get_start().unwrap().id(), 2);
    assert_eq!(*dfa.goal_ids(), ids(&[0, 2]));
    let goals = dfa.get_goals();
    assert_eq!(goals.len(), 2);
    assert_eq!(goals[0].id(), 0);
    assert_eq!(goals[1].id(), 2);
}

#[test]
fn a_cloned_deterministic_automaton_has_the_same_states() {
    let mut dfa: Dfa<u8> = Dfa::new();
    dfa.add_state();
    dfa.add_state();
    dfa.link(0, 1, 1);
    dfa.set_start(0);
    dfa.add_goal(1);
    let copy = dfa.clone();
    dfa.link(0, 1, 0);
    assert_eq!(copy.get_state(0).unwrap().get_edge(1), Some(&1));
    assert_eq!(copy.start_id(), Some(0));
    assert_eq!(*copy.goal_ids(), ids(&[1]));
    assert_eq!(copy.states_iter().len(), 2);
    let state = copy.get_state(0).unwrap().clone();
    assert_eq!(state.get_edge(1), Some(&1));
}
