use state::dfa::Dfa;
use state::nfa::state::StateEdge;
use state::nfa::subset::{closure, get_edges, get_move, process, DfaState};
use state::nfa::Nfa;
use state::set::StateSet;

fn ids(list: &[usize]) -> StateSet {
    let mut set = StateSet::new();
    for id in list {
        set.insert(*id);
    }
    set
}

/// S0 (start) reaches S10 and S20 without input, S10 reads `m` to S17,
/// S20 reads `c` to S28, and both S17 and S28 reach the goal S3 without
/// input. The states are numbered S0=0, S10=1, S17=2, S20=3, S28=4, S3=5.
fn two_branches() -> Nfa<char> {
    let mut nfa: Nfa<char> = Nfa::new();
    for _ in 0..6 {
        nfa.add_state();
    }
    nfa.link(0, StateEdge::Epsilon, 1);
    nfa.link(1, StateEdge::Value('m'), 2);
    nfa.link(2, StateEdge::Epsilon, 5);
    nfa.link(0, StateEdge::Epsilon, 3);
    nfa.link(3, StateEdge::Value('c'), 4);
    nfa.link(4, StateEdge::Epsilon, 5);
    nfa.set_start(0);
    nfa.add_goal(5);
    nfa
}

fn dfa_run(dfa: &Dfa<char>, input: &str) -> bool {
    let mut at = match dfa.start_id() {
        Some(id) => id,
        None => return false,
    };
    for c in input.chars() {
        let next = dfa.get_state(at).and_then(|state| state.get_edge(c).copied());
        match next {
            Some(id) => at = id,
            None => return false,
        }
    }
    dfa.goal_ids().contains(at)
}

fn nfa_run(nfa: &Nfa<char>, input: &str) -> bool {
    let mut seed = StateSet::new();
    if let Some(start) = nfa.start_id() {
        seed.insert(start);
    }
    let mut now = closure(nfa, &seed);
    for c in input.chars() {
        now = closure(nfa, &get_move(nfa, &now, c));
    }
    now.intersects(nfa.goal_ids())
}

#[test]
fn closure_holds_its_argument() {
    let nfa = two_branches();
    for list in [vec![], vec![0], vec![2, 4], vec![5], vec![1, 3, 9]] {
        let set = ids(&list);
        let closed = closure(&nfa, &set);
        for id in &list {
            assert!(closed.contains(*id));
        }
    }
}

#[test]
fn closure_of_closure_is_closure() {
    let nfa = two_branches();
    for list in [vec![], vec![0], vec![2, 4], vec![5], vec![1, 3, 9]] {
        let once = closure(&nfa, &ids(&list));
        let twice = closure(&nfa, &once);
        assert_eq!(once, twice);
    }
}

#[test]
fn closure_of_nothing_is_nothing() {
    let nfa = two_branches();
    assert_eq!(closure(&nfa, &StateSet::new()), StateSet::new());
}

#[test]
fn closure_keeps_a_target_that_names_no_state() {
    let mut nfa: Nfa<char> = Nfa::new();
    nfa.add_state();
    nfa.link(0, StateEdge::Epsilon, 7);
    assert_eq!(closure(&nfa, &ids(&[0])), ids(&[0, 7]));
}

#[test]
fn closure_ends_on_a_cycle() {
    let mut nfa: Nfa<char> = Nfa::new();
    nfa.add_state();
    nfa.add_state();
    nfa.add_state();
    nfa.link(0, StateEdge::Epsilon, 1);
    nfa.link(1, StateEdge::Epsilon, 2);
    nfa.link(2, StateEdge::Epsilon, 0);
    nfa.link(1, StateEdge::Epsilon, 1);
    assert_eq!(closure(&nfa, &ids(&[1])), ids(&[0, 1, 2]));
}

#[test]
fn move_follows_one_label() {
    let nfa = two_branches();
    assert_eq!(get_move(&nfa, &ids(&[0, 1, 3]), 'm'), ids(&[2]));
    assert_eq!(get_move(&nfa, &ids(&[0, 1, 3]), 'c'), ids(&[4]));
    assert_eq!(get_move(&nfa, &ids(&[0, 1, 3]), 'x'), StateSet::new());
    assert_eq!(get_move(&nfa, &ids(&[0]), 'm'), StateSet::new());
    assert_eq!(get_move(&nfa, &ids(&[1, 40]), 'm'), ids(&[2]));
}

#[test]
fn move_joins_the_targets_of_all_sources() {
    let mut nfa: Nfa<u8> = Nfa::new();
    for _ in 0..4 {
        nfa.add_state();
    }
    nfa.link(0, StateEdge::Value(1), 2);
    nfa.link(0, StateEdge::Value(1), 3);
    nfa.link(1, StateEdge::Value(1), 3);
    nfa.link(1, StateEdge::Value(2), 0);
    assert_eq!(get_move(&nfa, &ids(&[0, 1]), 1), ids(&[2, 3]));
    assert_eq!(get_move(&nfa, &ids(&[0, 1]), 2), ids(&[0]));
}

#[test]
fn alphabet_lists_each_label_once() {
    let nfa = two_branches();
    assert_eq!(get_edges(&nfa, &ids(&[0, 1, 3])), vec!['m', 'c']);
    assert_eq!(get_edges(&nfa, &ids(&[0, 2, 4, 5])), Vec::<char>::new());
    let mut twice: Nfa<char> = Nfa::new();
    twice.add_state();
    twice.add_state();
    twice.link(0, StateEdge::Value('a'), 1);
    twice.link(1, StateEdge::Value('b'), 1);
    twice.link(1, StateEdge::Value('a'), 0);
    twice.link(1, StateEdge::Epsilon, 0);
    assert_eq!(get_edges(&twice, &ids(&[0, 1])), vec!['a', 'b']);
    assert_eq!(get_edges(&twice, &ids(&[1])), vec!['b', 'a']);
}

#[test]
fn record_keeps_its_identifier() {
    let record = DfaState::new(4, ids(&[1, 2]));
    assert_eq!(record.id, 4);
}

#[test]
fn two_branch_automaton_is_determinized() {
    let nfa = two_branches();
    let dfa = process(&nfa);
    let start = dfa.get_start().expect("the start state is set");
    assert_eq!(start.id(), 0);
    let edges = start.edges_iter();
    assert_eq!(edges.len(), 2);
    assert_eq!(*edges[0].0, 'm');
    assert_eq!(*edges[1].0, 'c');
    let by_m = edges[0].1;
    let by_c = edges[1].1;
    assert_ne!(by_m, by_c);
    assert!(dfa.goal_ids().contains(by_m));
    assert!(dfa.goal_ids().contains(by_c));
    assert!(!dfa.goal_ids().contains(0));
    assert_eq!(dfa.states_iter().len(), 3);
    assert_eq!(dfa.get_state(by_m).unwrap().edges_iter().len(), 0);
    assert_eq!(dfa.get_state(by_c).unwrap().edges_iter().len(), 0);
}

#[test]
fn equal_sets_share_one_state() {
    let mut nfa: Nfa<char> = Nfa::new();
    for _ in 0..3 {
        nfa.add_state();
    }
    nfa.link(0, StateEdge::Value('a'), 1);
    nfa.link(0, StateEdge::Value('b'), 1);
    nfa.link(1, StateEdge::Value('a'), 1);
    nfa.link(1, StateEdge::Value('b'), 2);
    nfa.link(2, StateEdge::Epsilon, 1);
    nfa.set_start(0);
    nfa.add_goal(2);
    let dfa = process(&nfa);
    assert_eq!(dfa.states_iter().len(), 3);
    let start = dfa.get_start().unwrap();
    assert_eq!(start.get_edge('a'), Some(&1));
    assert_eq!(start.get_edge('b'), Some(&1));
    let second = dfa.get_state(1).unwrap();
    assert_eq!(second.get_edge('a'), Some(&1));
    assert_eq!(second.get_edge('b'), Some(&2));
    let third = dfa.get_state(2).unwrap();
    assert_eq!(third.get_edge('a'), Some(&1));
    assert_eq!(third.get_edge('b'), Some(&2));
    assert_eq!(*dfa.goal_ids(), ids(&[2]));
}

#[test]
fn both_automata_accept_the_same_inputs() {
    let mut nfa: Nfa<char> = Nfa::new();
    for _ in 0..5 {
        nfa.add_state();
    }
    nfa.link(0, StateEdge::Value('a'), 0);
    nfa.link(0, StateEdge::Value('b'), 0);
    nfa.link(0, StateEdge::Value('a'), 1);
    nfa.link(1, StateEdge::Value('b'), 2);
    nfa.link(2, StateEdge::Epsilon, 3);
    nfa.link(3, StateEdge::Value('a'), 4);
    nfa.link(3, StateEdge::Epsilon, 0);
    nfa.set_start(0);
    nfa.add_goal(4);
    nfa.add_goal(2);
    let dfa = process(&nfa);
    let letters = ['a', 'b', 'c'];
    let mut inputs = vec![String::new()];
    let mut from = 0;
    for _ in 0..5 {
        let upto = inputs.len();
        for i in from..upto {
            for letter in letters {
                let mut longer = inputs[i].clone();
                longer.push(letter);
                inputs.push(longer);
            }
        }
        from = upto;
    }
    assert_eq!(inputs.len(), 364);
    for input in &inputs {
        assert_eq!(dfa_run(&dfa, input), nfa_run(&nfa, input), "on {:?}", input);
    }
    assert!(dfa_run(&dfa, "ab"));
    assert!(dfa_run(&dfa, "aba"));
    assert!(!dfa_run(&dfa, "a"));
    assert!(!dfa_run(&dfa, ""));
    assert!(!dfa_run(&dfa, "abc"));
}

#[test]
fn every_label_of_a_state_has_one_target() {
    let mut nfa: Nfa<char> = Nfa::new();
    for _ in 0..4 {
        nfa.add_state();
    }
    nfa.link(0, StateEdge::Value('a'), 1);
    nfa.link(0, StateEdge::Value('a'), 2);
    nfa.link(1, StateEdge::Value('a'), 3);
    nfa.link(2, StateEdge::Value('a'), 0);
    nfa.link(2, StateEdge::Value('b'), 3);
    nfa.set_start(0);
    nfa.add_goal(3);
    let dfa = process(&nfa);
    for (_, state) in dfa.states_iter() {
        let edges = state.edges_iter();
        for i in 0..edges.len() {
            for j in 0..i {
                assert_ne!(edges[i].0, edges[j].0);
            }
        }
    }
}

#[test]
fn states_stay_within_two_to_the_number_of_states() {
    let mut nfa: Nfa<char> = Nfa::new();
    for _ in 0..3 {
        nfa.add_state();
    }
    for from in 0..3 {
        for to in 0..3 {
            nfa.link(from, StateEdge::Value(if from == to { 'a' } else { 'b' }), to);
        }
    }
    nfa.link(0, StateEdge::Value('c'), 1);
    nfa.link(1, StateEdge::Value('c'), 2);
    nfa.set_start(0);
    nfa.add_goal(2);
    let dfa = process(&nfa);
    assert!(dfa.states_iter().len() <= 8);
}

#[test]
fn goal_states_are_those_whose_set_holds_a_goal() {
    let mut nfa: Nfa<char> = Nfa::new();
    for _ in 0..3 {
        nfa.add_state();
    }
    nfa.link(0, StateEdge::Value('a'), 1);
    nfa.link(1, StateEdge::Value('a'), 2);
    nfa.link(2, StateEdge::Value('a'), 0);
    nfa.set_start(0);
    nfa.add_goal(1);
    let dfa = process(&nfa);
    assert_eq!(dfa.states_iter().len(), 3);
    assert_eq!(*dfa.goal_ids(), ids(&[1]));
}

#[test]
fn start_without_edges_gives_one_state() {
    let mut nfa: Nfa<char> = Nfa::new();
    nfa.add_state();
    nfa.set_start(0);
    let dfa = process(&nfa);
    assert_eq!(dfa.states_iter().len(), 1);
    assert_eq!(dfa.start_id(), Some(0));
    assert!(dfa.goal_ids().is_empty());
    nfa.add_goal(0);
    let dfa = process(&nfa);
    assert_eq!(*dfa.goal_ids(), ids(&[0]));
}

#[test]
fn a_target_that_names_no_state_gets_a_state_of_its_own() {
    let mut nfa: Nfa<char> = Nfa::new();
    nfa.add_state();
    nfa.link(0, StateEdge::Value('a'), 5);
    nfa.link(0, StateEdge::Value('b'), 6);
    nfa.link(0, StateEdge::Value('c'), 7);
    nfa.set_start(0);
    let dfa = process(&nfa);
    assert_eq!(dfa.states_iter().len(), 4);
    let start = dfa.get_start().unwrap();
    assert_eq!(start.get_edge('a'), Some(&1));
    assert_eq!(start.get_edge('b'), Some(&2));
    assert_eq!(start.get_edge('c'), Some(&3));
    for id in 1..4 {
        assert!(dfa.get_state(id).unwrap().edges_iter().is_empty());
    }
    assert!(dfa.goal_ids().is_empty());
}

#[test]
fn a_label_that_leads_nowhere_gets_the_state_of_the_empty_set() {
    let mut nfa: Nfa<char> = Nfa::new();
    nfa.add_state();
    nfa.link(0, StateEdge::Value('a'), 0);
    *nfa.get_state_mut(0).unwrap().get_edges_mut(StateEdge::Value('a')).unwrap() = StateSet::new();
    nfa.set_start(0);
    nfa.add_goal(0);
    let dfa = process(&nfa);
    assert_eq!(dfa.states_iter().len(), 2);
    assert_eq!(dfa.get_start().unwrap().get_edge('a'), Some(&1));
    assert!(dfa.get_state(1).unwrap().edges_iter().is_empty());
    assert_eq!(*dfa.goal_ids(), ids(&[0]));
    assert!(dfa_run(&dfa, ""));
    assert!(!dfa_run(&dfa, "a"));
    assert!(!nfa_run(&nfa, "a"));
}

#[test]
fn a_replaced_state_keeps_the_place_it_is_kept_under() {
    let mut nfa: Nfa<char> = Nfa::new();
    nfa.add_state();
    nfa.add_state();
    *nfa.get_state_mut(1).unwrap() = state::nfa::state::State::new(40);
    nfa.link(0, StateEdge::Epsilon, 1);
    nfa.link(1, StateEdge::Epsilon, 0);
    assert_eq!(nfa.get_state(1).unwrap().id(), 40);
    assert_eq!(closure(&nfa, &ids(&[1])), ids(&[0, 1]));
}

#[test]
fn two_words_with_a_shared_ending_are_recognized() {
    let mut nfa: Nfa<char> = Nfa::new();
    for _ in 0..19 {
        nfa.add_state();
    }
    let (s0, s10, s11, s12, s13, s14, s15, s16, s17) = (0, 1, 2, 3, 4, 5, 6, 7, 8);
    let (s20, s21, s22, s23, s24, s25, s26, s27, s28, s3) = (9, 10, 11, 12, 13, 14, 15, 16, 17, 18);
    nfa.link(s0, StateEdge::Epsilon, s10);
    nfa.link(s10, StateEdge::Value('m'), s11);
    nfa.link(s11, StateEdge::Value('e'), s12);
    nfa.link(s12, StateEdge::Value('e'), s12);
    nfa.link(s12, StateEdge::Value('t'), s20);
    nfa.link(s12, StateEdge::Value('c'), s13);
    nfa.link(s13, StateEdge::Value('h'), s14);
    nfa.link(s13, StateEdge::Epsilon, s15);
    nfa.link(s14, StateEdge::Value('a'), s15);
    nfa.link(s15, StateEdge::Value('n'), s16);
    nfa.link(s16, StateEdge::Value('t'), s17);
    nfa.link(s16, StateEdge::Value('o'), s13);
    nfa.link(s17, StateEdge::Epsilon, s3);
    nfa.link(s0, StateEdge::Epsilon, s20);
    nfa.link(s20, StateEdge::Value('c'), s21);
    nfa.link(s21, StateEdge::Value('r'), s22);
    nfa.link(s22, StateEdge::Value('i'), s23);
    nfa.link(s23, StateEdge::Value('m'), s24);
    nfa.link(s24, StateEdge::Value('i'), s25);
    nfa.link(s25, StateEdge::Value('n'), s26);
    nfa.link(s26, StateEdge::Value('e'), s27);
    nfa.link(s27, StateEdge::Value('l'), s28);
    nfa.link(s28, StateEdge::Epsilon, s3);
    nfa.set_start(s0);
    nfa.add_goal(s3);

    assert_eq!(closure(&nfa, &ids(&[s0])), ids(&[s0, s10, s20]));
    let dfa = process(&nfa);
    for word in ["criminel", "mechant", "mecnt", "meechant", "mecnont", "metcriminel", "meeetcriminel"] {
        assert!(dfa_run(&dfa, word), "{}", word);
        assert!(nfa_run(&nfa, word), "{}", word);
    }
    for word in ["", "m", "me", "crimine", "criminell", "mechan", "mtcriminel", "mecht", "x"] {
        assert!(!dfa_run(&dfa, word), "{}", word);
        assert!(!nfa_run(&nfa, word), "{}", word);
    }
    assert!(dfa.states_iter().len() <= 19 + 1);
    for (_, state) in dfa.states_iter() {
        for (_, target) in state.edges_iter() {
            assert!(dfa.get_state(target).is_some());
        }
    }
}
