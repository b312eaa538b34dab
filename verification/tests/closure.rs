use state::nfa::state::StateEdge;
use state::nfa::subset::closure;
use state::nfa::Nfa;
use state::set::StateSet;

fn set_of(ids: &[usize]) -> StateSet {
    let mut set = StateSet::new();
    for id in ids {
        set.insert(*id);
    }
    set
}

#[test]
#[allow(non_snake_case)]
fn test_closure() {
    let mut nfa: Nfa<char> = Nfa::new();

    let S0 = nfa.add_state().id();

    let S10 = nfa.add_state().id();
    let S17 = nfa.add_state().id();

    let S20 = nfa.add_state().id();
    let S28 = nfa.add_state().id();

    let S3 = nfa.add_state().id();

    nfa.link(S0, StateEdge::Epsilon, S10);
    nfa.link(S10, StateEdge::Value('m'), S17);
    nfa.link(S17, StateEdge::Epsilon, S3);

    nfa.link(S0, StateEdge::Epsilon, S20);
    nfa.link(S20, StateEdge::Value('c'), S28);
    nfa.link(S28, StateEdge::Epsilon, S3);

    nfa.set_start(S0);
    nfa.add_goal(S3);

    assert_eq!(closure(&nfa, &set_of(&[S0])), set_of(&[S0, S10, S20]));
    assert_eq!(closure(&nfa, &set_of(&[S17, S28])), set_of(&[S17, S28, S3]));
}
