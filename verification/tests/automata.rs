use computation::dfa::{DFADesign, DFARulebook};
use computation::nfa::{NFADesign, NFARulebook, NFASimulation, FREE_MOVE};

#[test]
fn dfa_test() {
    let rulebook = DFARulebook::build(vec![
        (1, 'a', 2),
        (1, 'b', 1),
        (2, 'a', 2),
        (2, 'b', 3),
        (3, 'a', 3),
        (3, 'b', 3),
    ]);

    let accept_states = vec![3];
    let dfa_design = DFADesign::new((1, accept_states, rulebook));
    assert!(!dfa_design.is_accept("a"));
    assert!(!dfa_design.is_accept("baa"));
    assert!(dfa_design.is_accept("baba"));
}

#[test]
fn nfa_test() {
    let rulebook = NFARulebook::build(vec![
        (1, 'a', 1),
        (1, 'b', 1),
        (1, 'b', 2),
        (2, 'a', 3),
        (2, 'b', 3),
        (3, 'a', 4),
        (3, 'b', 4),
    ]);
    let nfa_design = NFADesign::new((1, vec![4], rulebook));
    assert!(nfa_design.is_accept("bab"));
    assert!(nfa_design.is_accept("bbbbb"));
    assert!(!nfa_design.is_accept("bbabb"));
}

#[test]
fn free_move_test() {
    let rulebook = NFARulebook::build(vec![
        (1, FREE_MOVE, 2),
        (1, FREE_MOVE, 4),
        (2, 'a', 3),
        (3, 'a', 2),
        (4, 'a', 5),
        (5, 'a', 6),
        (6, 'a', 4),
    ]);
    let nfa_design = NFADesign::new((1, vec![2, 4], rulebook));
    assert!(nfa_design.is_accept("aa"));
    assert!(nfa_design.is_accept("aaa"));
    assert!(!nfa_design.is_accept("aaaaa"));
    assert!(nfa_design.is_accept("aaaaaa"));
}

#[test]
fn to_nfa_simulation_test() {
    let rulebook = NFARulebook::build(vec![
        (1, 'a', 1),
        (1, 'a', 2),
        (1, FREE_MOVE, 2),
        (2, 'b', 3),
        (3, 'b', 1),
        (3, FREE_MOVE, 2),
    ]);
    let nfa_design = NFADesign::new((1, vec![3], rulebook));
    assert_eq!(nfa_design.to_nfa().get_current_states(), vec![1, 2]);
    assert_eq!(
        nfa_design.to_nfa_simulation(vec![2]).get_current_states(),
        vec![2]
    );
    assert_eq!(
        nfa_design.to_nfa_simulation(vec![3]).get_current_states(),
        vec![2, 3]
    );
    let mut nfa = nfa_design.to_nfa_simulation(vec![2, 3]);
    nfa.read_character('b');
    assert_eq!(nfa.get_current_states(), vec![1, 2, 3]);
}

#[test]
fn nfa_simulation_next_state_test() {
    let rulebook = NFARulebook::build(vec![
        (1, 'a', 1),
        (1, 'a', 2),
        (1, FREE_MOVE, 2),
        (2, 'b', 3),
        (3, 'b', 1),
        (3, FREE_MOVE, 2),
    ]);
    let nfa_design = NFADesign::new((1, vec![3], rulebook));
    let sim = NFASimulation::new(nfa_design);
    assert_eq!(sim.next_state(&vec![1, 2], 'a'), vec![1, 2]);
}

#[test]
fn subset_construction_agrees_with_nfa() {
    // the determinised automaton accepts exactly the words the NFA accepts
    let words = ["", "a", "b", "ab", "ba", "bb", "aab", "abb", "bab", "abba", "aabb"];
    let build = || {
        NFADesign::new((
            1,
            vec![3],
            NFARulebook::build(vec![
                (1, 'a', 1),
                (1, 'a', 2),
                (1, FREE_MOVE, 2),
                (2, 'b', 3),
                (3, 'b', 1),
                (3, FREE_MOVE, 2),
            ]),
        ))
    };
    let sim = NFASimulation::new(build());
    let dfa_design = sim.to_dfa_design();
    for w in words {
        assert_eq!(dfa_design.is_accept(w), build().is_accept(w));
    }
}

#[test]
fn dfa_rulebook_follows_unique_rule() {
    // the rulebook is deterministic: stepping follows the one matching rule
    let rulebook = DFARulebook::build(vec![(1, 'a', 2), (1, 'b', 1), (2, 'a', 2)]);
    assert_eq!(rulebook.next_state(1, 'a'), 2);
    assert_eq!(rulebook.next_state(1, 'b'), 1);
    assert_eq!(rulebook.next_state(2, 'a'), 2);
}

#[test]
fn nfa_rulebook_lists_applying_rules() {
    let rulebook = NFARulebook::build(vec![
        (1, 'a', 1),
        (1, 'b', 1),
        (1, 'b', 2),
        (2, 'a', 3),
    ]);
    assert_eq!(rulebook.follow_rules_for(1, 'b'), vec![1, 2]);
    assert_eq!(rulebook.follow_rules_for(1, 'a'), vec![1]);
    assert_eq!(rulebook.follow_rules_for(3, 'a'), vec![]);
    let matching = rulebook.rules_for(1, 'b');
    assert_eq!(matching.len(), 2);
    assert_eq!(matching[0].character(), 'b');
    assert_eq!(*matching[1].follow(), 2);
}

#[test]
fn nfa_closure_is_stable() {
    // reading the observed states back in closes to the same set
    let rulebook = NFARulebook::build(vec![
        (1, FREE_MOVE, 2),
        (2, FREE_MOVE, 3),
        (3, 'a', 4),
    ]);
    let design = NFADesign::new((1, vec![4], rulebook));
    let once = design.to_nfa().get_current_states();
    assert_eq!(once, vec![1, 2, 3]);
    let twice = design.to_nfa_simulation(once.clone()).get_current_states();
    assert_eq!(once, twice);
}
