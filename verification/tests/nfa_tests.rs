use nfa_engine::Nfa;
use nfa_engine::Symbol;

/// The two-state recognizer for "ends in 1": states {0, 1} (for p, q),
/// alphabet {0, 1}, initial 0, final {1}.
#[test]
fn test_nfa_2_states() {
    let nfa = Nfa::new(
        vec![0, 1],
        vec![Symbol::Value(0), Symbol::Value(0)],
        vec![
            (0, Symbol::Value(0), vec![0]),
            (0, Symbol::Value(1), vec![0, 1]),
            (1, Symbol::Value(0), vec![]),
            (1, Symbol::Value(1), vec![]),
        ],
        0,
        vec![1],
    );

    assert!(nfa.accept(vec![Symbol::Value(1)]));
    assert!(nfa.accept(vec![Symbol::Value(1), Symbol::Value(1)]));
    // "1011" ends in 1, so it is accepted.
    assert!(nfa.accept(vec![
        Symbol::Value(1),
        Symbol::Value(0),
        Symbol::Value(1),
        Symbol::Value(1)
    ]));
    // "10110000000000"
    assert!(!nfa.accept(vec![
        Symbol::Value(1),
        Symbol::Value(0),
        Symbol::Value(1),
        Symbol::Value(1),
        Symbol::Value(0),
        Symbol::Value(0),
        Symbol::Value(0),
        Symbol::Value(0),
        Symbol::Value(0),
        Symbol::Value(0),
        Symbol::Value(0),
        Symbol::Value(0),
        Symbol::Value(0),
        Symbol::Value(0),
    ]));
}

/// Empty input on a chain of epsilon moves reaching a final state: accepted
/// without consuming anything; a symbol input is rejected since the automaton
/// has no symbol transitions at all.
#[test]
fn test_epsilon_chain_to_final() {
    let nfa = Nfa::new(
        vec![0, 1, 2],
        vec![Symbol::Value(1)],
        vec![(0, Symbol::Epsilon, vec![1]), (1, Symbol::Epsilon, vec![2])],
        0,
        vec![2],
    );
    assert!(nfa.accept(vec![]));
    assert!(!nfa.accept(vec![Symbol::Value(1)]));
}

/// Acceptance of the empty input depends only on whether the epsilon-saturated
/// initial set meets the final states.
#[test]
fn test_accept_empty_input() {
    // The initial state is itself final.
    let accepting = Nfa::new(vec![7], vec![Symbol::Value(0)], vec![], 7, vec![7]);
    assert!(accepting.accept(vec![]));

    // No epsilon moves and the initial state is not final.
    let rejecting = Nfa::new(
        vec![7, 8],
        vec![Symbol::Value(0)],
        vec![(7, Symbol::Value(0), vec![8])],
        7,
        vec![8],
    );
    assert!(!rejecting.accept(vec![]));
}

/// An automaton in the style of the regex `(a|b)*ac`, with several epsilon
/// branches; a = 0, b = 1, c = 2.
fn regex_a_or_b_star_ac() -> Nfa {
    Nfa::new(
        vec![1, 2, 3, 4, 5, 6, 7, 8],
        vec![Symbol::Value(0), Symbol::Value(1), Symbol::Value(2)],
        vec![
            (1, Symbol::Epsilon, vec![2, 5]),
            (2, Symbol::Value(0), vec![3]),
            (3, Symbol::Value(2), vec![4]),
            (5, Symbol::Epsilon, vec![6, 7]),
            (6, Symbol::Value(0), vec![8]),
            (7, Symbol::Value(1), vec![8]),
            (8, Symbol::Epsilon, vec![1]),
        ],
        1,
        vec![4],
    )
}

#[test]
fn test_epsilon_branches() {
    let nfa = regex_a_or_b_star_ac();
    let a = Symbol::Value(0);
    let b = Symbol::Value(1);
    let c = Symbol::Value(2);
    assert!(nfa.accept(vec![a, c]));
    assert!(nfa.accept(vec![a, a, c]));
    assert!(nfa.accept(vec![b, a, c]));
    assert!(nfa.accept(vec![a, b, a, c]));
    assert!(!nfa.accept(vec![c, a, c]));
    assert!(!nfa.accept(vec![a, b, a, c, a]));
}

/// A non-final state reached by the last symbol has an epsilon move to a
/// final state: the saturation after the last symbol must find it.
#[test]
fn test_trailing_epsilon_to_final() {
    let nfa = Nfa::new(
        vec![0, 1, 2],
        vec![Symbol::Value(5)],
        vec![(0, Symbol::Value(5), vec![1]), (1, Symbol::Epsilon, vec![2])],
        0,
        vec![2],
    );
    assert!(nfa.accept(vec![Symbol::Value(5)]));
    assert!(!nfa.accept(vec![]));
}

/// The epsilon closure contains its start state, survives epsilon cycles,
/// and is idempotent: the closure of any of its members adds nothing new.
#[test]
fn test_e_closure_cycle_and_idempotence() {
    let nfa = Nfa::new(
        vec![0, 1, 2, 3],
        vec![Symbol::Value(9)],
        vec![
            (0, Symbol::Epsilon, vec![1]),
            (1, Symbol::Epsilon, vec![0, 2]),
            (3, Symbol::Value(9), vec![0]),
        ],
        0,
        vec![2],
    );
    let mut closure = nfa.e_closure(0);
    closure.sort();
    assert_eq!(closure, vec![0, 1, 2]);
    for &member in &closure {
        let mut again = nfa.e_closure(member);
        again.sort();
        for state in again {
            assert!(closure.contains(&state));
        }
        assert!(nfa.e_closure(member).contains(&member));
    }
    // A state with no epsilon moves is its own closure.
    assert_eq!(nfa.e_closure(3), vec![3]);
}

/// Two queries with the same automaton and the same input agree: the
/// automaton is read-only and each call works on its own branch set.
#[test]
fn test_accept_deterministic() {
    let nfa = regex_a_or_b_star_ac();
    let input = vec![Symbol::Value(0), Symbol::Value(2)];
    let first = nfa.accept(input.clone());
    let second = nfa.accept(input);
    assert_eq!(first, second);
    assert!(first);
}

/// Several transition entries for the same source and label are unioned.
#[test]
fn test_possible_transitions_unions_entries() {
    let nfa = Nfa::new(
        vec![0, 1, 2],
        vec![Symbol::Value(4)],
        vec![
            (0, Symbol::Value(4), vec![1]),
            (0, Symbol::Value(4), vec![2]),
            (1, Symbol::Value(4), vec![0]),
        ],
        0,
        vec![2],
    );
    let mut dests = nfa.possible_transitions(0, Symbol::Value(4));
    dests.sort();
    dests.dedup();
    assert_eq!(dests, vec![1, 2]);
    // No matching entry: the empty set, not an error.
    assert_eq!(nfa.possible_transitions(2, Symbol::Value(4)), Vec::<u64>::new());
}

/// Every branch is followed in parallel: acceptance here needs the branch
/// that leaves state 0 for state 1, alongside the one staying in 0.
#[test]
fn test_branch_union_keeps_all_moves() {
    let a = Symbol::Value(0);
    let b = Symbol::Value(1);
    let nfa = Nfa::new(
        vec![0, 1, 2],
        vec![a, b],
        vec![(0, a, vec![0, 1]), (1, b, vec![2])],
        0,
        vec![2],
    );
    assert!(nfa.accept(vec![a, b]));
    assert!(nfa.accept(vec![a, a, b]));
    assert!(!nfa.accept(vec![b]));
}

/// A query symbol outside the declared alphabet finds no transition entry and
/// simply kills the branch; it raises no error.
#[test]
fn test_unknown_symbol_rejects() {
    let nfa = Nfa::new(
        vec![0, 1],
        vec![Symbol::Value(0)],
        vec![(0, Symbol::Value(0), vec![1])],
        0,
        vec![1],
    );
    assert!(nfa.accept(vec![Symbol::Value(0)]));
    assert!(!nfa.accept(vec![Symbol::Value(3)]));
}

/// The validator accepts a definition satisfying every invariant and reports
/// each kind of violation.
#[test]
fn test_is_well_formed() {
    let good = regex_a_or_b_star_ac();
    assert!(good.is_well_formed());

    // The initial state is not declared.
    let bad_initial = Nfa::new(vec![0], vec![Symbol::Value(0)], vec![], 5, vec![0]);
    assert!(!bad_initial.is_well_formed());

    // A final state is not declared.
    let bad_final = Nfa::new(vec![0], vec![Symbol::Value(0)], vec![], 0, vec![9]);
    assert!(!bad_final.is_well_formed());

    // A transition source is not declared.
    let bad_source = Nfa::new(
        vec![0],
        vec![Symbol::Value(0)],
        vec![(8, Symbol::Value(0), vec![0])],
        0,
        vec![0],
    );
    assert!(!bad_source.is_well_formed());

    // A transition destination is not declared.
    let bad_dest = Nfa::new(
        vec![0],
        vec![Symbol::Value(0)],
        vec![(0, Symbol::Value(0), vec![8])],
        0,
        vec![0],
    );
    assert!(!bad_dest.is_well_formed());

    // A transition label is not in the declared alphabet.
    let bad_label = Nfa::new(
        vec![0],
        vec![Symbol::Value(0)],
        vec![(0, Symbol::Value(7), vec![0])],
        0,
        vec![0],
    );
    assert!(!bad_label.is_well_formed());

    // The declared alphabet may not hold the epsilon marker.
    let bad_alphabet = Nfa::new(vec![0], vec![Symbol::Epsilon], vec![], 0, vec![0]);
    assert!(!bad_alphabet.is_well_formed());

    // Epsilon-labelled transitions need no alphabet entry.
    let epsilon_only = Nfa::new(
        vec![0, 1],
        vec![],
        vec![(0, Symbol::Epsilon, vec![1])],
        0,
        vec![1],
    );
    assert!(epsilon_only.is_well_formed());
}
