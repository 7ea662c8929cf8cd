use automata::{Automaton, AutomatonError, Dfa, DfaState, ToCompleteDfa, ToMinimalCompleteDfa};

fn two_state_dfa() -> Dfa {
    let mut q0 = DfaState::new(0, false);
    q0.add_transition('a', 0);
    q0.add_transition('b', 1);

    let mut q1 = DfaState::new(1, true);
    q1.add_transition('b', 1);

    let mut dfa = Dfa::new(0);
    dfa.add_state(q0).unwrap();
    dfa.add_state(q1).unwrap();
    dfa
}

fn eight_state_dfa() -> Dfa {
    let mut a = DfaState::new(0, false);
    let mut b = DfaState::new(1, false);
    let mut c = DfaState::new(2, false);
    let mut d = DfaState::new(3, false);
    let mut e = DfaState::new(4, false);
    let mut f = DfaState::new(5, true);
    let mut g = DfaState::new(6, true);
    let mut h = DfaState::new(7, false);

    a.add_transition('0', 7);
    a.add_transition('1', 1);

    b.add_transition('0', 7);
    b.add_transition('1', 0);

    c.add_transition('0', 4);
    c.add_transition('1', 5);

    d.add_transition('0', 4);
    d.add_transition('1', 5);

    e.add_transition('0', 5);
    e.add_transition('1', 6);

    f.add_transition('0', 5);
    f.add_transition('1', 5);

    g.add_transition('0', 6);
    g.add_transition('1', 5);

    h.add_transition('0', 2);
    h.add_transition('1', 2);

    let mut dfa = Dfa::new(0);
    dfa.add_state(a).unwrap();
    dfa.add_state(b).unwrap();
    dfa.add_state(c).unwrap();
    dfa.add_state(d).unwrap();
    dfa.add_state(e).unwrap();
    dfa.add_state(f).unwrap();
    dfa.add_state(g).unwrap();
    dfa.add_state(h).unwrap();
    dfa
}

#[test]
fn dfa_to_cdfa_test() {
    let dfa = two_state_dfa();
    assert_eq!(dfa.to_cdfa().unwrap().states().len(), 3);
}

#[test]
fn test_mcdfa() {
    let dfa = eight_state_dfa();
    let mcdfa = dfa.to_mcdfa().unwrap();

    assert_eq!(mcdfa.states().len(), 5);
    assert_eq!(mcdfa.accept("0000"), Ok(true));
    assert_eq!(mcdfa.accept("1110100"), Ok(true));
    assert_eq!(mcdfa.accept("100101"), Ok(true));
    assert_eq!(mcdfa.accept("1000010"), Ok(true));
    assert_eq!(mcdfa.accept("1000"), Ok(false));
    assert_eq!(mcdfa.accept("11101"), Ok(false));
}

#[test]
fn dfa_duplicate_index_is_a_structural_error() {
    let q0 = DfaState::new(0, false);
    let q1 = DfaState::new(0, true);
    let mut dfa = Dfa::new(0);
    assert_eq!(dfa.add_state(q0), Ok(()));
    assert_eq!(dfa.add_state(q1), Err(AutomatonError::StructuralError));
    assert_eq!(dfa.states().len(), 1);
    assert_eq!(dfa.states()[0].is_terminal, false);
}

#[test]
fn dfa_states_are_kept_in_ascending_order() {
    let mut dfa = Dfa::new(5);
    dfa.add_state(DfaState::new(5, false)).unwrap();
    dfa.add_state(DfaState::new(1, true)).unwrap();
    dfa.add_state(DfaState::new(3, false)).unwrap();
    let indices: Vec<u64> = dfa.states().iter().map(|s| s.index).collect();
    assert_eq!(indices, vec![1, 3, 5]);
    assert_eq!(dfa.find(3), Some(1));
    assert_eq!(dfa.find(4), None);
    assert_eq!(dfa.starting_state(), 5);
}

#[test]
fn dfa_accept_takes_the_first_of_two_transitions() {
    let mut q0 = DfaState::new(0, false);
    q0.add_transition('a', 1);
    q0.add_transition('a', 2);
    let q1 = DfaState::new(1, true);
    let q2 = DfaState::new(2, false);
    let mut dfa = Dfa::new(0);
    dfa.add_state(q0).unwrap();
    dfa.add_state(q1).unwrap();
    dfa.add_state(q2).unwrap();
    assert_eq!(dfa.accept("a"), Ok(true));
    assert_eq!(dfa.accept(""), Ok(false));
    assert_eq!(dfa.accept("aa"), Ok(false));
    assert_eq!(dfa.accept("b"), Ok(false));
}

#[test]
fn dfa_accept_fails_only_where_the_walk_reaches_a_missing_state() {
    let mut q0 = DfaState::new(0, true);
    q0.add_transition('a', 0);
    q0.add_transition('b', 9);
    let mut dfa = Dfa::new(0);
    dfa.add_state(q0).unwrap();
    assert_eq!(dfa.accept("aaa"), Ok(true));
    assert_eq!(dfa.accept("ab"), Err(AutomatonError::LookupError));
    assert_eq!(dfa.accept("c"), Ok(false));

    let empty = Dfa::new(0);
    assert_eq!(empty.accept(""), Err(AutomatonError::LookupError));
}

#[test]
fn alphabet_is_ascending_and_without_repeats() {
    let mut q0 = DfaState::new(0, false);
    q0.add_transition('z', 0);
    q0.add_transition('a', 0);
    q0.add_transition('m', 0);
    q0.add_transition('a', 0);
    let mut dfa = Dfa::new(0);
    dfa.add_state(q0).unwrap();
    assert_eq!(dfa.get_alphabet(), vec!['a', 'm', 'z']);
    assert_eq!(Dfa::new(0).get_alphabet(), Vec::<char>::new());
}

#[test]
fn completion_adds_a_sink_with_a_loop_on_every_symbol() {
    let cdfa = two_state_dfa().to_cdfa().unwrap();
    let states = cdfa.states();
    assert_eq!(states[0].transitions, vec![('a', 0), ('b', 1)]);
    assert_eq!(states[1].transitions, vec![('b', 1), ('a', 2)]);
    assert_eq!(states[2].index, 2);
    assert_eq!(states[2].is_terminal, false);
    assert_eq!(states[2].transitions, vec![('a', 2), ('b', 2)]);
    for state in states.iter() {
        for symbol in ['a', 'b'] {
            let count = state.transitions.iter().filter(|t| t.0 == symbol).count();
            assert_eq!(count, 1);
        }
    }
}

#[test]
fn completion_of_a_total_automaton_changes_nothing() {
    let cdfa = two_state_dfa().to_cdfa().unwrap();
    let again = cdfa.to_cdfa().unwrap();
    assert_eq!(again.states().len(), 3);
    for (a, b) in cdfa.states().iter().zip(again.states().iter()) {
        assert_eq!(a.index, b.index);
        assert_eq!(a.is_terminal, b.is_terminal);
        assert_eq!(a.transitions, b.transitions);
    }
}

#[test]
fn completion_fails_without_a_start_state_or_without_a_free_index() {
    assert_eq!(Dfa::new(0).to_cdfa().err(), Some(AutomatonError::LookupError));

    let mut q = DfaState::new(u64::MAX, false);
    q.add_transition('a', u64::MAX);
    let mut p = DfaState::new(0, false);
    p.add_transition('b', 0);
    let mut dfa = Dfa::new(0);
    dfa.add_state(q).unwrap();
    dfa.add_state(p).unwrap();
    assert_eq!(dfa.to_cdfa().err(), Some(AutomatonError::CapacityError));
}

#[test]
fn minimization_keeps_the_language() {
    let dfa = eight_state_dfa();
    let mcdfa = dfa.to_mcdfa().unwrap();
    let words = [
        "", "0", "1", "00", "01", "10", "11", "000", "001", "010", "011", "100", "101", "110",
        "111", "0000", "0101", "1010", "1111", "00000", "10101", "010101", "2", "02",
    ];
    for word in words {
        assert_eq!(mcdfa.accept(word), dfa.accept(word), "on {:?}", word);
    }
}

#[test]
fn minimization_numbers_the_class_of_the_start_zero() {
    let mcdfa = eight_state_dfa().to_mcdfa().unwrap();
    assert_eq!(mcdfa.starting_state(), 0);
    let indices: Vec<u64> = mcdfa.states().iter().map(|s| s.index).collect();
    assert_eq!(indices, vec![0, 1, 2, 3, 4]);
    // The classes: {0, 1}, {2}, {4}, {5, 6}, {7}; state 3 is not reached.
    assert_eq!(mcdfa.states()[0].transitions, vec![('0', 4), ('1', 0)]);
    assert_eq!(mcdfa.states()[1].transitions, vec![('0', 2), ('1', 3)]);
    assert_eq!(mcdfa.states()[2].transitions, vec![('0', 3), ('1', 3)]);
    assert_eq!(mcdfa.states()[3].transitions, vec![('0', 3), ('1', 3)]);
    assert_eq!(mcdfa.states()[4].transitions, vec![('0', 1), ('1', 1)]);
    assert_eq!(mcdfa.states()[3].is_terminal, true);
    assert_eq!(mcdfa.states()[0].is_terminal, false);
}

#[test]
fn minimization_fails_on_a_reachable_missing_state() {
    let mut q0 = DfaState::new(0, false);
    q0.add_transition('a', 7);
    let mut dfa = Dfa::new(0);
    dfa.add_state(q0).unwrap();
    assert_eq!(dfa.to_mcdfa().err(), Some(AutomatonError::LookupError));
}

#[test]
fn rendering_lists_start_transitions_and_terminal_states() {
    let dfa = two_state_dfa();
    assert_eq!(
        dfa.render(),
        "Starting state: 0\n0 -> 0 by \"a\"\n0 -> 1 by \"b\"\n1 -> 1 by \"b\"\nTerminal states:\n1\n"
    );
    let mut wide = Dfa::new(120);
    let mut q = DfaState::new(120, true);
    q.add_transition('x', 4096);
    wide.add_state(q).unwrap();
    assert_eq!(
        wide.render(),
        "Starting state: 120\n120 -> 4096 by \"x\"\nTerminal states:\n120\n"
    );
}
