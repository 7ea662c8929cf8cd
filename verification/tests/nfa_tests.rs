use automata::{
    Automaton, AutomatonError, Nfa, NfaState, State, ToCompleteDfa, ToDfa, ToMinimalCompleteDfa,
    ToRegex,
};

fn eps_cycle_nfa() -> Nfa<String> {
    let mut q0: NfaState<String> = NfaState::new(0, false);
    q0.add_transition(String::from(""), 1);

    let mut q1: NfaState<String> = NfaState::new(1, false);
    q1.add_transition(String::from(""), 2);
    q1.add_transition(String::from("b"), 3);

    let mut q2: NfaState<String> = NfaState::new(2, false);
    q2.add_transition(String::from("a"), 0);

    let q3: NfaState<String> = NfaState::new(3, true);

    let mut nfa: Nfa<String> = Nfa::new(0);
    nfa.add_state(q0).unwrap();
    nfa.add_state(q1).unwrap();
    nfa.add_state(q2).unwrap();
    nfa.add_state(q3).unwrap();
    nfa
}

fn word_nfa() -> Nfa<String> {
    let mut q0: NfaState<String> = NfaState::new(0, true);
    q0.add_transition(String::from("ab"), 0);
    q0.add_transition(String::from(""), 1);

    let mut q1: NfaState<String> = NfaState::new(1, true);
    q1.add_transition(String::from("a"), 1);

    let mut nfa: Nfa<String> = Nfa::new(0);
    nfa.add_state(q0).unwrap();
    nfa.add_state(q1).unwrap();
    nfa
}

fn two_state_nfa() -> Nfa<String> {
    let mut q0: NfaState<String> = NfaState::new(0, false);
    q0.add_transition(String::from("a"), 0);
    q0.add_transition(String::from("b"), 0);
    q0.add_transition(String::from("a"), 1);

    let mut q1: NfaState<String> = NfaState::new(1, true);
    q1.add_transition(String::from("b"), 1);
    q1.add_transition(String::from("b"), 0);

    let mut nfa: Nfa<String> = Nfa::new(0);
    nfa.add_state(q0).unwrap();
    nfa.add_state(q1).unwrap();
    nfa
}

fn is_balanced(text: &str) -> bool {
    let mut open: i64 = 0;
    for c in text.chars() {
        if c == '(' {
            open += 1;
        } else if c == ')' {
            open -= 1;
            if open < 0 {
                return false;
            }
        }
    }
    open == 0
}

#[test]
fn nfa_base_test() {
    let nfa = word_nfa();

    assert_eq!(nfa.accept(""), Ok(true));
    assert_eq!(nfa.accept("a"), Ok(true));
    assert_eq!(nfa.accept("ab"), Ok(true));
    assert_eq!(nfa.accept("aba"), Ok(true));
    assert_eq!(nfa.accept("c"), Ok(false));
    assert_eq!(nfa.accept("aab"), Ok(false));
    assert_eq!(nfa.accept("abababaa"), Ok(true));
    assert_eq!(nfa.accept("abababaab"), Ok(false));
}

#[test]
fn nfa_eps_cycle_test() {
    let nfa = eps_cycle_nfa();

    assert_eq!(nfa.accept(""), Ok(false));
    assert_eq!(nfa.accept("b"), Ok(true));
    assert_eq!(nfa.accept("bb"), Ok(false));
    assert_eq!(nfa.accept("aaaaaaaaaaaaab"), Ok(true));
    assert_eq!(nfa.accept("aaaaaaaaaaaabb"), Ok(false));
}

#[test]
fn nfa_to_dfa_test() {
    let nfa = two_state_nfa();

    let dfa = nfa.to_dfa().unwrap();

    assert_eq!(dfa.accept("a"), Ok(true));
    assert_eq!(dfa.accept("bb"), Ok(false));
    assert_eq!(dfa.accept("ba"), Ok(true));
    assert_eq!(dfa.accept("bba"), Ok(true));
    assert_eq!(dfa.accept("abba"), Ok(true));
}

#[test]
fn nfa_to_dfa_size_test() {
    let mut q0: NfaState<char> = NfaState::new(0, false);
    q0.add_transition('a', 0);
    q0.add_transition('b', 0);
    q0.add_transition('b', 1);

    let mut q1: NfaState<char> = NfaState::new(1, false);
    q1.add_transition('a', 2);
    q1.add_transition('b', 2);

    let mut q2: NfaState<char> = NfaState::new(2, false);
    q2.add_transition('a', 3);
    q2.add_transition('b', 3);

    let mut q3: NfaState<char> = NfaState::new(3, false);
    q3.add_transition('a', 4);
    q3.add_transition('b', 4);

    let q4: NfaState<char> = NfaState::new(4, true);

    let mut nfa: Nfa<char> = Nfa::new(0);
    nfa.add_state(q0).unwrap();
    nfa.add_state(q1).unwrap();
    nfa.add_state(q2).unwrap();
    nfa.add_state(q3).unwrap();
    nfa.add_state(q4).unwrap();

    assert_eq!(nfa.to_dfa().unwrap().states().len(), 16);
}

#[test]
fn nfa_to_mcdfa() {
    let mut q0: NfaState<char> = NfaState::new(0, false);
    q0.add_transition('a', 1);
    q0.add_transition('a', 2);
    q0.add_transition('b', 2);

    let mut q1: NfaState<char> = NfaState::new(1, false);
    q1.add_transition('a', 2);
    q1.add_transition('b', 3);

    let mut q2: NfaState<char> = NfaState::new(2, false);
    q2.add_transition('a', 1);
    q2.add_transition('a', 2);
    q2.add_transition('b', 3);

    let q3: NfaState<char> = NfaState::new(3, true);

    let mut nfa: Nfa<char> = Nfa::new(0);
    nfa.add_state(q0).unwrap();
    nfa.add_state(q1).unwrap();
    nfa.add_state(q2).unwrap();
    nfa.add_state(q3).unwrap();

    let mcdfa = nfa.to_mcdfa().unwrap();

    assert_eq!(mcdfa.states().len(), 4);
    assert_eq!(mcdfa.accept("ab"), Ok(true));
    assert_eq!(mcdfa.accept("aaaaaab"), Ok(true));
    assert_eq!(mcdfa.accept("baab"), Ok(true));
    assert_eq!(mcdfa.accept("bb"), Ok(true));
    assert_eq!(mcdfa.accept("aaaa"), Ok(false));
    assert_eq!(mcdfa.accept("bbb"), Ok(false));
}

#[test]
fn nfa_duplicate_index_is_a_structural_error() {
    let q0: NfaState<char> = NfaState::new(0, false);
    let q1: NfaState<char> = NfaState::new(0, false);
    let mut nfa: Nfa<char> = Nfa::new(0);
    assert_eq!(nfa.add_state(q0), Ok(()));
    assert_eq!(nfa.add_state(q1), Err(AutomatonError::StructuralError));
    assert_eq!(nfa.states().len(), 1);
}

#[test]
fn next_lists_the_moves_in_order() {
    let mut q: NfaState<String> = NfaState::new(0, false);
    q.add_transition(String::from("ab"), 1);
    q.add_transition(String::from("b"), 2);
    q.add_transition(String::from(""), 3);
    q.add_transition(String::from("a"), 4);
    assert_eq!(
        q.next("abc"),
        vec![(1, String::from("c")), (3, String::from("abc")), (4, String::from("bc"))]
    );
    assert_eq!(q.next(""), vec![(3, String::from(""))]);
}

#[test]
fn nfa_accept_fails_where_the_simulation_reaches_a_missing_state() {
    let mut q0: NfaState<String> = NfaState::new(0, true);
    q0.add_transition(String::from("a"), 0);
    q0.add_transition(String::from("b"), 5);
    let mut nfa: Nfa<String> = Nfa::new(0);
    nfa.add_state(q0).unwrap();
    assert_eq!(nfa.accept("aa"), Ok(true));
    assert_eq!(nfa.accept("ab"), Err(AutomatonError::LookupError));
    let empty: Nfa<String> = Nfa::new(3);
    assert_eq!(empty.accept(""), Err(AutomatonError::LookupError));
}

#[test]
fn nfa_accept_reads_characters_beyond_ascii() {
    let mut q0: NfaState<String> = NfaState::new(0, false);
    q0.add_transition(String::from("é"), 1);
    let mut q1: NfaState<String> = NfaState::new(1, true);
    q1.add_transition(String::from("ü∅"), 1);
    let mut nfa: Nfa<String> = Nfa::new(0);
    nfa.add_state(q0).unwrap();
    nfa.add_state(q1).unwrap();
    assert_eq!(nfa.accept("é"), Ok(true));
    assert_eq!(nfa.accept("éü∅ü∅"), Ok(true));
    assert_eq!(nfa.accept("éü"), Ok(false));
}

#[test]
fn compression_takes_over_the_closure() {
    let nfa = eps_cycle_nfa();
    let c = nfa.compress_eps().unwrap();
    let states = c.states();
    assert_eq!(states.len(), 4);
    // The closure of 0 is {0, 1, 2}; that of 1 is {1, 2}.
    assert_eq!(
        states[0].transitions,
        vec![(String::from("b"), 3), (String::from("a"), 0)]
    );
    assert_eq!(
        states[1].transitions,
        vec![(String::from("b"), 3), (String::from("a"), 0)]
    );
    assert_eq!(states[2].transitions, vec![(String::from("a"), 0)]);
    assert_eq!(states[3].transitions, vec![]);
    assert_eq!(states[0].is_terminal, false);
    assert_eq!(states[3].is_terminal, true);

    let w = word_nfa().compress_eps().unwrap();
    assert_eq!(
        w.states()[0].transitions,
        vec![(String::from("ab"), 0), (String::from("a"), 1)]
    );
    assert_eq!(w.states()[0].is_terminal, true);
}

#[test]
fn compression_leaves_no_epsilon_and_is_idempotent() {
    for nfa in [eps_cycle_nfa(), word_nfa(), two_state_nfa()] {
        let once = nfa.compress_eps().unwrap();
        for state in once.states().iter() {
            for (word, _) in state.transitions.iter() {
                assert!(!word.is_empty());
            }
        }
        let twice = once.compress_eps().unwrap();
        assert_eq!(once.states().len(), twice.states().len());
        for (a, b) in once.states().iter().zip(twice.states().iter()) {
            assert_eq!(a.index, b.index);
            assert_eq!(a.is_terminal, b.is_terminal);
            assert_eq!(a.transitions, b.transitions);
        }
        for word in ["", "a", "b", "ab", "aab", "aba", "abab", "bb"] {
            assert_eq!(once.accept(word), twice.accept(word));
            assert_eq!(once.accept(word), nfa.accept(word));
        }
    }
}

#[test]
fn compression_fails_on_an_epsilon_transition_to_a_missing_state() {
    let mut q0: NfaState<String> = NfaState::new(0, false);
    q0.add_transition(String::from(""), 4);
    let mut nfa: Nfa<String> = Nfa::new(0);
    nfa.add_state(q0).unwrap();
    assert_eq!(nfa.compress_eps().err(), Some(AutomatonError::LookupError));

    let mut p0: NfaState<String> = NfaState::new(0, false);
    p0.add_transition(String::from("a"), 4);
    let mut other: Nfa<String> = Nfa::new(0);
    other.add_state(p0).unwrap();
    assert!(other.compress_eps().is_ok());
}

#[test]
fn splitting_makes_chains_of_fresh_states() {
    let mut q0: NfaState<String> = NfaState::new(0, false);
    q0.add_transition(String::from("abc"), 2);
    q0.add_transition(String::from("x"), 0);
    q0.add_transition(String::from("de"), 0);
    let q2: NfaState<String> = NfaState::new(2, true);
    let mut nfa: Nfa<String> = Nfa::new(0);
    nfa.add_state(q0).unwrap();
    nfa.add_state(q2).unwrap();

    let split = nfa.split_words().unwrap();
    let states = split.states();
    let indices: Vec<u64> = states.iter().map(|s| s.index).collect();
    assert_eq!(indices, vec![0, 2, 3, 4, 5]);
    assert_eq!(states[0].transitions, vec![('a', 3), ('x', 0), ('d', 5)]);
    assert_eq!(states[1].transitions, vec![]);
    assert_eq!(states[2].transitions, vec![('b', 4)]);
    assert_eq!(states[3].transitions, vec![('c', 2)]);
    assert_eq!(states[4].transitions, vec![('e', 0)]);
    assert_eq!(states[2].is_terminal, false);
    assert_eq!(states[1].is_terminal, true);
}

#[test]
fn splitting_keeps_the_language() {
    for nfa in [eps_cycle_nfa(), word_nfa(), two_state_nfa()] {
        let split = nfa.split_words().unwrap();
        for word in [
            "", "a", "b", "ab", "ba", "aab", "aba", "abab", "bb", "abababaa", "abababaab", "bba",
            "abba", "aaaaaaaaaaaaab", "c",
        ] {
            assert_eq!(split.accept(word), nfa.accept(word), "on {:?}", word);
        }
    }
}

#[test]
fn splitting_fails_where_the_fresh_states_have_no_index() {
    let mut q: NfaState<String> = NfaState::new(u64::MAX - 1, true);
    q.add_transition(String::from("abc"), u64::MAX - 1);
    let mut nfa: Nfa<String> = Nfa::new(u64::MAX - 1);
    nfa.add_state(q).unwrap();
    assert_eq!(nfa.split_words().err(), Some(AutomatonError::CapacityError));
}

#[test]
fn subset_construction_numbers_states_by_their_sets() {
    let dfa = two_state_nfa().to_dfa().unwrap();
    assert_eq!(dfa.starting_state(), 1);
    let indices: Vec<u64> = dfa.states().iter().map(|s| s.index).collect();
    assert_eq!(indices, vec![1, 3]);
    assert_eq!(dfa.states()[0].transitions, vec![('a', 3), ('b', 1)]);
    assert_eq!(dfa.states()[1].transitions, vec![('a', 3), ('b', 3)]);
    assert_eq!(dfa.states()[0].is_terminal, false);
    assert_eq!(dfa.states()[1].is_terminal, true);
}

#[test]
fn subset_construction_adds_no_sink() {
    let mut q0: NfaState<char> = NfaState::new(0, false);
    q0.add_transition('a', 1);
    let mut q1: NfaState<char> = NfaState::new(1, true);
    q1.add_transition('b', 1);
    let mut nfa: Nfa<char> = Nfa::new(0);
    nfa.add_state(q0).unwrap();
    nfa.add_state(q1).unwrap();
    let dfa = nfa.to_dfa().unwrap();
    assert_eq!(dfa.states().len(), 2);
    assert_eq!(dfa.states()[0].transitions, vec![('a', 2)]);
    assert_eq!(dfa.states()[1].transitions, vec![('b', 2)]);
    assert_eq!(nfa.to_cdfa().unwrap().states().len(), 3);
}

#[test]
fn subset_construction_fails_on_large_indices_and_missing_states() {
    let mut big: Nfa<char> = Nfa::new(0);
    big.add_state(NfaState::new(0, false)).unwrap();
    big.add_state(NfaState::new(64, false)).unwrap();
    assert_eq!(big.to_dfa().err(), Some(AutomatonError::CapacityError));

    let mut q0: NfaState<char> = NfaState::new(0, false);
    q0.add_transition('a', 3);
    let mut open: Nfa<char> = Nfa::new(0);
    open.add_state(q0).unwrap();
    assert_eq!(open.to_dfa().err(), Some(AutomatonError::LookupError));

    let none: Nfa<char> = Nfa::new(0);
    assert_eq!(none.to_dfa().err(), Some(AutomatonError::LookupError));
}

#[test]
fn regex_of_small_automata() {
    let mut q0: NfaState<String> = NfaState::new(0, false);
    q0.add_transition(String::from("a"), 1);
    let q1: NfaState<String> = NfaState::new(1, true);
    let mut one: Nfa<String> = Nfa::new(0);
    one.add_state(q0).unwrap();
    one.add_state(q1).unwrap();
    assert_eq!(one.to_regex(), Ok(String::from("a")));

    let mut l0: NfaState<char> = NfaState::new(0, true);
    l0.add_transition('a', 0);
    let mut looping: Nfa<char> = Nfa::new(0);
    looping.add_state(l0).unwrap();
    assert_eq!(looping.to_regex(), Ok(String::from("(a)*")));

    let mut e0: NfaState<char> = NfaState::new(0, false);
    e0.add_transition('a', 0);
    let mut empty: Nfa<char> = Nfa::new(0);
    empty.add_state(e0).unwrap();
    assert_eq!(empty.to_regex(), Ok(String::from("\u{2205}")));

    let mut w0: NfaState<String> = NfaState::new(0, false);
    w0.add_transition(String::from("ab"), 1);
    w0.add_transition(String::from("c"), 1);
    let w1: NfaState<String> = NfaState::new(1, true);
    let mut words: Nfa<String> = Nfa::new(0);
    words.add_state(w0).unwrap();
    words.add_state(w1).unwrap();
    assert_eq!(words.to_regex(), Ok(String::from("(c+ab)")));
}

#[test]
fn regex_has_balanced_parentheses() {
    for nfa in [eps_cycle_nfa(), word_nfa(), two_state_nfa()] {
        let text = nfa.to_regex().unwrap();
        assert!(is_balanced(&text), "{:?}", text);
        assert!(!text.is_empty());
    }
}

#[test]
fn rendering_of_an_nfa_shows_the_labels() {
    assert_eq!(
        word_nfa().render(),
        "Starting state: 0\n0 -> 0 by \"ab\"\n0 -> 1 by \"\"\n1 -> 1 by \"a\"\nTerminal states:\n0\n1\n"
    );
    let chars = word_nfa().split_words().unwrap();
    assert_eq!(
        chars.to_nfa_string().render(),
        chars.render()
    );
}
