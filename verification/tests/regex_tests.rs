use automata::regex::synthesize;
use automata::{AutomatonError, Dfa, DfaState, Nfa, NfaState};

fn state(index: u64, terminal: bool, edges: &[(&str, u64)]) -> NfaState<String> {
    let mut s: NfaState<String> = NfaState::new(index, terminal);
    for (word, target) in edges {
        s.add_transition(String::from(*word), *target);
    }
    s
}

fn nfa(start: u64, states: Vec<NfaState<String>>) -> Nfa<String> {
    let mut n: Nfa<String> = Nfa::new(start);
    for s in states {
        n.add_state(s).unwrap();
    }
    n
}

#[test]
fn parallel_transitions_become_one_alternation() {
    let g = nfa(
        0,
        vec![state(0, false, &[("a", 1), ("b", 1), ("c", 1)]), state(1, true, &[])],
    );
    assert_eq!(synthesize(&g), Ok(String::from("(a+b+c)")));
}

#[test]
fn a_bypass_joins_what_was_there() {
    let g = nfa(
        0,
        vec![
            state(0, false, &[("x", 2), ("a", 1)]),
            state(1, false, &[("b", 2)]),
            state(2, true, &[]),
        ],
    );
    assert_eq!(synthesize(&g), Ok(String::from("(x+ab)")));
}

#[test]
fn a_loop_becomes_a_repetition() {
    let g = nfa(0, vec![state(0, true, &[("ab", 0)])]);
    assert_eq!(synthesize(&g), Ok(String::from("(ab)*")));

    let h = nfa(
        0,
        vec![state(0, false, &[("a", 0), ("b", 1)]), state(1, true, &[("c", 1)])],
    );
    assert_eq!(synthesize(&h), Ok(String::from("(a)*b(c)*")));
}

#[test]
fn states_are_taken_out_in_ascending_order() {
    // 5 is taken out before 9: what leads through 5 is written first.
    let g = nfa(
        9,
        vec![
            state(5, true, &[("b", 9)]),
            state(9, false, &[("a", 5)]),
        ],
    );
    assert_eq!(synthesize(&g), Ok(String::from("(ab)*a")));
}

#[test]
fn the_empty_word_and_the_empty_language() {
    let only_empty = nfa(0, vec![state(0, true, &[])]);
    assert_eq!(synthesize(&only_empty), Ok(String::from("")));

    let nothing = nfa(0, vec![state(0, false, &[("a", 0)])]);
    assert_eq!(synthesize(&nothing), Ok(String::from("\u{2205}")));

    let missing: Nfa<String> = Nfa::new(2);
    assert_eq!(synthesize(&missing), Err(AutomatonError::LookupError));
}

#[test]
fn regex_of_a_dfa() {
    let mut q0 = DfaState::new(0, false);
    q0.add_transition('0', 0);
    q0.add_transition('1', 1);
    let mut q1 = DfaState::new(1, true);
    q1.add_transition('0', 1);
    let mut dfa = Dfa::new(0);
    dfa.add_state(q0).unwrap();
    dfa.add_state(q1).unwrap();
    assert_eq!(dfa.to_regex(), Ok(String::from("(0)*1(0)*")));

    let as_nfa = dfa.to_nfa();
    assert_eq!(as_nfa.states()[0].transitions, vec![(String::from("0"), 0), (String::from("1"), 1)]);
    assert_eq!(as_nfa.starting_state(), 0);
}
