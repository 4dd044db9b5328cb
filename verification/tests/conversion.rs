use automata::automaton::FiniteAutomaton;
use automata::nfa::NFA;
use automata::result::Error;
use automata::state::State;

fn sample() -> NFA {
    let mut nfa = NFA::new();
    nfa.add_initial_states(&["X"]).unwrap();
    nfa.add_finite_states(&["Y"]).unwrap();
    let rules = [
        ("X", "ɛ", "5"),
        ("5", "a", "5"),
        ("5", "b", "5"),
        ("5", "ɛ", "1"),
        ("1", "a", "3"),
        ("3", "a", "2"),
        ("1", "b", "4"),
        ("4", "b", "2"),
        ("2", "ɛ", "6"),
        ("6", "a", "6"),
        ("6", "b", "6"),
        ("6", "ɛ", "Y"),
    ];
    for (from, input, to) in rules {
        nfa.add_transfer_rule(from, input, to).unwrap();
    }
    nfa
}

fn names(states: &[State]) -> Vec<String> {
    states.iter().map(|s| s.state_id.clone()).collect()
}

/// The state that `dfa` is in after reading `input` from its initial state, if every
/// character has exactly one transition.
fn run(dfa: &NFA, input: &str) -> Option<String> {
    assert_eq!(dfa.initial_states.items.len(), 1);
    let mut at = dfa.initial_states.items[0].state_id.clone();
    for ch in input.chars() {
        let symbol = ch.to_string();
        let row = dfa.adjacency_matrix.get(&at)?;
        let mut next = Vec::new();
        for (to, edge) in row.keys.items.iter().zip(row.vals.iter()) {
            if edge.contains_input(&symbol) {
                next.push(to.state_id.clone());
            }
        }
        if next.len() != 1 {
            return None;
        }
        at = next.remove(0);
    }
    Some(at)
}

fn accepts(dfa: &NFA, input: &str) -> bool {
    match run(dfa, input) {
        Some(at) => dfa.finite_states.contains(&at),
        None => false,
    }
}

#[test]
fn macro_test() {
    let mut nfa = sample();
    nfa.calc_epsilon_closure_matrix();
    let dfa = nfa.to_dfa().unwrap();
    assert_eq!(names(&dfa.initial_states.items), vec!["0"]);
    assert_eq!(
        names(&dfa.get_all_states_into_iter()),
        vec!["0", "1", "2", "3", "4", "5", "6"]
    );
    assert_eq!(names(&dfa.get_all_finite_states_into_iter()), vec!["3", "4", "5", "6"]);
    assert_eq!(names(&dfa.get_all_infinite_states_into_iter()), vec!["0", "1", "2"]);
    assert_eq!(dfa.get_states_num(), 7);
    let inputs: Vec<String> =
        dfa.feasible_inputs.items.iter().map(|i| i.get_str().to_string()).collect();
    assert_eq!(inputs, vec!["a", "b"]);
    for word in ["aa", "bb", "aabb", "bbaa", "aaaa", "bbbb", "aabbaa", "bbaabb"] {
        assert!(accepts(&dfa, word), "{}", word);
    }
    assert!(!accepts(&dfa, ""));
    assert!(!accepts(&dfa, "a"));
    assert!(!accepts(&dfa, "ab"));
    assert!(!accepts(&dfa, "abab"));
    assert_eq!(run(&dfa, "c"), None);
    assert_eq!(run(&dfa, "aɛ"), None);
}

#[test]
fn conversion_gives_the_expected_transitions() {
    let mut nfa = sample();
    nfa.calc_epsilon_closure_matrix();
    let (dfa, subsets) = nfa.to_dfa_with_subsets().unwrap();
    let listed: Vec<Vec<String>> = subsets.iter().map(|s| names(&s.items)).collect();
    assert_eq!(
        listed,
        vec![
            vec!["1", "5", "X"],
            vec!["1", "3", "5"],
            vec!["1", "4", "5"],
            vec!["1", "2", "3", "5", "6", "Y"],
            vec!["1", "2", "4", "5", "6", "Y"],
            vec!["1", "4", "5", "6", "Y"],
            vec!["1", "3", "5", "6", "Y"],
        ]
    );
    let table = [
        ("0", "1", "2"),
        ("1", "3", "2"),
        ("2", "1", "4"),
        ("3", "3", "5"),
        ("4", "6", "4"),
        ("5", "6", "4"),
        ("6", "3", "5"),
    ];
    for (from, on_a, on_b) in table {
        assert_eq!(run(&dfa, "").as_deref(), Some("0"));
        let row = dfa.adjacency_matrix.get(from).unwrap();
        let mut got_a = Vec::new();
        let mut got_b = Vec::new();
        for (to, edge) in row.keys.items.iter().zip(row.vals.iter()) {
            if edge.contains_input("a") {
                got_a.push(to.state_id.clone());
            }
            if edge.contains_input("b") {
                got_b.push(to.state_id.clone());
            }
            assert!(!edge.contains_input("ɛ"));
        }
        assert_eq!(got_a, vec![on_a]);
        assert_eq!(got_b, vec![on_b]);
    }
    assert!(dfa.epsilon_closure_matrix.is_none());
}

#[test]
fn conversion_needs_the_closures() {
    let nfa = sample();
    assert!(matches!(nfa.to_dfa(), Err(Error::Uninitialized(_))));
    let mut nfa = sample();
    nfa.calc_epsilon_closure_matrix();
    assert!(nfa.to_dfa().is_ok());
    nfa.add_transfer_rule("Y", "a", "Y").unwrap();
    assert!(matches!(nfa.to_dfa(), Err(Error::Uninitialized(_))));
    assert!(matches!(nfa.to_dfa_with_subsets(), Err(Error::Uninitialized(_))));
}

#[test]
fn conversion_without_symbols_gives_one_state() {
    let mut nfa = NFA::new();
    nfa.add_initial_states(&["X"]).unwrap();
    nfa.add_finite_states(&["X"]).unwrap();
    nfa.add_transfer_rule("X", "ɛ", "Z").unwrap();
    nfa.calc_epsilon_closure_matrix();
    let (dfa, subsets) = nfa.to_dfa_with_subsets().unwrap();
    assert_eq!(subsets.len(), 1);
    assert_eq!(names(&subsets[0].items), vec!["X", "Z"]);
    assert_eq!(names(&dfa.get_all_states_into_iter()), vec!["0"]);
    assert_eq!(names(&dfa.initial_states.items), vec!["0"]);
    assert_eq!(dfa.feasible_inputs.items.len(), 0);
    assert_eq!(dfa.adjacency_matrix.get("0").unwrap().vals.len(), 0);
    // No move leads to the first composite state, so it is not marked accepting.
    assert_eq!(dfa.finite_states.items.len(), 0);
}

#[test]
fn first_state_is_accepting_where_a_move_leads_back() {
    let mut nfa = NFA::new();
    nfa.add_initial_states(&["X"]).unwrap();
    nfa.add_finite_states(&["X"]).unwrap();
    nfa.add_transfer_rule("X", "a", "X").unwrap();
    nfa.calc_epsilon_closure_matrix();
    let dfa = nfa.to_dfa().unwrap();
    assert_eq!(names(&dfa.get_all_states_into_iter()), vec!["0"]);
    assert_eq!(names(&dfa.get_all_finite_states_into_iter()), vec!["0"]);
    assert!(accepts(&dfa, "aaa"));
}

#[test]
fn conversion_numbers_past_nine() {
    // A counter that reads up to eleven times "a": twelve composite states.
    let mut nfa = NFA::new();
    nfa.add_initial_states(&["s00"]).unwrap();
    for i in 0..11 {
        let from = format!("s{:02}", i);
        let to = format!("s{:02}", i + 1);
        nfa.add_transfer_rule(&from, "a", &to).unwrap();
    }
    nfa.add_finite_states(&["s11"]).unwrap();
    nfa.calc_epsilon_closure_matrix();
    let dfa = nfa.to_dfa().unwrap();
    // "0" .. "11" for the counter, "12" for the empty composite state.
    assert_eq!(dfa.get_states_num(), 13);
    assert_eq!(
        names(&dfa.get_all_states_into_iter()),
        vec!["0", "1", "10", "11", "12", "2", "3", "4", "5", "6", "7", "8", "9"]
    );
    assert_eq!(run(&dfa, "aaaaaaaaaa").as_deref(), Some("10"));
    assert_eq!(run(&dfa, "aaaaaaaaaaa").as_deref(), Some("11"));
    assert_eq!(run(&dfa, "aaaaaaaaaaaa").as_deref(), Some("12"));
    assert_eq!(run(&dfa, "aaaaaaaaaaaaa").as_deref(), Some("12"));
    assert_eq!(names(&dfa.get_all_finite_states_into_iter()), vec!["11"]);
}
