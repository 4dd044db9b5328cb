use automata::automaton::FiniteAutomaton;
use automata::dfa::DFA;
use automata::input::{is_epsilon, Input, EPSILON};
use automata::nfa::NFA;
use automata::result::Error;
use automata::state::State;

fn names(states: &[State]) -> Vec<String> {
    states.iter().map(|s| s.state_id.clone()).collect()
}

fn ref_names(states: &[&State]) -> Vec<String> {
    states.iter().map(|s| s.state_id.clone()).collect()
}

fn symbols(inputs: &[Input]) -> Vec<String> {
    inputs.iter().map(|s| s.get_str().to_string()).collect()
}

fn states(ids: &[&str]) -> Vec<State> {
    ids.iter().map(|s| State::new(s)).collect()
}

#[test]
fn a_new_automaton_is_empty() {
    let nfa = NFA::new();
    assert_eq!(nfa.get_states_num(), 0);
    assert!(nfa.get_all_states_iter().is_empty());
    assert!(nfa.get_all_finite_states_iter().is_empty());
    assert!(nfa.get_all_infinite_states_iter().is_empty());
    assert!(nfa.initial_states.items.is_empty());
    assert!(nfa.feasible_inputs.items.is_empty());
    assert!(nfa.epsilon_closure_matrix.is_none());
    let dfa = DFA::new();
    assert_eq!(dfa.get_states_num(), 0);
    assert!(dfa.initial_state.is_none());
    assert!(dfa.get_all_states_into_iter().is_empty());
}

#[test]
fn a_transition_makes_both_ends_states() {
    let mut nfa = NFA::new();
    nfa.add_transfer_rule("q", "a", "p").unwrap();
    assert_eq!(ref_names(&nfa.get_all_states_iter()), vec!["p", "q"]);
    assert_eq!(names(&nfa.get_all_states_into_iter()), vec!["p", "q"]);
    assert_eq!(nfa.get_states_num(), 2);
    assert!(nfa.initial_states.items.is_empty());
    assert!(nfa.finite_states.items.is_empty());
    let mut dfa = DFA::new();
    dfa.add_transfer_rule("q", "a", "q").unwrap();
    assert_eq!(names(&dfa.get_all_states_into_iter()), vec!["q"]);
}

#[test]
fn the_alphabet_is_what_the_transitions_use() {
    let mut one = NFA::new();
    one.add_transfer_rule("1", "b", "2").unwrap();
    one.add_transfer_rule("1", EPSILON, "2").unwrap();
    one.add_transfer_rule("2", "a", "1").unwrap();
    one.add_transfer_rule("2", "b", "2").unwrap();
    assert_eq!(symbols(&one.feasible_inputs.items), vec!["a", "b"]);
    // The same transitions in another order.
    let mut other = NFA::new();
    other.add_transfer_rule("2", "b", "2").unwrap();
    other.add_transfer_rule("2", "a", "1").unwrap();
    other.add_transfer_rule("1", EPSILON, "2").unwrap();
    other.add_transfer_rule("1", "b", "2").unwrap();
    assert_eq!(symbols(&other.feasible_inputs.items), vec!["a", "b"]);
    assert_eq!(one.describe(), other.describe());
    let mut only_epsilon = DFA::new();
    only_epsilon.add_transfer_rule("1", "ɛ", "2").unwrap();
    assert!(only_epsilon.feasible_inputs.items.is_empty());
    assert!(is_epsilon("ɛ"));
    assert!(!is_epsilon("e"));
    assert!(!is_epsilon(""));
}

#[test]
fn transitions_between_two_states_share_one_edge() {
    let mut nfa = NFA::new();
    nfa.add_transfer_rule("1", "b", "2").unwrap();
    nfa.add_transfer_rule("1", "a", "2").unwrap();
    nfa.add_transfer_rule("1", "b", "2").unwrap();
    let row = nfa.adjacency_matrix.get("1").unwrap();
    assert_eq!(names(&row.keys.items), vec!["2"]);
    assert_eq!(symbols(&row.vals[0].input_set.items), vec!["a", "b"]);
    assert_eq!(nfa.adjacency_matrix.get("2").unwrap().vals.len(), 0);
    assert!(nfa.adjacency_matrix.get("3").is_none());
}

#[test]
fn initial_and_accepting_states_become_states() {
    let mut nfa = NFA::new();
    nfa.add_initial_states(&["s", "r", "s"]).unwrap();
    nfa.add_finite_states(&["z", "r"]).unwrap();
    nfa.add_initial_states(&[]).unwrap();
    assert_eq!(names(&nfa.initial_states.items), vec!["r", "s"]);
    assert_eq!(names(&nfa.get_all_finite_states_into_iter()), vec!["r", "z"]);
    assert_eq!(ref_names(&nfa.get_all_finite_states_iter()), vec!["r", "z"]);
    assert_eq!(names(&nfa.get_all_states_into_iter()), vec!["r", "s", "z"]);
    assert_eq!(names(&nfa.get_all_infinite_states_into_iter()), vec!["s"]);
    assert_eq!(ref_names(&nfa.get_all_infinite_states_iter()), vec!["s"]);
    assert_eq!(nfa.get_states_num(), 3);
}

#[test]
fn states_are_listed_in_dictionary_order() {
    let mut nfa = NFA::new();
    for id in ["b", "B", "10", "2", "ab", "a", "", "é", "z"] {
        nfa.add_finite_states(&[id]).unwrap();
    }
    assert_eq!(
        names(&nfa.get_all_states_into_iter()),
        vec!["", "10", "2", "B", "a", "ab", "b", "z", "é"]
    );
}

#[test]
fn a_deterministic_automaton_has_one_initial_state() {
    let mut dfa = DFA::new();
    assert!(matches!(dfa.add_initial_states(&[]), Err(Error::IllegalArgument(_))));
    assert!(matches!(dfa.add_initial_states(&["a", "b"]), Err(Error::IllegalArgument(_))));
    assert!(matches!(dfa.add_initial_states(&["a", "a"]), Err(Error::IllegalArgument(_))));
    assert!(dfa.initial_state.is_none());
    assert_eq!(dfa.get_states_num(), 0);
    assert!(dfa.add_initial_states(&["a"]).is_ok());
    assert_eq!(dfa.initial_state.as_ref().unwrap().state_id, "a");
    assert_eq!(names(&dfa.get_all_states_into_iter()), vec!["a"]);
    assert!(matches!(dfa.add_initial_states(&["b"]), Err(Error::UnsupportedOperation(_))));
    assert!(matches!(dfa.add_initial_states(&[]), Err(Error::UnsupportedOperation(_))));
    assert_eq!(dfa.initial_state.as_ref().unwrap().state_id, "a");
    assert_eq!(dfa.get_states_num(), 1);
    dfa.add_finite_states(&["c", "a"]).unwrap();
    assert_eq!(names(&dfa.get_all_finite_states_into_iter()), vec!["a", "c"]);
    assert_eq!(ref_names(&dfa.get_all_infinite_states_iter()), Vec::<String>::new());
    dfa.add_transfer_rule("a", "x", "d").unwrap();
    assert_eq!(names(&dfa.get_all_infinite_states_into_iter()), vec!["d"]);
    assert_eq!(ref_names(&dfa.get_all_states_iter()), vec!["a", "c", "d"]);
    assert_eq!(ref_names(&dfa.get_all_finite_states_iter()), vec!["a", "c"]);
}

#[test]
fn errors_say_what_went_wrong() {
    let mut dfa = DFA::new();
    let illegal = dfa.add_initial_states(&[]).unwrap_err();
    assert_eq!(
        illegal.message(),
        "Illegal Argument: Unexpected number of initial states. A DFA has at most one state."
    );
    dfa.add_initial_states(&["a"]).unwrap();
    let unsupported = dfa.add_initial_states(&["a"]).unwrap_err();
    assert_eq!(
        unsupported.message(),
        "Unsupported Operation: Initial state is already specified. A DFA has at most one initial state."
    );
    let nfa = NFA::new();
    let uninitialized = nfa.get_epsilon_closure(&vec![]).unwrap_err();
    assert_eq!(
        uninitialized.message(),
        "Uninitialized: You need to invoke NFA::calc_epsilon_closure_matrix first."
    );
    assert_eq!(Error::IllegalArgument("").message(), "Illegal Argument: ");
}

fn chain() -> NFA {
    let mut nfa = NFA::new();
    nfa.add_transfer_rule("a", "ɛ", "b").unwrap();
    nfa.add_transfer_rule("b", "ɛ", "c").unwrap();
    nfa.add_transfer_rule("c", "x", "d").unwrap();
    nfa.add_transfer_rule("d", "ɛ", "a").unwrap();
    nfa.add_transfer_rule("e", "ɛ", "e").unwrap();
    nfa.add_transfer_rule("f", "y", "a").unwrap();
    nfa
}

#[test]
fn closures_follow_epsilon_transitions_only() {
    let mut nfa = chain();
    nfa.calc_epsilon_closure_matrix();
    let closure = |ids: &[&str]| names(&nfa.get_epsilon_closure(&states(ids)).unwrap().items);
    assert_eq!(closure(&["a"]), vec!["a", "b", "c"]);
    assert_eq!(closure(&["b"]), vec!["b", "c"]);
    assert_eq!(closure(&["c"]), vec!["c"]);
    assert_eq!(closure(&["d"]), vec!["a", "b", "c", "d"]);
    assert_eq!(closure(&["e"]), vec!["e"]);
    assert_eq!(closure(&["f"]), vec!["f"]);
    assert_eq!(closure(&[]), Vec::<String>::new());
    assert_eq!(closure(&["f", "b", "f"]), vec!["b", "c", "f"]);
    // Every state is in its own closure, and closures are closed.
    for s in ["a", "b", "c", "d", "e", "f"] {
        let of_s = closure(&[s]);
        assert!(of_s.contains(&s.to_string()));
        for t in &of_s {
            for u in closure(&[t.as_str()]) {
                assert!(of_s.contains(&u));
            }
        }
    }
}

#[test]
fn closures_are_found_through_long_chains() {
    // The chain runs against the dictionary order of the states.
    let mut nfa = NFA::new();
    let ids = ["9", "8", "7", "6", "5", "4", "3", "2", "1"];
    for pair in ids.windows(2) {
        nfa.add_transfer_rule(pair[1], "ɛ", pair[0]).unwrap();
    }
    nfa.calc_epsilon_closure_matrix();
    let all = names(&nfa.get_epsilon_closure(&states(&["1"])).unwrap().items);
    assert_eq!(all, vec!["1", "2", "3", "4", "5", "6", "7", "8", "9"]);
    let some = names(&nfa.get_epsilon_closure(&states(&["7"])).unwrap().items);
    assert_eq!(some, vec!["7", "8", "9"]);
}

#[test]
fn closures_are_forgotten_when_the_graph_changes() {
    let mut nfa = chain();
    assert!(matches!(nfa.get_epsilon_closure(&states(&["a"])), Err(Error::Uninitialized(_))));
    nfa.calc_epsilon_closure_matrix();
    assert!(nfa.get_epsilon_closure(&states(&["a"])).is_ok());
    // A state that is there already changes nothing.
    nfa.add_initial_states(&["a"]).unwrap();
    nfa.add_finite_states(&["d", "c"]).unwrap();
    assert!(nfa.get_epsilon_closure(&states(&["a"])).is_ok());
    // A new state does.
    nfa.add_finite_states(&["new"]).unwrap();
    assert!(matches!(nfa.get_epsilon_closure(&states(&["a"])), Err(Error::Uninitialized(_))));
    nfa.calc_epsilon_closure_matrix();
    assert_eq!(names(&nfa.get_epsilon_closure(&states(&["new"])).unwrap().items), vec!["new"]);
    nfa.add_initial_states(&["newer"]).unwrap();
    assert!(nfa.epsilon_closure_matrix.is_none());
    nfa.calc_epsilon_closure_matrix();
    // So does a transition, even one that is there already.
    nfa.add_transfer_rule("c", "x", "d").unwrap();
    assert!(matches!(nfa.get_epsilon_closure(&states(&[])), Err(Error::Uninitialized(_))));
}

#[test]
fn computing_the_closures_twice_gives_the_same() {
    let mut nfa = chain();
    nfa.calc_epsilon_closure_matrix();
    let first: Vec<(String, Vec<String>)> = {
        let index = nfa.epsilon_closure_matrix.as_ref().unwrap();
        index
            .keys
            .items
            .iter()
            .zip(index.vals.iter())
            .map(|(k, v)| (k.state_id.clone(), names(&v.items)))
            .collect()
    };
    let before = nfa.describe();
    nfa.calc_epsilon_closure_matrix();
    let second: Vec<(String, Vec<String>)> = {
        let index = nfa.epsilon_closure_matrix.as_ref().unwrap();
        index
            .keys
            .items
            .iter()
            .zip(index.vals.iter())
            .map(|(k, v)| (k.state_id.clone(), names(&v.items)))
            .collect()
    };
    assert_eq!(first, second);
    assert_eq!(first.len(), 6);
    assert_eq!(first[3], ("d".to_string(), vec!["a".to_string(), "b".into(), "c".into(), "d".into()]));
    assert_eq!(before, nfa.describe());
}

#[test]
fn straight_reachable_states_take_one_transition() {
    let nfa = chain();
    let reach = |ids: &[&str], by: &str| {
        names(&nfa.straight_reachable_states(&states(ids), by).items)
    };
    assert_eq!(reach(&["c"], "x"), vec!["d"]);
    assert_eq!(reach(&["c"], "y"), Vec::<String>::new());
    assert_eq!(reach(&["a", "b", "d"], "ɛ"), vec!["a", "b", "c"]);
    assert_eq!(reach(&["f", "c", "nobody"], "y"), vec!["a"]);
    assert_eq!(reach(&[], "x"), Vec::<String>::new());
}

#[test]
fn an_automaton_is_rendered_in_order() {
    let mut nfa = NFA::new();
    nfa.add_initial_states(&["X"]).unwrap();
    nfa.add_finite_states(&["Y", "5"]).unwrap();
    nfa.add_transfer_rule("X", "ɛ", "5").unwrap();
    nfa.add_transfer_rule("5", "b", "5").unwrap();
    nfa.add_transfer_rule("5", "a", "5").unwrap();
    nfa.add_transfer_rule("5", "a", "Y").unwrap();
    let expected = "FiniteAutomaton {\n    initial_states: {X}\n    finite_states: {5, Y}\n    transfer_rules: \n        5 => {a, b} => 5\n        5 => {a} => Y\n        X => {ɛ} => 5\n}";
    assert_eq!(nfa.describe(), expected);
    let empty = NFA::new();
    assert_eq!(
        empty.describe(),
        "FiniteAutomaton {\n    initial_states: {}\n    finite_states: {}\n    transfer_rules: \n}"
    );
}
