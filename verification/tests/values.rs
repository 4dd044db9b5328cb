use automata::decimal::decimal_string;
use automata::edge::Edge;
use automata::input::{Input, EPSILON};
use automata::lexical::{compare_text, Rank};
use automata::ordered::OrdSet;
use automata::render::braced_string;
use automata::state::State;
use automata::state_map::StateMap;

fn texts(set: &OrdSet<State>) -> Vec<String> {
    set.items.iter().map(|s| s.state_id.clone()).collect()
}

fn set_of(ids: &[&str]) -> OrdSet<State> {
    OrdSet::from_items(ids.iter().map(|s| State::new(s)).collect())
}

#[test]
fn states_and_inputs_keep_their_text() {
    let s = State::new("q0");
    assert_eq!(s.state_id, "q0");
    assert_eq!(s.clone(), s);
    assert!(s == State::new("q0"));
    assert!(s != State::new("q1"));
    let i = Input::new("a");
    assert_eq!(i.get_str(), "a");
    assert_eq!(i.input_str, "a");
    assert!(i.clone() == i);
    assert!(i != Input::new("b"));
    assert_eq!(Input::new(EPSILON).get_str(), "ɛ");
    assert_eq!(State::new("").state_id, "");
}

#[test]
fn texts_compare_in_dictionary_order() {
    assert_eq!(compare_text("", ""), Rank::Same);
    assert_eq!(compare_text("", "a"), Rank::Before);
    assert_eq!(compare_text("a", ""), Rank::After);
    assert_eq!(compare_text("abc", "abc"), Rank::Same);
    assert_eq!(compare_text("ab", "abc"), Rank::Before);
    assert_eq!(compare_text("abc", "ab"), Rank::After);
    assert_eq!(compare_text("abc", "abd"), Rank::Before);
    assert_eq!(compare_text("b", "abc"), Rank::After);
    assert_eq!(compare_text("10", "2"), Rank::Before);
    assert_eq!(compare_text("Z", "a"), Rank::Before);
    assert_eq!(compare_text("z", "é"), Rank::Before);
    assert_eq!(compare_text("ɛ", "z"), Rank::After);
    assert_eq!(compare_text("é", "ɛ"), Rank::Before);
    // The order is that of `str`.
    let words = ["", "a", "ab", "b", "B", "10", "2", "é", "ɛ", "z", "\u{10000}", "\u{ffff}"];
    for a in words {
        for b in words {
            let expected = if a < b {
                Rank::Before
            } else if a == b {
                Rank::Same
            } else {
                Rank::After
            };
            assert_eq!(compare_text(a, b), expected, "{:?} {:?}", a, b);
        }
    }
}

#[test]
fn numerals_are_decimal() {
    assert_eq!(decimal_string(0), "0");
    assert_eq!(decimal_string(7), "7");
    assert_eq!(decimal_string(9), "9");
    assert_eq!(decimal_string(10), "10");
    assert_eq!(decimal_string(11), "11");
    assert_eq!(decimal_string(109), "109");
    assert_eq!(decimal_string(1234567890), "1234567890");
    assert_eq!(decimal_string(usize::MAX), usize::MAX.to_string());
    for n in 0..1000 {
        assert_eq!(decimal_string(n), n.to_string());
    }
}

#[test]
fn a_set_holds_each_text_once_and_in_order() {
    let mut set: OrdSet<State> = OrdSet::new();
    assert_eq!(set.len(), 0);
    assert!(!set.contains("a"));
    assert!(set.insert(State::new("m")));
    assert!(set.insert(State::new("a")));
    assert!(set.insert(State::new("z")));
    assert!(!set.insert(State::new("m")));
    assert!(set.insert(State::new("b")));
    assert_eq!(texts(&set), vec!["a", "b", "m", "z"]);
    assert_eq!(set.len(), 4);
    assert!(set.contains("a") && set.contains("b") && set.contains("m") && set.contains("z"));
    assert!(!set.contains("") && !set.contains("c") && !set.contains("zz"));
    assert_eq!(set.search("a"), Ok(0));
    assert_eq!(set.search("z"), Ok(3));
    assert_eq!(set.search(""), Err(0));
    assert_eq!(set.search("c"), Err(2));
    assert_eq!(set.search("zz"), Err(4));
    set.insert_at(2, State::new("c"));
    assert_eq!(texts(&set), vec!["a", "b", "c", "m", "z"]);
    assert_eq!(texts(&set.clone()), texts(&set));
}

#[test]
fn sets_are_compared_by_what_they_hold() {
    let a = set_of(&["x", "y", "z"]);
    let b = set_of(&["z", "x", "y", "x"]);
    let c = set_of(&["x", "y"]);
    let d = set_of(&["x", "y", "w"]);
    let empty = set_of(&[]);
    assert_eq!(texts(&b), vec!["x", "y", "z"]);
    assert!(a.same_as(&b) && b.same_as(&a) && a.same_as(&a));
    assert!(!a.same_as(&c) && !c.same_as(&a));
    assert!(!a.same_as(&d) && !d.same_as(&a));
    assert!(empty.same_as(&set_of(&[])) && !empty.same_as(&a));
    assert!(a.intersects(&c) && c.intersects(&a));
    assert!(set_of(&["w"]).intersects(&d));
    assert!(!set_of(&["w"]).intersects(&a));
    assert!(!empty.intersects(&a) && !a.intersects(&empty) && !empty.intersects(&empty));
    let mut e = set_of(&["b", "d"]);
    e.absorb(&set_of(&["c", "a", "d"]));
    assert_eq!(texts(&e), vec!["a", "b", "c", "d"]);
    e.absorb(&empty);
    assert_eq!(texts(&e), vec!["a", "b", "c", "d"]);
    assert_eq!(braced_string(&e), "{a, b, c, d}");
    assert_eq!(braced_string(&c), "{x, y}");
    assert_eq!(braced_string(&set_of(&["x"])), "{x}");
    assert_eq!(braced_string(&empty), "{}");
}

#[test]
fn an_edge_holds_its_symbols() {
    let mut edge = Edge::with_inputs(vec![Input::new("b"), Input::new("a"), Input::new("b")]);
    assert!(edge.contains_input("a"));
    assert!(edge.contains_input("b"));
    assert!(!edge.contains_input("c"));
    assert!(!edge.contains_input("ɛ"));
    assert_eq!(edge.input_set.items.len(), 2);
    edge.add_input("ɛ");
    edge.add_input("a");
    assert!(edge.contains_input("ɛ"));
    let held: Vec<&str> = edge.input_set.items.iter().map(|i| i.get_str()).collect();
    assert_eq!(held, vec!["a", "b", "ɛ"]);
    let empty = Edge::with_inputs(vec![]);
    assert!(!empty.contains_input("a"));
    assert!(!empty.contains_input(""));
}

#[test]
fn a_map_keeps_the_first_value_of_a_key() {
    let mut map: StateMap<u32> = StateMap::new();
    assert_eq!(map.len(), 0);
    assert_eq!(map.find("k"), None);
    assert_eq!(map.get("k"), None);
    assert_eq!(map.ensure_key(State::new("k"), 1), 0);
    assert_eq!(map.ensure_key(State::new("a"), 2), 0);
    assert_eq!(map.ensure_key(State::new("z"), 3), 2);
    assert_eq!(map.ensure_key(State::new("k"), 4), 1);
    assert_eq!(map.len(), 3);
    assert_eq!(map.get("a"), Some(&2));
    assert_eq!(map.get("k"), Some(&1));
    assert_eq!(map.get("z"), Some(&3));
    assert_eq!(map.get("b"), None);
    assert_eq!(map.find("z"), Some(2));
    assert_eq!(map.vals, vec![2, 1, 3]);
}
