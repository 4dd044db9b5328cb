use automata::disjoint_set::DisjointSet;

fn name(s: &str) -> String {
    s.to_string()
}

#[test]
fn test() {
    let mut disjoint_set = DisjointSet::new();
    disjoint_set.add_element("x");
    disjoint_set.add_element("y");
    disjoint_set.add_element_to("z", "x");
    disjoint_set.join("x", "y");
    assert_eq!(disjoint_set.get_father("x"), Some(&name("y")));
    assert_eq!(disjoint_set.get_father("y"), Some(&name("y")));
    assert_eq!(disjoint_set.get_father("z"), Some(&name("y")));
}

#[test]
fn test2() {
    let mut disjoint_set = DisjointSet::new();
    disjoint_set.add_elements(&["p", "q", "r"]);
    disjoint_set.add_elements(&[]);
    disjoint_set.add_elements(&["s"]);
    assert_eq!(disjoint_set.get_father("p"), Some(&name("p")));
    assert_eq!(disjoint_set.get_father("q"), Some(&name("p")));
    assert_eq!(disjoint_set.get_father("r"), Some(&name("p")));
    assert_eq!(disjoint_set.get_father("s"), Some(&name("s")));
    assert_eq!(disjoint_set.get_father("t"), None);
}

#[test]
fn elements_are_numbered_in_the_order_they_come() {
    let mut set = DisjointSet::new();
    assert_eq!(set.get_id("a"), None);
    assert_eq!(set.get_element(0), None);
    set.add_element("a");
    set.add_element("b");
    set.add_element("c");
    assert_eq!(set.get_id("a"), Some(0));
    assert_eq!(set.get_id("b"), Some(1));
    assert_eq!(set.get_id("c"), Some(2));
    assert_eq!(set.get_id("d"), None);
    assert_eq!(set.get_element(0), Some(&name("a")));
    assert_eq!(set.get_element(1), Some(&name("b")));
    assert_eq!(set.get_element(2), Some(&name("c")));
    assert_eq!(set.get_element(3), None);
}

#[test]
fn fathers_follow_the_joins() {
    let mut set = DisjointSet::new();
    for e in ["a", "b", "c", "d"] {
        set.add_element(e);
    }
    for id in 0..4 {
        assert_eq!(set.get_father_by_id(id), Some(id));
    }
    assert_eq!(set.get_father_by_id(4), None);
    set.join_by_id(0, 1);
    assert_eq!(set.get_father_by_id(0), Some(1));
    assert_eq!(set.get_father_by_id(1), Some(1));
    set.join_by_id(2, 3);
    set.join_by_id(0, 2);
    // The head of the class of 0 is 1; it gets the head of the class of 2, which is 3.
    for id in 0..4 {
        assert_eq!(set.get_father_by_id(id), Some(3));
    }
    // Joining what is joined, or what is no number, changes nothing.
    set.join_by_id(1, 2);
    set.join_by_id(0, 9);
    set.join_by_id(9, 0);
    for id in 0..4 {
        assert_eq!(set.get_father_by_id(id), Some(3));
    }
    set.join("a", "nobody");
    assert_eq!(set.get_father("a"), Some(&name("d")));
}

#[test]
fn adding_an_element_again_gives_it_a_new_number() {
    let mut set = DisjointSet::new();
    set.add_element("a");
    set.add_element("b");
    set.add_element("a");
    // "a" had 0; it is numbered anew with the number of elements, 2.
    assert_eq!(set.get_id("a"), Some(2));
    assert_eq!(set.get_id("b"), Some(1));
    assert_eq!(set.get_element(0), None);
    assert_eq!(set.get_father_by_id(2), Some(2));
    // The next element takes the number of elements, 2, from "a".
    set.add_element("c");
    assert_eq!(set.get_id("c"), Some(2));
    assert_eq!(set.get_id("a"), None);
    assert_eq!(set.get_father("c"), Some(&name("c")));
}

#[test]
fn an_element_can_join_its_own_class() {
    let mut set = DisjointSet::new();
    set.add_element_to("a", "a");
    assert_eq!(set.get_id("a"), Some(0));
    assert_eq!(set.get_father("a"), Some(&name("a")));
    set.add_element_to("b", "a");
    assert_eq!(set.get_father("b"), Some(&name("a")));
}

#[test]
fn an_element_joins_a_class_only_where_the_class_is_there() {
    let mut set = DisjointSet::new();
    assert!(!set.try_add_element_to("a", "nobody"));
    assert_eq!(set.get_id("a"), None);
    assert!(set.try_add_element_to("a", "a"));
    assert!(set.try_add_element_to("b", "a"));
    assert_eq!(set.get_father("b"), Some(&name("a")));
    assert!(!set.try_add_element_to("c", "d"));
    assert_eq!(set.get_id("c"), None);
    assert_eq!(set.get_father_by_id(2), None);
    // "a" is numbered anew with 2 and put under "b", which keeps 1. The class is still
    // headed by the number 0, which no element has any more.
    assert!(set.try_add_element_to("a", "b"));
    assert_eq!(set.get_id("a"), Some(2));
    assert_eq!(set.get_father_by_id(2), Some(0));
    assert_eq!(set.get_father("a"), None);
    // The next number is 2 again: "c" would take it from "a".
    assert!(!set.try_add_element_to("c", "a"));
    assert_eq!(set.get_id("a"), Some(2));
    assert_eq!(set.get_id("c"), None);
}
