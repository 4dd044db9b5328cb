//! What nondeterministic and deterministic automata have in common.

use vstd::prelude::*;
use crate::graph::{add_arc, add_node, arc, graph_wf, uses_symbol, Graph};
use crate::input::{epsilon, is_epsilon, Input};
use crate::lexical::{increasing, is_listing, lemma_names_step, names, precedes, Text};
use crate::ordered::OrdSet;
use crate::result::IResult;
use crate::state::State;

verus! {

/// The texts of the states that `v` refers to.
pub open spec fn texts_of(v: Seq<&State>) -> Seq<Text> {
    v.map_values(|s: &State| s@)
}

/// The texts of the states of `v`.
pub open spec fn texts_in(v: Seq<State>) -> Seq<Text> {
    v.map_values(|s: State| s@)
}

/// The items of a set of states name the texts of the set.
pub proof fn lemma_items_texts(set: &OrdSet<State>)
    ensures
        texts_in(set.items@) == set.texts(),
        texts_in(set.items@).to_set() == set@,
{
    assert(texts_in(set.items@) =~= set.texts());
}

/// One name names one text.
pub proof fn lemma_names_one(id: &str)
    ensures
        names(seq![id]) == set![id@],
{
    let m = seq![id].map_values(|s: &str| s@);
    assert(m =~= seq![id@]);
    assert(seq![id@].to_set() =~= set![id@]) by {
        assert(seq![id@][0] == id@);
    }
}

/// A finite automaton: states, some of them initial and some accepting, and transitions
/// between states, each labelled by an input symbol or by the epsilon symbol.
pub trait FiniteAutomaton: Sized {
    /// The automaton is consistent: its sets are in order, every state that it mentions
    /// is a node of its graph, and its alphabet is what its transitions use.
    spec fn wf(&self) -> bool;

    /// The identifiers of the states.
    spec fn states(&self) -> Set<Text>;

    /// The identifiers of the initial states.
    spec fn initial(&self) -> Set<Text>;

    /// The identifiers of the accepting states.
    spec fn accepting(&self) -> Set<Text>;

    /// The symbols other than epsilon that label some transition.
    spec fn alphabet(&self) -> Set<Text>;

    /// Whether the automaton moves from `from` to `to` on `symbol`.
    spec fn has_transition(&self, from: Text, symbol: Text, to: Text) -> bool;

    /// An automaton without states.
    fn new() -> (a: Self)
        ensures
            a.wf(),
            a.states() == Set::<Text>::empty(),
            a.initial() == Set::<Text>::empty(),
            a.accepting() == Set::<Text>::empty(),
            a.alphabet() == Set::<Text>::empty(),
            forall|f: Text, s: Text, t: Text| !a.has_transition(f, s, t),
    ;

    /// Makes the states named by `initial_states` initial states. Where the automaton
    /// refuses, nothing changes.
    fn add_initial_states(&mut self, initial_states: &[&str]) -> (r: IResult<()>)
        requires
            old(self).wf(),
        ensures
            final(self).wf(),
            final(self).accepting() == old(self).accepting(),
            final(self).alphabet() == old(self).alphabet(),
            forall|f: Text, s: Text, t: Text|
                final(self).has_transition(f, s, t) == old(self).has_transition(f, s, t),
            r is Ok ==> final(self).initial() == old(self).initial().union(names(initial_states@))
                && final(self).states() == old(self).states().union(names(initial_states@)),
            r is Err ==> final(self).initial() == old(self).initial() && final(self).states()
                == old(self).states(),
    ;

    /// Makes the states named by `finite_states` accepting states.
    fn add_finite_states(&mut self, finite_states: &[&str]) -> (r: IResult<()>)
        requires
            old(self).wf(),
        ensures
            r is Ok,
            final(self).wf(),
            final(self).accepting() == old(self).accepting().union(names(finite_states@)),
            final(self).states() == old(self).states().union(names(finite_states@)),
            final(self).initial() == old(self).initial(),
            final(self).alphabet() == old(self).alphabet(),
            forall|f: Text, s: Text, t: Text|
                final(self).has_transition(f, s, t) == old(self).has_transition(f, s, t),
    ;

    /// Adds the transition from `from_state_id` to `to_state_id` on `input_str`. Both
    /// states become states of the automaton, and the symbol, unless it is epsilon, a
    /// symbol of its alphabet.
    fn add_transfer_rule(&mut self, from_state_id: &str, input_str: &str, to_state_id: &str) -> (r:
        IResult<()>)
        requires
            old(self).wf(),
        ensures
            r is Ok,
            final(self).wf(),
            final(self).states() == old(self).states().insert(from_state_id@).insert(
                to_state_id@,
            ),
            forall|f: Text, s: Text, t: Text|
                final(self).has_transition(f, s, t) <==> old(self).has_transition(f, s, t) || (f
                    == from_state_id@ && s == input_str@ && t == to_state_id@),
            final(self).alphabet() == if input_str@ == epsilon() {
                old(self).alphabet()
            } else {
                old(self).alphabet().insert(input_str@)
            },
            final(self).initial() == old(self).initial(),
            final(self).accepting() == old(self).accepting(),
    ;

    /// The states, in dictionary order.
    fn get_all_states_iter(&self) -> (v: Vec<&State>)
        requires
            self.wf(),
        ensures
            is_listing(texts_of(v@), self.states()),
    ;

    /// Copies of the states, in dictionary order.
    fn get_all_states_into_iter(&self) -> (v: Vec<State>)
        requires
            self.wf(),
        ensures
            is_listing(texts_in(v@), self.states()),
    ;

    /// The accepting states, in dictionary order.
    fn get_all_finite_states_iter(&self) -> (v: Vec<&State>)
        requires
            self.wf(),
        ensures
            is_listing(texts_of(v@), self.accepting()),
    ;

    /// Copies of the accepting states, in dictionary order.
    fn get_all_finite_states_into_iter(&self) -> (v: Vec<State>)
        requires
            self.wf(),
        ensures
            is_listing(texts_in(v@), self.accepting()),
    ;

    /// The states that are not accepting, in dictionary order.
    fn get_all_infinite_states_iter(&self) -> (v: Vec<&State>)
        requires
            self.wf(),
        ensures
            is_listing(texts_of(v@), self.states().difference(self.accepting())),
    ;

    /// Copies of the states that are not accepting, in dictionary order.
    fn get_all_infinite_states_into_iter(&self) -> (v: Vec<State>)
        requires
            self.wf(),
        ensures
            is_listing(texts_in(v@), self.states().difference(self.accepting())),
    ;

    /// The number of states.
    fn get_states_num(&self) -> (n: usize)
        requires
            self.wf(),
        ensures
            n == self.states().len(),
    ;
}

/// The alphabet holds exactly the symbols other than epsilon that the graph uses.
pub open spec fn alphabet_exact(alphabet: Set<Text>, g: &Graph) -> bool {
    forall|s: Text|
        #![trigger alphabet.contains(s)]
        #![trigger uses_symbol(g, s)]
        alphabet.contains(s) <==> s != epsilon() && uses_symbol(g, s)
}

/// Graphs with the same transitions use the same symbols.
pub proof fn lemma_same_arcs_same_symbols(g: &Graph, h: &Graph)
    requires
        forall|f: Text, s: Text, t: Text| arc(g, f, s, t) == arc(h, f, s, t),
    ensures
        forall|s: Text| uses_symbol(g, s) == uses_symbol(h, s),
{
    assert forall|s: Text| uses_symbol(g, s) == uses_symbol(h, s) by {
        if uses_symbol(g, s) {
            let (f, t) = choose|f: Text, t: Text| arc(g, f, s, t);
            assert(arc(h, f, s, t));
        }
        if uses_symbol(h, s) {
            let (f, t) = choose|f: Text, t: Text| arc(h, f, s, t);
            assert(arc(g, f, s, t));
        }
    }
}

/// Adds the states named by `ids` to `set`, and to the graph as nodes; tells whether
/// the graph got a new node.
pub fn add_states_to(set: &mut OrdSet<State>, g: &mut Graph, ids: &[&str]) -> (grown: bool)
    requires
        old(set).wf(),
        graph_wf(old(g)),
    ensures
        final(set).wf(),
        graph_wf(final(g)),
        final(set)@ == old(set)@.union(names(ids@)),
        final(g).dom() == old(g).dom().union(names(ids@)),
        forall|f: Text, s: Text, t: Text| arc(final(g), f, s, t) == arc(old(g), f, s, t),
        grown == (final(g).dom() != old(g).dom()),
        !grown ==> *final(g) == *old(g),
{
    let ghost set0 = set@;
    let ghost g0 = *g;
    let mut grown = false;
    let mut i: usize = 0;
    assert(ids@.take(0).map_values(|s: &str| s@) =~= Seq::<Text>::empty());
    assert(names(ids@.take(0)) =~= Set::<Text>::empty());
    assert(set0.union(Set::<Text>::empty()) =~= set0);
    assert(g0.dom().union(Set::<Text>::empty()) =~= g0.dom());
    while i < ids.len()
        invariant
            set.wf(),
            graph_wf(g),
            0 <= i <= ids@.len(),
            set@ == set0.union(names(ids@.take(i as int))),
            g.dom() == g0.dom().union(names(ids@.take(i as int))),
            forall|f: Text, s: Text, t: Text| arc(g, f, s, t) == arc(&g0, f, s, t),
            grown == (g.dom() != g0.dom()),
            !grown ==> *g == g0,
        decreases ids@.len() - i,
    {
        set.insert(State::new(ids[i]));
        let added = add_node(g, ids[i]);
        if added {
            grown = true;
        }
        proof {
            lemma_names_step(ids@, i as int);
            let upto = names(ids@.take(i as int));
            assert(set0.union(upto).insert(ids@[i as int]@) =~= set0.union(
                upto.insert(ids@[i as int]@),
            ));
            assert(g0.dom().union(upto).insert(ids@[i as int]@) =~= g0.dom().union(
                upto.insert(ids@[i as int]@),
            ));
            if added {
                assert(g.dom().contains(ids@[i as int]@));
                assert(!g0.dom().contains(ids@[i as int]@));
            }
        }
        i = i + 1;
    }
    assert(ids@.take(ids@.len() as int) =~= ids@);
    grown
}

/// Adds a transition to the graph and, unless it is labelled epsilon, its symbol to the
/// alphabet.
pub fn add_rule(alphabet: &mut OrdSet<Input>, g: &mut Graph, from: &str, symbol: &str, to: &str)
    requires
        old(alphabet).wf(),
        graph_wf(old(g)),
        alphabet_exact(old(alphabet)@, old(g)),
    ensures
        final(alphabet).wf(),
        graph_wf(final(g)),
        alphabet_exact(final(alphabet)@, final(g)),
        final(g).dom() == old(g).dom().insert(from@).insert(to@),
        forall|f: Text, s: Text, t: Text|
            arc(final(g), f, s, t) <==> arc(old(g), f, s, t) || (f == from@ && s == symbol@ && t
                == to@),
        final(alphabet)@ == if symbol@ == epsilon() {
            old(alphabet)@
        } else {
            old(alphabet)@.insert(symbol@)
        },
{
    let ghost g0 = *g;
    if !is_epsilon(symbol) {
        alphabet.insert(Input::new(symbol));
    }
    add_arc(g, from, symbol, to);
    proof {
        assert forall|s: Text|
            #![trigger alphabet@.contains(s)]
            #![trigger uses_symbol(g, s)]
            alphabet@.contains(s) <==> s != epsilon() && uses_symbol(g, s) by {
            if uses_symbol(g, s) {
                let (f, t) = choose|f: Text, t: Text| arc(g, f, s, t);
                if arc(&g0, f, s, t) {
                    assert(uses_symbol(&g0, s));
                }
            }
            if uses_symbol(&g0, s) {
                let (f, t) = choose|f: Text, t: Text| arc(&g0, f, s, t);
                assert(arc(g, f, s, t));
            }
            if s == symbol@ {
                assert(arc(g, from@, s, to@));
            }
        }
    }
}

/// The states of `set`, in order.
pub fn refs_of(set: &OrdSet<State>) -> (v: Vec<&State>)
    requires
        set.wf(),
    ensures
        is_listing(texts_of(v@), set@),
        texts_of(v@) == set.texts(),
{
    let mut v: Vec<&State> = Vec::new();
    let n = set.items.len();
    let mut i: usize = 0;
    while i < n
        invariant
            n == set.items@.len(),
            0 <= i <= n,
            v@.len() == i,
            forall|k: int| 0 <= k < i ==> (#[trigger] v@[k])@ == set.items@[k]@,
        decreases n - i,
    {
        v.push(&set.items[i]);
        i = i + 1;
    }
    assert(texts_of(v@) =~= set.texts());
    v
}

/// Copies of the states of `set`, in order.
pub fn copies_of(set: &OrdSet<State>) -> (v: Vec<State>)
    requires
        set.wf(),
    ensures
        is_listing(texts_in(v@), set@),
        texts_in(v@) == set.texts(),
{
    let c = set.clone();
    assert(texts_in(c.items@) =~= c.texts());
    c.items
}

/// The states of `set` that are not in `without`, in order.
pub fn refs_outside<'a>(set: &'a OrdSet<State>, without: &OrdSet<State>) -> (v: Vec<&'a State>)
    requires
        set.wf(),
        without.wf(),
    ensures
        is_listing(texts_of(v@), set@.difference(without@)),
{
    let mut v: Vec<&State> = Vec::new();
    let n = set.items.len();
    let mut i: usize = 0;
    assert(texts_of(v@).to_set() =~= set.texts().take(0).to_set().difference(without@));
    while i < n
        invariant
            set.wf(),
            without.wf(),
            n == set.items@.len(),
            0 <= i <= n,
            increasing(texts_of(v@)),
            texts_of(v@).to_set() == set.texts().take(i as int).to_set().difference(without@),
        decreases n - i,
    {
        let ghost old_v = texts_of(v@);
        let ghost x = set.texts()[i as int];
        proof {
            assert(set.texts().take(i as int + 1) =~= set.texts().take(i as int).push(x));
            set.texts().take(i as int).lemma_push_to_set_commute(x);
        }
        if !without.contains(set.items[i].state_id.as_str()) {
            v.push(&set.items[i]);
            proof {
                assert(texts_of(v@) =~= old_v.push(x));
                old_v.lemma_push_to_set_commute(x);
                let now = texts_of(v@);
                assert forall|a: int, b: int| 0 <= a < b < now.len() implies precedes(
                    #[trigger] now[a],
                    #[trigger] now[b],
                ) by {
                    if b == old_v.len() {
                        assert(old_v.to_set().contains(old_v[a]));
                        assert(set.texts().take(i as int).to_set().contains(old_v[a]));
                        let k = choose|k: int|
                            0 <= k < set.texts().take(i as int).len() && set.texts().take(
                                i as int,
                            )[k] == old_v[a];
                        assert(precedes(set.texts()[k], set.texts()[i as int]));
                    } else {
                        assert(precedes(old_v[a], old_v[b]));
                    }
                }
                assert(texts_of(v@).to_set() =~= set.texts().take(i as int + 1).to_set().difference(
                    without@,
                ));
            }
        } else {
            assert(texts_of(v@).to_set() =~= set.texts().take(i as int + 1).to_set().difference(
                without@,
            ));
        }
        i = i + 1;
    }
    assert(set.texts().take(n as int) =~= set.texts());
    v
}

/// Copies of the states that `v` refers to.
pub fn copies_from(v: &Vec<&State>) -> (c: Vec<State>)
    ensures
        texts_in(c@) == texts_of(v@),
{
    let mut c: Vec<State> = Vec::new();
    let n = v.len();
    let mut i: usize = 0;
    while i < n
        invariant
            n == v@.len(),
            0 <= i <= n,
            c@.len() == i,
            forall|k: int| 0 <= k < i ==> (#[trigger] c@[k])@ == v@[k]@,
        decreases n - i,
    {
        c.push(v[i].clone());
        i = i + 1;
    }
    assert(texts_in(c@) =~= texts_of(v@));
    c
}

} // verus!
