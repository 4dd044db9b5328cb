//! The transition graph of an automaton: for each state, the states it has an arc to,
//! and for each arc the symbols that label it.

use vstd::prelude::*;
use crate::edge::Edge;
use crate::lexical::Text;
use crate::state::State;
use crate::state_map::StateMap;

verus! {

/// From each state of the automaton, the arcs that leave it, by the state they lead to.
pub type Graph = StateMap<StateMap<Edge>>;

/// The arcs that leave one state: each leads to a state of the graph and carries at
/// least one symbol.
pub open spec fn row_wf(g: &Graph, row: StateMap<Edge>) -> bool {
    &&& row.wf()
    &&& row.dom().subset_of(g.dom())
    &&& forall|t: Text| #[trigger]
        row.dom().contains(t) ==> row.value(t).wf() && row.value(t).input_set.items@.len() > 0
}

/// Every state that an arc touches is a node of the graph, and no arc is without a symbol.
pub open spec fn graph_wf(g: &Graph) -> bool {
    &&& g.wf()
    &&& forall|f: Text| #[trigger] g.dom().contains(f) ==> row_wf(g, g.value(f))
}

/// Among the arcs of `row`, there is one to `to` that carries `symbol`.
pub open spec fn row_arc(row: StateMap<Edge>, symbol: Text, to: Text) -> bool {
    row.dom().contains(to) && row.value(to)@.contains(symbol)
}

/// The graph has a transition from `from` to `to` on `symbol`.
pub open spec fn arc(g: &Graph, from: Text, symbol: Text, to: Text) -> bool {
    g.dom().contains(from) && row_arc(g.value(from), symbol, to)
}

/// Some transition of the graph is labelled `symbol`.
pub open spec fn uses_symbol(g: &Graph, symbol: Text) -> bool {
    exists|f: Text, t: Text| arc(g, f, symbol, t)
}

/// An arc runs between two nodes of the graph.
pub proof fn lemma_arc_ends(g: &Graph, from: Text, symbol: Text, to: Text)
    requires
        graph_wf(g),
        arc(g, from, symbol, to),
    ensures
        g.dom().contains(from),
        g.dom().contains(to),
{
}

/// Makes `id` a node of the graph, without arcs where it is new; tells whether it is new.
pub fn add_node(g: &mut Graph, id: &str) -> (added: bool)
    requires
        graph_wf(old(g)),
    ensures
        graph_wf(final(g)),
        final(g).dom() == old(g).dom().insert(id@),
        added == !old(g).dom().contains(id@),
        !added ==> *final(g) == *old(g),
        forall|f: Text, s: Text, t: Text| arc(final(g), f, s, t) == arc(old(g), f, s, t),
{
    match g.find(id) {
        Some(_) => {
            assert(g.dom().insert(id@) =~= g.dom());
            false
        },
        None => {
            let ghost g0 = *g;
            g.ensure_key(State::new(id), StateMap::new());
            proof {
                assert forall|f: Text| #[trigger] g.dom().contains(f) implies row_wf(
                    g,
                    g.value(f),
                ) by {
                    if f != id@ {
                        assert(g0.dom().contains(f));
                        assert(row_wf(&g0, g0.value(f)));
                    }
                }
                assert forall|f: Text, s: Text, t: Text| arc(g, f, s, t) == arc(
                    &g0,
                    f,
                    s,
                    t,
                ) by {
                    if f != id@ && g.dom().contains(f) {
                        assert(g0.dom().contains(f));
                    }
                }
            }
            true
        },
    }
}

/// Adds the transition from `from` to `to` on `symbol`, making both states nodes of the
/// graph where they are not yet.
pub fn add_arc(g: &mut Graph, from: &str, symbol: &str, to: &str)
    requires
        graph_wf(old(g)),
    ensures
        graph_wf(final(g)),
        final(g).dom() == old(g).dom().insert(from@).insert(to@),
        forall|f: Text, s: Text, t: Text|
            arc(final(g), f, s, t) <==> arc(old(g), f, s, t) || (f == from@ && s == symbol@ && t
                == to@),
{
    let ghost g0 = *g;
    let i = g.ensure_key(State::new(from), StateMap::new());
    let ghost g1 = *g;
    let ghost row1 = g1.vals@[i as int];
    proof {
        g1.lemma_at(i as int);
        if g0.dom().contains(from@) {
            assert(row_wf(&g0, g0.value(from@)));
        }
    }
    let j = g.vals[i].ensure_key(State::new(to), Edge::with_inputs(Vec::new()));
    let ghost row_mid = g.vals@[i as int];
    proof {
        row_mid.lemma_at(j as int);
        if row1.dom().contains(to@) {
            assert(row_mid.value(to@) == row1.value(to@));
        }
    }
    g.vals[i].vals[j].add_input(symbol);
    let ghost g2 = *g;
    let ghost row2 = g2.vals@[i as int];
    proof {
        assert(row2.keys == row_mid.keys);
        assert(g2.keys == g1.keys);
        g2.lemma_at(i as int);
        row2.lemma_at(j as int);
        assert(row2.value(to@)@ =~= row_mid.value(to@)@.insert(symbol@));
        assert forall|t: Text| #[trigger] row2.dom().contains(t) && t != to@ implies row2.value(t)
            == row1.value(t) by {
            assert(row1.dom().contains(t));
            row_mid.lemma_position(t);
            assert(row_mid.position(t) != j);
        }
        assert forall|f: Text| #[trigger] g2.dom().contains(f) && f != from@ implies g2.value(f)
            == g0.value(f) by {
            g1.lemma_position(f);
            assert(g1.position(f) != i);
            assert(g0.dom().contains(f));
        }
    }
    g.ensure_key(State::new(to), StateMap::new());
    proof {
        assert forall|f: Text| #[trigger] g.dom().contains(f) implies row_wf(g, g.value(f)) by {
            if f == from@ {
                assert(g.value(f) == row2);
                assert forall|t: Text| #[trigger] row2.dom().contains(t) implies row2.value(
                    t,
                ).wf() && row2.value(t).input_set.items@.len() > 0 by {
                    if t == to@ {
                        row2.value(t).input_set.lemma_len();
                        assert(row2.value(t)@.contains(symbol@));
                    } else {
                        assert(row1.dom().contains(t));
                        if g0.dom().contains(from@) {
                            assert(row_wf(&g0, g0.value(from@)));
                        }
                    }
                }
                assert forall|t: Text| row2.dom().contains(t) implies g.dom().contains(t) by {
                    if t != to@ {
                        assert(row1.dom().contains(t));
                        if g0.dom().contains(from@) {
                            assert(row_wf(&g0, g0.value(from@)));
                        }
                    }
                }
            } else if g2.dom().contains(f) {
                assert(g.value(f) == g0.value(f));
                assert(row_wf(&g0, g0.value(f)));
            } else {
                assert(f == to@);
            }
        }
        assert forall|f: Text, s: Text, t: Text|
            arc(g, f, s, t) <==> arc(&g0, f, s, t) || (f == from@ && s == symbol@ && t
                == to@) by {
            if f == from@ {
                assert(g.value(f) == row2);
                if t == to@ {
                } else if row2.dom().contains(t) {
                    assert(row2.value(t) == row1.value(t));
                }
                if g0.dom().contains(from@) {
                    assert(row1 == g0.value(from@));
                }
            } else if g2.dom().contains(f) {
                assert(g.value(f) == g0.value(f));
            } else if g.dom().contains(f) {
                assert(f == to@);
            }
        }
        assert(g.dom() =~= g0.dom().insert(from@).insert(to@));
    }
}

} // verus!
