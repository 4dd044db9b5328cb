//! A rendering of an automaton for the human reader.

use vstd::prelude::*;
use vstd::string::StringExecFns;
use crate::automaton::FiniteAutomaton;
use crate::edge::Edge;
use crate::graph::{row_wf, Graph};
use crate::lexical::Text;
use crate::nfa::NFA;
use crate::ordered::{OrdSet, Textual};
use crate::state_map::StateMap;

verus! {

/// The texts of `items`, separated by a comma and a space.
pub open spec fn joined(items: Seq<Text>) -> Text
    decreases items.len(),
{
    if items.len() == 0 {
        Seq::empty()
    } else if items.len() == 1 {
        items[0]
    } else {
        joined(items.drop_last()) + ", "@ + items.last()
    }
}

/// The texts of `items` as a set is written: in braces, separated by commas.
pub open spec fn braced(items: Seq<Text>) -> Text {
    "{"@ + joined(items) + "}"@
}

/// The line of one arc: where it starts, its symbols, where it leads.
pub open spec fn rule_line(from: Text, symbols: Seq<Text>, to: Text) -> Text {
    "\n        "@ + from + " => "@ + braced(symbols) + " => "@ + to
}

/// The lines of the first `upto` arcs that leave `from`.
pub open spec fn row_lines(from: Text, row: StateMap<Edge>, upto: int) -> Text
    decreases upto,
{
    if upto <= 0 {
        Seq::empty()
    } else {
        row_lines(from, row, upto - 1) + rule_line(
            from,
            row.vals@[upto - 1].input_set.texts(),
            row.keys.texts()[upto - 1],
        )
    }
}

/// The lines of the arcs that leave the first `upto` states of the graph.
pub open spec fn graph_lines(g: &Graph, upto: int) -> Text
    decreases upto,
{
    if upto <= 0 {
        Seq::empty()
    } else {
        graph_lines(g, upto - 1) + row_lines(
            g.keys.texts()[upto - 1],
            g.vals@[upto - 1],
            g.vals@[upto - 1].vals@.len() as int,
        )
    }
}

/// The rendering of an automaton: its initial states, its accepting states, and one
/// line for each arc, all in dictionary order.
pub open spec fn rendering(a: &NFA) -> Text {
    "FiniteAutomaton {\n    initial_states: "@ + braced(a.initial_states.texts())
        + "\n    finite_states: "@ + braced(a.finite_states.texts()) + "\n    transfer_rules: "@
        + graph_lines(&a.adjacency_matrix, a.adjacency_matrix.vals@.len() as int) + "\n}"@
}

/// Writes a set as [`braced`] says.
pub fn braced_string<T: Textual>(set: &OrdSet<T>) -> (s: String)
    ensures
        s@ == braced(set.texts()),
{
    let ghost all = set.texts();
    let mut body = String::from_str("");
    let n = set.items.len();
    let mut i: usize = 0;
    proof {
        reveal_strlit("");
        assert(body@ =~= joined(all.take(0)));
    }
    while i < n
        invariant
            all == set.texts(),
            n == set.items@.len(),
            0 <= i <= n,
            body@ == joined(all.take(i as int)),
        decreases n - i,
    {
        let ghost before = body@;
        if i > 0 {
            body.append(", ");
        }
        body.append(set.items[i].as_text());
        proof {
            let more = all.take(i as int + 1);
            assert(more.drop_last() =~= all.take(i as int));
            assert(more.last() == set.items@[i as int].text());
            if i == 0 {
                assert(before =~= Seq::<char>::empty());
                assert(body@ =~= more[0]);
            }
        }
        i = i + 1;
    }
    assert(all.take(n as int) =~= all);
    let mut s = String::from_str("{");
    s.append(body.as_str());
    s.append("}");
    s
}

impl NFA {
    /// Renders the automaton for the human reader. The text is no format to be read
    /// back.
    pub fn describe(&self) -> (s: String)
        requires
            self.wf(),
        ensures
            s@ == rendering(self),
    {
        let ghost g = &self.adjacency_matrix;
        let mut lines = String::from_str("");
        let n = self.adjacency_matrix.vals.len();
        let mut i: usize = 0;
        proof {
            reveal_strlit("");
            assert(lines@ =~= graph_lines(g, 0));
        }
        while i < n
            invariant
                self.wf(),
                g == &self.adjacency_matrix,
                n == g.vals@.len(),
                0 <= i <= n,
                lines@ == graph_lines(g, i as int),
            decreases n - i,
        {
            let row = &self.adjacency_matrix.vals[i];
            let from = self.adjacency_matrix.keys.items[i].as_text();
            proof {
                g.lemma_at(i as int);
                assert(row_wf(g, g.value(g.keys.texts()[i as int])));
                assert(from@ == g.keys.texts()[i as int]);
            }
            let mut part = String::from_str("");
            let m = row.vals.len();
            let mut j: usize = 0;
            proof {
                reveal_strlit("");
                assert(part@ =~= row_lines(from@, *row, 0));
            }
            while j < m
                invariant
                    row.wf(),
                    m == row.vals@.len(),
                    0 <= j <= m,
                    part@ == row_lines(from@, *row, j as int),
                decreases m - j,
            {
                let mut line = String::from_str("\n        ");
                line.append(from);
                line.append(" => ");
                let symbols = braced_string(&row.vals[j].input_set);
                line.append(symbols.as_str());
                line.append(" => ");
                line.append(row.keys.items[j].as_text());
                assert(row.keys.texts()[j as int] == row.keys.items@[j as int].text());
                part.append(line.as_str());
                j = j + 1;
            }
            lines.append(part.as_str());
            i = i + 1;
        }
        let mut s = String::from_str("FiniteAutomaton {\n    initial_states: ");
        let initial = braced_string(&self.initial_states);
        s.append(initial.as_str());
        s.append("\n    finite_states: ");
        let accepting = braced_string(&self.finite_states);
        s.append(accepting.as_str());
        s.append("\n    transfer_rules: ");
        s.append(lines.as_str());
        s.append("\n}");
        s
    }
}

} // verus!
