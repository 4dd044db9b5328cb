//! Nondeterministic finite automata and their epsilon closures.

use vstd::prelude::*;
use crate::automaton::{
    add_rule, add_states_to, alphabet_exact, copies_from, copies_of, refs_of, refs_outside,
    texts_in, FiniteAutomaton,
};
use crate::closure::{
    closure, closure_of, eps_reachable, full_index, lemma_reach_reflexive, lemma_reach_step,
    lemma_reach_transitive, lemma_via_all, lemma_via_none, lemma_via_split,
    reach_via, step,
};
use crate::edge::Edge;
use crate::graph::{arc, graph_wf, row_arc, row_wf, Graph};
use crate::input::{epsilon, Input, EPSILON};
use crate::lexical::Text;
use crate::ordered::OrdSet;
use crate::result::{Error, IResult};
use crate::state::State;
use crate::state_map::StateMap;

verus! {

/// A nondeterministic finite automaton. It may have several initial states, several
/// transitions from one state on one symbol, and epsilon transitions.
#[derive(Debug)]
pub struct NFA {
    /// The initial states.
    pub initial_states: OrdSet<State>,
    /// The accepting states.
    pub finite_states: OrdSet<State>,
    /// The symbols other than epsilon that label some transition.
    pub feasible_inputs: OrdSet<Input>,
    /// The transitions: from each state, the arcs that leave it.
    pub adjacency_matrix: Graph,
    /// The epsilon closure of each state, while it is known: it is computed on request
    /// and forgotten whenever the graph changes.
    pub epsilon_closure_matrix: Option<StateMap<OrdSet<State>>>,
}

/// The index holds, for every state of the graph, exactly its epsilon closure.
pub open spec fn closure_index_wf(g: &Graph, m: &StateMap<OrdSet<State>>) -> bool {
    &&& m.wf()
    &&& m.dom() == g.dom()
    &&& forall|s: Text| #[trigger]
        m.dom().contains(s) ==> m.value(s).wf() && m.value(s)@ == closure(g, s)
}

/// The rows hold, for each state of the graph in order, states that it reaches.
pub open spec fn rows_sound(g: &Graph, rows: Seq<OrdSet<State>>) -> bool {
    &&& rows.len() == g.vals@.len()
    &&& forall|i: int| 0 <= i < rows.len() ==> (#[trigger] rows[i]).wf()
    &&& forall|i: int, t: Text|
        0 <= i < rows.len() && #[trigger] rows[i]@.contains(t) ==> eps_reachable(
            g,
            g.keys.texts()[i],
            t,
        ) && g.dom().contains(t)
}

/// Row `i` holds every state that the `i`-th state reaches through states of `allowed`.
pub open spec fn row_complete(g: &Graph, rows: Seq<OrdSet<State>>, i: int, allowed: Set<Text>) -> bool {
    forall|t: Text| #[trigger] reach_via(g, g.keys.texts()[i], t, allowed) ==> rows[i]@.contains(t)
}

/// Every row up to `n` is complete for walks through states of `allowed`.
pub open spec fn rows_complete(
    g: &Graph,
    rows: Seq<OrdSet<State>>,
    n: int,
    allowed: Set<Text>,
) -> bool {
    forall|i: int| 0 <= i < n ==> #[trigger] row_complete(g, rows, i, allowed)
}

/// Adds to `into` the states that `row` has an arc to on `symbol`.
pub fn row_targets(row: &StateMap<Edge>, symbol: &str, into: &mut OrdSet<State>)
    requires
        row.wf(),
        forall|t: Text| #[trigger] row.dom().contains(t) ==> row.value(t).wf(),
        old(into).wf(),
    ensures
        final(into).wf(),
        forall|t: Text|
            final(into)@.contains(t) <==> old(into)@.contains(t) || row_arc(*row, symbol@, t),
{
    let n = row.vals.len();
    let mut j: usize = 0;
    while j < n
        invariant
            row.wf(),
            forall|t: Text| #[trigger] row.dom().contains(t) ==> row.value(t).wf(),
            into.wf(),
            n == row.vals@.len(),
            0 <= j <= n,
            forall|t: Text|
                into@.contains(t) <==> old(into)@.contains(t) || (row_arc(*row, symbol@, t)
                    && row.position(t) < j),
        decreases n - j,
    {
        proof {
            row.lemma_at(j as int);
        }
        if row.vals[j].contains_input(symbol) {
            into.insert(row.keys.items[j].clone());
        }
        proof {
            assert forall|t: Text|
                into@.contains(t) <==> old(into)@.contains(t) || (row_arc(*row, symbol@, t)
                    && row.position(t) < j + 1) by {
                if row.dom().contains(t) {
                    row.lemma_position(t);
                }
            }
        }
        j = j + 1;
    }
    proof {
        assert forall|t: Text|
            into@.contains(t) <==> old(into)@.contains(t) || row_arc(*row, symbol@, t) by {
            if row.dom().contains(t) {
                row.lemma_position(t);
            }
        }
    }
}

impl NFA {
    /// Everything that makes the automaton consistent, but for the closure index.
    pub open spec fn wf_core(&self) -> bool {
        &&& self.initial_states.wf()
        &&& self.finite_states.wf()
        &&& self.feasible_inputs.wf()
        &&& graph_wf(&self.adjacency_matrix)
        &&& self.initial_states@.subset_of(self.adjacency_matrix.dom())
        &&& self.finite_states@.subset_of(self.adjacency_matrix.dom())
        &&& alphabet_exact(self.feasible_inputs@, &self.adjacency_matrix)
    }

    /// Whether the epsilon closures are known.
    pub open spec fn has_closure_index(&self) -> bool {
        self.epsilon_closure_matrix is Some
    }

    /// The closure sets that the automaton holds, by state, while they are known.
    pub open spec fn index_model(&self) -> Option<Map<Text, Set<Text>>> {
        match self.epsilon_closure_matrix {
            Some(m) => Some(Map::new(|s: Text| m.dom().contains(s), |s: Text| m.value(s)@)),
            None => None,
        }
    }

    /// What each state reaches by at most one epsilon transition: for each state of the
    /// graph, in order, itself and the states that its epsilon transitions lead to.
    fn direct_rows(&self) -> (rows: Vec<OrdSet<State>>)
        requires
            self.wf_core(),
        ensures
            rows_sound(&self.adjacency_matrix, rows@),
            rows_complete(
                &self.adjacency_matrix,
                rows@,
                rows@.len() as int,
                Set::<Text>::empty(),
            ),
    {
        let ghost g = &self.adjacency_matrix;
        let n = self.adjacency_matrix.vals.len();
        let mut rows: Vec<OrdSet<State>> = Vec::new();
        let mut i: usize = 0;
        while i < n
            invariant
                self.wf_core(),
                g == &self.adjacency_matrix,
                n == g.vals@.len(),
                0 <= i <= n,
                rows@.len() == i,
                forall|k: int| 0 <= k < i ==> (#[trigger] rows@[k]).wf(),
                forall|k: int, t: Text|
                    0 <= k < i ==> (#[trigger] rows@[k]@.contains(t) <==> t == g.keys.texts()[k]
                        || arc(g, g.keys.texts()[k], epsilon(), t)),
            decreases n - i,
        {
            let ghost s = g.keys.texts()[i as int];
            proof {
                g.lemma_at(i as int);
                assert(row_wf(g, g.value(s)));
            }
            let mut set: OrdSet<State> = OrdSet::new();
            row_targets(&self.adjacency_matrix.vals[i], EPSILON, &mut set);
            set.insert(self.adjacency_matrix.keys.items[i].clone());
            rows.push(set);
            i = i + 1;
        }
        proof {
            assert forall|k: int, t: Text| 0 <= k < rows@.len() && #[trigger] rows@[k]@.contains(
                t,
            ) implies eps_reachable(g, g.keys.texts()[k], t) && g.dom().contains(t) by {
                g.lemma_at(k);
                if t == g.keys.texts()[k] {
                    lemma_reach_reflexive(g, t);
                } else {
                    lemma_reach_step(g, g.keys.texts()[k], t);
                    assert(row_wf(g, g.value(g.keys.texts()[k])));
                }
            }
            assert forall|k: int| 0 <= k < rows@.len() implies #[trigger] row_complete(
                g,
                rows@,
                k,
                Set::<Text>::empty(),
            ) by {
                assert forall|t: Text| #[trigger]
                    reach_via(g, g.keys.texts()[k], t, Set::<Text>::empty()) implies rows@[k]@.contains(
                    t,
                ) by {
                    lemma_via_none(g, g.keys.texts()[k], t);
                }
            }
        }
        rows
    }

    /// Computes the epsilon closure of every state, and keeps it until the graph changes.
    pub fn calc_epsilon_closure_matrix(&mut self)
        requires
            old(self).wf(),
        ensures
            final(self).wf(),
            final(self).index_model() == Some(full_index(&old(self).adjacency_matrix)),
            final(self).initial_states == old(self).initial_states,
            final(self).finite_states == old(self).finite_states,
            final(self).feasible_inputs == old(self).feasible_inputs,
            final(self).adjacency_matrix == old(self).adjacency_matrix,
    {
        let ghost g = &self.adjacency_matrix;
        let ghost ns = self.adjacency_matrix.keys.texts();
        let n = self.adjacency_matrix.vals.len();
        let mut rows = self.direct_rows();
        let mut k: usize = 0;
        assert(ns.take(0).to_set() =~= Set::<Text>::empty());
        while k < n
            invariant
                self.wf_core(),
                g == &self.adjacency_matrix,
                ns == g.keys.texts(),
                n == g.vals@.len(),
                0 <= k <= n,
                rows_sound(g, rows@),
                rows_complete(g, rows@, n as int, ns.take(k as int).to_set()),
            decreases n - k,
        {
            let ghost allowed = ns.take(k as int).to_set();
            let ghost next = ns.take(k as int + 1).to_set();
            proof {
                assert(ns.take(k as int + 1) =~= ns.take(k as int).push(ns[k as int]));
                ns.take(k as int).lemma_push_to_set_commute(ns[k as int]);
                assert(next == allowed.insert(ns[k as int]));
            }
            let mut i: usize = 0;
            while i < n
                invariant
                    self.wf_core(),
                    g == &self.adjacency_matrix,
                    ns == g.keys.texts(),
                    n == g.vals@.len(),
                    0 <= k < n,
                    0 <= i <= n,
                    next == allowed.insert(ns[k as int]),
                    rows_sound(g, rows@),
                    rows_complete(g, rows@, n as int, allowed),
                    rows_complete(g, rows@, i as int, next),
                decreases n - i,
            {
                let ghost pivot = rows@[k as int]@;
                let ghost has_k = rows@[i as int]@.contains(ns[k as int]);
                let mut j: usize = 0;
                while j < n
                    invariant
                        self.wf_core(),
                        g == &self.adjacency_matrix,
                        ns == g.keys.texts(),
                        n == g.vals@.len(),
                        0 <= k < n,
                        0 <= i < n,
                        0 <= j <= n,
                        rows_sound(g, rows@),
                        rows_complete(g, rows@, n as int, allowed),
                        rows_complete(g, rows@, i as int, next),
                        rows@[k as int]@ == pivot,
                        rows@[i as int]@.contains(ns[k as int]) == has_k,
                        forall|m: int|
                            0 <= m < j && has_k && pivot.contains(#[trigger] ns[m])
                                ==> rows@[i as int]@.contains(ns[m]),
                    decreases n - j,
                {
                    let ghost before = rows@;
                    let sk = self.adjacency_matrix.keys.items[k].state_id.as_str();
                    let sj = self.adjacency_matrix.keys.items[j].state_id.as_str();
                    assert(sk@ == ns[k as int]);
                    assert(sj@ == ns[j as int]);
                    if rows[i].contains(sk) && rows[k].contains(sj) {
                        rows[i].insert(State::new(sj));
                        proof {
                            lemma_reach_transitive(g, ns[i as int], ns[k as int], ns[j as int]);
                            assert(rows@[i as int]@ == before[i as int]@.insert(ns[j as int]));
                            assert(forall|r: int|
                                0 <= r < n && r != i ==> rows@[r] == before[r]);
                            if i == k {
                                assert(rows@[k as int]@ =~= pivot);
                            }
                            assert forall|r: int| 0 <= r < n implies #[trigger] row_complete(
                                g,
                                rows@,
                                r,
                                allowed,
                            ) by {
                                assert(row_complete(g, before, r, allowed));
                            }
                            assert forall|r: int| 0 <= r < i implies #[trigger] row_complete(
                                g,
                                rows@,
                                r,
                                next,
                            ) by {
                                assert(row_complete(g, before, r, next));
                            }
                        }
                    }
                    j = j + 1;
                }
                proof {
                    assert forall|t: Text| #[trigger]
                        reach_via(g, ns[i as int], t, next) implies rows@[i as int]@.contains(
                        t,
                    ) by {
                        lemma_via_split(g, ns[i as int], t, allowed, ns[k as int]);
                        assert(row_complete(g, rows@, i as int, allowed));
                        assert(row_complete(g, rows@, k as int, allowed));
                        if !reach_via(g, ns[i as int], t, allowed) {
                            assert(has_k);
                            assert(pivot.contains(t));
                            assert(g.dom().contains(t));
                            let m = g.position(t);
                            g.lemma_position(t);
                            assert(pivot.contains(ns[m]));
                        }
                    }
                    assert(row_complete(g, rows@, i as int, next));
                }
                i = i + 1;
            }
            k = k + 1;
        }
        let keys = self.adjacency_matrix.keys.clone();
        let index = StateMap { keys, vals: rows };
        proof {
            assert(ns.take(n as int) =~= ns);
            assert(index.dom() == g.dom());
            assert forall|s: Text| #[trigger] index.dom().contains(s) implies index.value(s).wf()
                && index.value(s)@ == closure(g, s) by {
                let i = index.position(s);
                index.lemma_position(s);
                assert(ns[i] == s);
                assert(row_complete(g, rows@, i, g.dom()));
                assert forall|t: Text| index.value(s)@.contains(t) <==> closure(g, s).contains(
                    t,
                ) by {
                    if eps_reachable(g, s, t) {
                        lemma_via_all(g, s, t);
                    }
                }
                assert(index.value(s)@ =~= closure(g, s));
            }
            assert(closure_index_wf(g, &index));
        }
        self.epsilon_closure_matrix = Some(index);
        proof {
            assert(self.index_model()->0 =~= full_index(g));
        }
    }

    /// The epsilon closure of `query_states`: every state that some state of
    /// `query_states` reaches by zero or more epsilon transitions. Fails while the
    /// closures are not known.
    pub fn get_epsilon_closure(&self, query_states: &Vec<State>) -> (r: IResult<OrdSet<State>>)
        requires
            self.wf(),
            forall|i: int|
                0 <= i < query_states@.len() ==> self.states().contains(
                    #[trigger] query_states@[i]@,
                ),
        ensures
            match r {
                Ok(set) => self.has_closure_index() && set.wf() && set@ == closure_of(
                    &self.adjacency_matrix,
                    texts_in(query_states@).to_set(),
                ),
                Err(e) => !self.has_closure_index() && e is Uninitialized,
            },
    {
        match &self.epsilon_closure_matrix {
            Some(index) => {
                let ghost g = &self.adjacency_matrix;
                let ghost q = texts_in(query_states@);
                let mut set: OrdSet<State> = OrdSet::new();
                let n = query_states.len();
                let mut i: usize = 0;
                while i < n
                    invariant
                        self.wf(),
                        self.epsilon_closure_matrix == Some(*index),
                        g == &self.adjacency_matrix,
                        q == texts_in(query_states@),
                        forall|i: int| 0 <= i < q.len() ==> g.dom().contains(#[trigger] q[i]),
                        n == query_states@.len(),
                        0 <= i <= n,
                        set.wf(),
                        forall|t: Text|
                            set@.contains(t) <==> exists|m: int|
                                0 <= m < i && eps_reachable(g, q[m], t),
                    decreases n - i,
                {
                    let ghost before = set@;
                    assert(q[i as int] == query_states@[i as int]@);
                    match index.get(query_states[i].state_id.as_str()) {
                        Some(reached) => {
                            set.absorb(reached);
                        },
                        None => {
                            assert(false);
                        },
                    }
                    proof {
                        assert forall|t: Text|
                            set@.contains(t) <==> exists|m: int|
                                0 <= m < i + 1 && eps_reachable(g, q[m], t) by {
                            if before.contains(t) {
                                let m = choose|m: int| 0 <= m < i && eps_reachable(g, q[m], t);
                                assert(0 <= m < i + 1 && eps_reachable(g, q[m], t));
                            }
                            if exists|m: int| 0 <= m < i + 1 && eps_reachable(g, q[m], t) {
                                let m = choose|m: int|
                                    0 <= m < i + 1 && eps_reachable(g, q[m], t);
                                if m < i {
                                    assert(before.contains(t));
                                }
                            }
                        }
                    }
                    i = i + 1;
                }
                proof {
                    assert forall|t: Text| set@.contains(t) <==> closure_of(g, q.to_set()).contains(
                        t,
                    ) by {
                        if set@.contains(t) {
                            let m = choose|m: int| 0 <= m < n && eps_reachable(g, q[m], t);
                            assert(q.to_set().contains(q[m]));
                        }
                        if closure_of(g, q.to_set()).contains(t) {
                            let s = choose|s: Text| q.to_set().contains(s) && eps_reachable(g, s, t);
                            let m = choose|m: int| 0 <= m < q.len() && q[m] == s;
                            assert(0 <= m < n && eps_reachable(g, q[m], t));
                        }
                    }
                    assert(set@ =~= closure_of(g, q.to_set()));
                }
                Ok(set)
            },
            None => Err(
                Error::Uninitialized("You need to invoke NFA::calc_epsilon_closure_matrix first."),
            ),
        }
    }

    /// The states that a transition on `by_input_str` leads to from some state of
    /// `query_states`.
    pub fn straight_reachable_states(&self, query_states: &Vec<State>, by_input_str: &str) -> (r:
        OrdSet<State>)
        requires
            self.wf(),
        ensures
            r.wf(),
            r@ == step(&self.adjacency_matrix, texts_in(query_states@).to_set(), by_input_str@),
    {
        let ghost g = &self.adjacency_matrix;
        let ghost q = texts_in(query_states@);
        let mut set: OrdSet<State> = OrdSet::new();
        let n = query_states.len();
        let mut i: usize = 0;
        while i < n
            invariant
                self.wf(),
                g == &self.adjacency_matrix,
                q == texts_in(query_states@),
                n == query_states@.len(),
                0 <= i <= n,
                set.wf(),
                forall|t: Text|
                    set@.contains(t) <==> exists|m: int|
                        0 <= m < i && arc(g, q[m], by_input_str@, t),
            decreases n - i,
        {
            let ghost before = set@;
            assert(q[i as int] == query_states@[i as int]@);
            match self.adjacency_matrix.get(query_states[i].state_id.as_str()) {
                Some(row) => {
                    assert(row_wf(g, g.value(q[i as int])));
                    row_targets(row, by_input_str, &mut set);
                },
                None => {},
            }
            proof {
                assert forall|t: Text|
                    set@.contains(t) <==> exists|m: int|
                        0 <= m < i + 1 && arc(g, q[m], by_input_str@, t) by {
                    if before.contains(t) {
                        let m = choose|m: int| 0 <= m < i && arc(g, q[m], by_input_str@, t);
                        assert(0 <= m < i + 1 && arc(g, q[m], by_input_str@, t));
                    }
                    if exists|m: int| 0 <= m < i + 1 && arc(g, q[m], by_input_str@, t) {
                        let m = choose|m: int| 0 <= m < i + 1 && arc(g, q[m], by_input_str@, t);
                        if m < i {
                            assert(before.contains(t));
                        }
                    }
                }
            }
            i = i + 1;
        }
        proof {
            let want = step(g, q.to_set(), by_input_str@);
            assert forall|t: Text| set@.contains(t) <==> want.contains(t) by {
                if set@.contains(t) {
                    let m = choose|m: int| 0 <= m < n && arc(g, q[m], by_input_str@, t);
                    assert(q.to_set().contains(q[m]));
                }
                if want.contains(t) {
                    let s = choose|s: Text| q.to_set().contains(s) && arc(g, s, by_input_str@, t);
                    let m = choose|m: int| 0 <= m < q.len() && q[m] == s;
                    assert(0 <= m < n && arc(g, q[m], by_input_str@, t));
                }
            }
            assert(set@ =~= want);
        }
        set
    }
}

impl FiniteAutomaton for NFA {
    open spec fn wf(&self) -> bool {
        &&& self.wf_core()
        &&& match self.epsilon_closure_matrix {
            Some(m) => closure_index_wf(&self.adjacency_matrix, &m),
            None => true,
        }
    }

    open spec fn states(&self) -> Set<Text> {
        self.adjacency_matrix.dom()
    }

    open spec fn initial(&self) -> Set<Text> {
        self.initial_states@
    }

    open spec fn accepting(&self) -> Set<Text> {
        self.finite_states@
    }

    open spec fn alphabet(&self) -> Set<Text> {
        self.feasible_inputs@
    }

    open spec fn has_transition(&self, from: Text, symbol: Text, to: Text) -> bool {
        arc(&self.adjacency_matrix, from, symbol, to)
    }

    fn new() -> (a: Self)
        ensures
            !a.has_closure_index(),
    {
        NFA {
            initial_states: OrdSet::new(),
            finite_states: OrdSet::new(),
            feasible_inputs: OrdSet::new(),
            adjacency_matrix: StateMap::new(),
            epsilon_closure_matrix: None,
        }
    }

    /// Always succeeds. The closures stay known unless the graph got a new node.
    fn add_initial_states(&mut self, initial_states: &[&str]) -> (r: IResult<()>)
        ensures
            r is Ok,
            final(self).epsilon_closure_matrix == if final(self).states() == old(self).states() {
                old(self).epsilon_closure_matrix
            } else {
                None
            },
    {
        let grown = add_states_to(
            &mut self.initial_states,
            &mut self.adjacency_matrix,
            initial_states,
        );
        if grown {
            self.epsilon_closure_matrix = None;
        }
        proof {
            crate::automaton::lemma_same_arcs_same_symbols(
                &self.adjacency_matrix,
                &old(self).adjacency_matrix,
            );
        }
        Ok(())
    }

    /// The closures stay known unless the graph got a new node.
    fn add_finite_states(&mut self, finite_states: &[&str]) -> (r: IResult<()>)
        ensures
            final(self).epsilon_closure_matrix == if final(self).states() == old(self).states() {
                old(self).epsilon_closure_matrix
            } else {
                None
            },
    {
        let grown = add_states_to(
            &mut self.finite_states,
            &mut self.adjacency_matrix,
            finite_states,
        );
        if grown {
            self.epsilon_closure_matrix = None;
        }
        proof {
            crate::automaton::lemma_same_arcs_same_symbols(
                &self.adjacency_matrix,
                &old(self).adjacency_matrix,
            );
        }
        Ok(())
    }

    /// The closures are forgotten.
    fn add_transfer_rule(&mut self, from_state_id: &str, input_str: &str, to_state_id: &str) -> (r:
        IResult<()>)
        ensures
            !final(self).has_closure_index(),
    {
        add_rule(
            &mut self.feasible_inputs,
            &mut self.adjacency_matrix,
            from_state_id,
            input_str,
            to_state_id,
        );
        self.epsilon_closure_matrix = None;
        Ok(())
    }

    fn get_all_states_iter(&self) -> (v: Vec<&State>) {
        refs_of(&self.adjacency_matrix.keys)
    }

    fn get_all_states_into_iter(&self) -> (v: Vec<State>) {
        copies_of(&self.adjacency_matrix.keys)
    }

    fn get_all_finite_states_iter(&self) -> (v: Vec<&State>) {
        refs_of(&self.finite_states)
    }

    fn get_all_finite_states_into_iter(&self) -> (v: Vec<State>) {
        copies_of(&self.finite_states)
    }

    fn get_all_infinite_states_iter(&self) -> (v: Vec<&State>) {
        refs_outside(&self.adjacency_matrix.keys, &self.finite_states)
    }

    fn get_all_infinite_states_into_iter(&self) -> (v: Vec<State>) {
        let refs = self.get_all_infinite_states_iter();
        copies_from(&refs)
    }

    fn get_states_num(&self) -> (n: usize) {
        self.adjacency_matrix.len()
    }
}

} // verus!
