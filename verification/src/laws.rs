//! What holds of every automaton, of its epsilon closures and of the subset construction.

use vstd::prelude::*;
use crate::automaton::FiniteAutomaton;
use crate::closure::{
    closure_of, eps_reachable, full_index, lemma_reach_reflexive, lemma_reach_transitive,
};
use crate::decimal::lemma_decimal_injective;
use crate::dfa::DFA;
use crate::graph::{arc, uses_symbol, Graph};
use crate::input::epsilon;
use crate::lexical::{is_listing, lemma_precedes_connected, Text};
use crate::nfa::NFA;
use crate::subset::{
    earlier, first_found_by, found_first, id_of, is_move, is_subset_construction, lands,
    names_subset, out_accepting, out_edge,
};

verus! {

/// The alphabet of a nondeterministic automaton holds exactly the symbols other than
/// epsilon that label one of its transitions.
pub proof fn lemma_nfa_alphabet_is_used(a: &NFA)
    requires
        a.wf(),
    ensures
        forall|s: Text|
            a.alphabet().contains(s) <==> s != epsilon() && exists|f: Text, t: Text|
                a.has_transition(f, s, t),
{
    assert forall|s: Text|
        a.alphabet().contains(s) <==> s != epsilon() && exists|f: Text, t: Text|
            a.has_transition(f, s, t) by {
        if uses_symbol(&a.adjacency_matrix, s) {
            let (f, t) = choose|f: Text, t: Text| arc(&a.adjacency_matrix, f, s, t);
            assert(a.has_transition(f, s, t));
        }
        if exists|f: Text, t: Text| a.has_transition(f, s, t) {
            let (f, t) = choose|f: Text, t: Text| a.has_transition(f, s, t);
            assert(arc(&a.adjacency_matrix, f, s, t));
        }
    }
}

/// The alphabet of a deterministic automaton holds exactly the symbols other than
/// epsilon that label one of its transitions.
pub proof fn lemma_dfa_alphabet_is_used(a: &DFA)
    requires
        a.wf(),
    ensures
        forall|s: Text|
            a.alphabet().contains(s) <==> s != epsilon() && exists|f: Text, t: Text|
                a.has_transition(f, s, t),
{
    assert forall|s: Text|
        a.alphabet().contains(s) <==> s != epsilon() && exists|f: Text, t: Text|
            a.has_transition(f, s, t) by {
        if uses_symbol(&a.adjacency_matrix, s) {
            let (f, t) = choose|f: Text, t: Text| arc(&a.adjacency_matrix, f, s, t);
            assert(a.has_transition(f, s, t));
        }
        if exists|f: Text, t: Text| a.has_transition(f, s, t) {
            let (f, t) = choose|f: Text, t: Text| a.has_transition(f, s, t);
            assert(arc(&a.adjacency_matrix, f, s, t));
        }
    }
}

/// The alphabet does not depend on the order in which the transitions were added: two
/// automata with the same transitions have the same alphabet.
pub proof fn lemma_alphabet_order_independent(a: &NFA, b: &NFA)
    requires
        a.wf(),
        b.wf(),
        forall|f: Text, s: Text, t: Text| a.has_transition(f, s, t) == b.has_transition(f, s, t),
    ensures
        a.alphabet() == b.alphabet(),
{
    assert forall|f: Text, s: Text, t: Text|
        arc(&a.adjacency_matrix, f, s, t) == arc(&b.adjacency_matrix, f, s, t) by {
        assert(a.has_transition(f, s, t) == b.has_transition(f, s, t));
    }
    crate::automaton::lemma_same_arcs_same_symbols(&a.adjacency_matrix, &b.adjacency_matrix);
    assert(a.alphabet() =~= b.alphabet());
}

/// A listing of a set of states shows each state of the set.
pub proof fn lemma_listed(listing: Seq<Text>, of: Set<Text>, s: Text)
    requires
        is_listing(listing, of),
        of.contains(s),
    ensures
        listing.contains(s),
{
}

/// Every state is in its own epsilon closure.
pub proof fn lemma_closure_reflexive(g: &Graph, s: Text)
    ensures
        closure_of(g, set![s]).contains(s),
{
    lemma_reach_reflexive(g, s);
    assert(set![s].contains(s) && eps_reachable(g, s, s));
}

/// Epsilon closures are closed: a state in the closure of a state in the closure of `s`
/// is in the closure of `s`.
pub proof fn lemma_closure_transitive(g: &Graph, s: Text, t: Text, u: Text)
    requires
        closure_of(g, set![s]).contains(t),
        closure_of(g, set![t]).contains(u),
    ensures
        closure_of(g, set![s]).contains(u),
{
    let s1 = choose|s1: Text| set![s].contains(s1) && eps_reachable(g, s1, t);
    let t1 = choose|t1: Text| set![t].contains(t1) && eps_reachable(g, t1, u);
    lemma_reach_transitive(g, s, t, u);
    assert(set![s].contains(s) && eps_reachable(g, s, u));
}

/// The closure of a set of states is the union of the closures of its states.
pub proof fn lemma_closure_is_union(g: &Graph, from: Set<Text>, t: Text)
    ensures
        closure_of(g, from).contains(t) <==> exists|s: Text|
            from.contains(s) && closure_of(g, set![s]).contains(t),
{
    if closure_of(g, from).contains(t) {
        let s = choose|s: Text| from.contains(s) && eps_reachable(g, s, t);
        assert(set![s].contains(s) && eps_reachable(g, s, t));
        assert(from.contains(s) && closure_of(g, set![s]).contains(t));
    }
    if exists|s: Text| from.contains(s) && closure_of(g, set![s]).contains(t) {
        let s = choose|s: Text| from.contains(s) && closure_of(g, set![s]).contains(t);
        let s1 = choose|s1: Text| set![s].contains(s1) && eps_reachable(g, s1, t);
        assert(from.contains(s) && eps_reachable(g, s, t));
    }
}

/// Computing the closures again on an automaton that did not change gives the same
/// closures: what is computed depends on the graph alone.
pub proof fn lemma_closures_recomputed(first: &NFA, second: &NFA)
    requires
        first.index_model() == Some(full_index(&first.adjacency_matrix)),
        second.index_model() == Some(full_index(&second.adjacency_matrix)),
        second.adjacency_matrix == first.adjacency_matrix,
    ensures
        second.index_model() == first.index_model(),
{
}

/// Different numbers name different composite states.
pub proof fn lemma_id_injective(i: int, j: int)
    requires
        0 <= i,
        0 <= j,
        id_of(i) == id_of(j),
    ensures
        i == j,
{
    reveal(id_of);
    lemma_decimal_injective(i as nat, j as nat);
}

/// The automaton that the subset construction makes is deterministic and total: it has
/// exactly one initial state, which is one of its states, and from each of its states
/// exactly one transition on each symbol of its alphabet. It has no other transitions:
/// none on epsilon, and none on a symbol outside the alphabet of the source.
pub proof fn lemma_construction_deterministic(src: &NFA, subsets: Seq<Set<Text>>, out: &NFA)
    requires
        src.wf(),
        is_subset_construction(src, subsets, out),
    ensures
        out.initial().finite(),
        out.initial().len() == 1,
        out.initial().subset_of(out.states()),
        out.alphabet() == src.alphabet(),
        forall|q: Text, a: Text|
            out.states().contains(q) && out.alphabet().contains(a) ==> exists|t: Text|
                #![trigger out.has_transition(q, a, t)]
                out.has_transition(q, a, t) && forall|u: Text| #[trigger]
                    out.has_transition(q, a, u) ==> u == t,
        forall|f: Text, a: Text, t: Text| #[trigger]
            out.has_transition(f, a, t) ==> a != epsilon() && src.alphabet().contains(a),
{
    let g = &src.adjacency_matrix;
    let sigma = src.feasible_inputs@;
    let n = subsets.len() as int;
    assert(out.initial() =~= set![id_of(0)]);
    assert(names_subset(subsets, id_of(0))) by {
        assert(0 <= 0 < subsets.len() && id_of(0) == id_of(0));
    }
    assert forall|q: Text, a: Text|
        out.states().contains(q) && out.alphabet().contains(a) implies exists|t: Text|
        #![trigger out.has_transition(q, a, t)]
        out.has_transition(q, a, t) && forall|u: Text| #[trigger]
            out.has_transition(q, a, u) ==> u == t by {
        assert(names_subset(subsets, q));
        let i = choose|i: int| 0 <= i < subsets.len() && q == #[trigger] id_of(i);
        assert(lands(g, subsets, i, a, n));
        let j = choose|j: int| 0 <= j < n && is_move(g, subsets, i, a, j);
        let t = id_of(j);
        assert(out_edge(g, sigma, subsets, q, a, t, i, j));
        assert(arc(&out.adjacency_matrix, q, a, t));
        assert forall|u: Text| #[trigger] out.has_transition(q, a, u) implies u == t by {
            assert(arc(&out.adjacency_matrix, q, a, u));
            let (i2, j2) = choose|i2: int, j2: int| out_edge(g, sigma, subsets, q, a, u, i2, j2);
            lemma_id_injective(i, i2);
            assert(subsets[j2] == subsets[j]);
        }
        assert(out.has_transition(q, a, t));
    }
    assert forall|f: Text, a: Text, t: Text| #[trigger]
        out.has_transition(f, a, t) implies a != epsilon() && src.alphabet().contains(a) by {
        assert(arc(&out.adjacency_matrix, f, a, t));
        let (i, j) = choose|i: int, j: int| out_edge(g, sigma, subsets, f, a, t, i, j);
    }
}

/// Some move leads to the `j`-th composite state.
pub open spec fn is_target(src: &NFA, subsets: Seq<Set<Text>>, j: int) -> bool {
    exists|i: int, a: Text|
        src.feasible_inputs@.contains(a) && is_move(&src.adjacency_matrix, subsets, i, a, j)
}

/// A composite state that some move leads to is accepting exactly when it holds an
/// accepting state of the source. So is a composite state that holds no accepting state:
/// it is not accepting. (The first composite state is marked only where a move leads
/// back to it.)
pub proof fn lemma_acceptance_preserved(src: &NFA, subsets: Seq<Set<Text>>, out: &NFA, j: int)
    requires
        src.wf(),
        is_subset_construction(src, subsets, out),
        0 <= j < subsets.len(),
        is_target(src, subsets, j) || subsets[j].disjoint(src.accepting()),
    ensures
        out.accepting().contains(id_of(j)) <==> !subsets[j].disjoint(src.accepting()),
{
    let g = &src.adjacency_matrix;
    let sigma = src.feasible_inputs@;
    let acc = src.finite_states@;
    let q = id_of(j);
    if out.finite_states@.contains(q) {
        let (i, a, j2) = choose|i: int, a: Text, j2: int|
            out_accepting(g, sigma, acc, subsets, q, i, a, j2);
        lemma_id_injective(j, j2);
    }
    if is_target(src, subsets, j) && !subsets[j].disjoint(acc) {
        let (i, a) = choose|i: int, a: Text| sigma.contains(a) && is_move(g, subsets, i, a, j);
        assert(out_accepting(g, sigma, acc, subsets, q, i, a, j));
    }
}

/// A composite state that no move leads to is not accepting, whatever it holds.
pub proof fn lemma_unreached_not_accepting(
    src: &NFA,
    subsets: Seq<Set<Text>>,
    out: &NFA,
    j: int,
)
    requires
        src.wf(),
        is_subset_construction(src, subsets, out),
        0 <= j < subsets.len(),
        !is_target(src, subsets, j),
    ensures
        !out.accepting().contains(id_of(j)),
{
    let g = &src.adjacency_matrix;
    let sigma = src.feasible_inputs@;
    let acc = src.finite_states@;
    let q = id_of(j);
    if out.finite_states@.contains(q) {
        let (i, a, j2) = choose|i: int, a: Text, j2: int|
            out_accepting(g, sigma, acc, subsets, q, i, a, j2);
        lemma_id_injective(j, j2);
        assert(sigma.contains(a) && is_move(g, subsets, i, a, j));
    }
}

/// Two automata made of the same source with the same composite states have the same
/// states, initial state, alphabet, transitions and accepting states.
pub proof fn lemma_construction_unique_output(
    src: &NFA,
    subsets: Seq<Set<Text>>,
    out1: &NFA,
    out2: &NFA,
)
    requires
        is_subset_construction(src, subsets, out1),
        is_subset_construction(src, subsets, out2),
    ensures
        out1.states() == out2.states(),
        out1.initial() == out2.initial(),
        out1.alphabet() == out2.alphabet(),
        out1.accepting() == out2.accepting(),
        forall|f: Text, a: Text, t: Text|
            out1.has_transition(f, a, t) == out2.has_transition(f, a, t),
{
    assert(out1.states() =~= out2.states());
    assert(out1.accepting() =~= out2.accepting());
    assert forall|f: Text, a: Text, t: Text|
        out1.has_transition(f, a, t) == out2.has_transition(f, a, t) by {
        assert(out1.has_transition(f, a, t) == arc(&out1.adjacency_matrix, f, a, t));
        assert(out2.has_transition(f, a, t) == arc(&out2.adjacency_matrix, f, a, t));
    }
}

/// Two runs of the subset construction on one source agree on their first `k`
/// composite states, as far as both have that many.
proof fn lemma_same_prefix(
    src: &NFA,
    s1: Seq<Set<Text>>,
    out1: &NFA,
    s2: Seq<Set<Text>>,
    out2: &NFA,
    k: int,
)
    requires
        is_subset_construction(src, s1, out1),
        is_subset_construction(src, s2, out2),
        0 <= k <= s1.len(),
        k <= s2.len(),
    ensures
        forall|i: int| 0 <= i < k ==> s1[i] == s2[i],
    decreases k,
{
    let g = &src.adjacency_matrix;
    let sigma = src.feasible_inputs@;
    if k > 1 {
        lemma_same_prefix(src, s1, out1, s2, out2, k - 1);
        let j = k - 1;
        assert(found_first(g, sigma, s1, j));
        assert(found_first(g, sigma, s2, j));
        let (i1, a1) = choose|i: int, a: Text| first_found_by(g, sigma, s1, j, i, a);
        let (i2, a2) = choose|i: int, a: Text| first_found_by(g, sigma, s2, j, i, a);
        assert(s1[i1] == s2[i1]);
        assert(s1[i2] == s2[i2]);
        if earlier(i1, a1, i2, a2) {
            // The second run tried this move before it found its `j`-th composite state.
            assert(lands(g, s2, i1, a1, j));
            let m = choose|m: int| 0 <= m < j && is_move(g, s2, i1, a1, m);
            assert(s1[m] == s2[m]);
            assert(s1[m] == s1[j]);
            assert(false);
        }
        if earlier(i2, a2, i1, a1) {
            assert(lands(g, s1, i2, a2, j));
            let m = choose|m: int| 0 <= m < j && is_move(g, s1, i2, a2, m);
            assert(s1[m] == s2[m]);
            assert(s2[m] == s2[j]);
            assert(false);
        }
        lemma_precedes_connected(a1, a2);
        assert(i1 == i2 && a1 == a2);
    }
}

/// The subset construction has one result: two runs on one source find the same
/// composite states in the same order, and make automata with the same states, initial
/// state, alphabet, transitions and accepting states.
pub proof fn lemma_construction_unique(
    src: &NFA,
    s1: Seq<Set<Text>>,
    out1: &NFA,
    s2: Seq<Set<Text>>,
    out2: &NFA,
)
    requires
        is_subset_construction(src, s1, out1),
        is_subset_construction(src, s2, out2),
    ensures
        s1 == s2,
        out1.states() == out2.states(),
        out1.initial() == out2.initial(),
        out1.alphabet() == out2.alphabet(),
        out1.accepting() == out2.accepting(),
        forall|f: Text, a: Text, t: Text|
            out1.has_transition(f, a, t) == out2.has_transition(f, a, t),
{
    let g = &src.adjacency_matrix;
    let sigma = src.feasible_inputs@;
    let n1 = s1.len() as int;
    let n2 = s2.len() as int;
    let n = if n1 <= n2 {
        n1
    } else {
        n2
    };
    lemma_same_prefix(src, s1, out1, s2, out2, n);
    if n1 < n2 {
        // The longer run found a composite state that the shorter one must hold too.
        assert(found_first(g, sigma, s2, n1));
        let (i, a) = choose|i: int, a: Text| first_found_by(g, sigma, s2, n1, i, a);
        assert(s1[i] == s2[i]);
        assert(lands(g, s1, i, a, n1));
        let m = choose|m: int| 0 <= m < n1 && is_move(g, s1, i, a, m);
        assert(s1[m] == s2[m]);
        assert(s2[m] == s2[n1]);
        assert(false);
    }
    if n2 < n1 {
        assert(found_first(g, sigma, s1, n2));
        let (i, a) = choose|i: int, a: Text| first_found_by(g, sigma, s1, n2, i, a);
        assert(s1[i] == s2[i]);
        assert(lands(g, s2, i, a, n2));
        let m = choose|m: int| 0 <= m < n2 && is_move(g, s2, i, a, m);
        assert(s1[m] == s2[m]);
        assert(s1[m] == s1[n2]);
        assert(false);
    }
    assert(s1 =~= s2);
    lemma_construction_unique_output(src, s1, out1, out2);
}

} // verus!
