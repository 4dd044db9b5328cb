//! The subset construction: from a nondeterministic automaton, the deterministic
//! automaton whose states are the epsilon-closed sets of states that the first can be in.

use vstd::prelude::*;
use crate::automaton::{alphabet_exact, lemma_items_texts, lemma_names_one, FiniteAutomaton};
use crate::closure::{closure_of, lemma_closure_within, lemma_step_within, step};
use crate::decimal::{decimal, decimal_string};
use crate::graph::{arc, uses_symbol, Graph};
use crate::input::epsilon;
use crate::lexical::{
    is_listing, lemma_precedes_asymmetric, precedes, Text,
};
use crate::nfa::NFA;
use crate::ordered::OrdSet;
use crate::powerset::{lemma_distinct_subsets_bounded, powerset};
use crate::result::IResult;
use crate::state::State;

verus! {

/// The identifier of the `i`-th composite state: the decimal numeral of `i`.
#[verifier::opaque]
pub open spec fn id_of(i: int) -> Text {
    decimal(i as nat)
}

/// The composite state that the composite state `from` moves to on `symbol`: the closure
/// of the states that a transition on `symbol` leads to from a state of `from`.
#[verifier::opaque]
pub open spec fn successor(g: &Graph, from: Set<Text>, symbol: Text) -> Set<Text> {
    closure_of(g, step(g, from, symbol))
}

/// The `i`-th composite state moves to the `j`-th on `a`.
pub open spec fn is_move(g: &Graph, known: Seq<Set<Text>>, i: int, a: Text, j: int) -> bool {
    &&& 0 <= i < known.len()
    &&& 0 <= j < known.len()
    &&& known[j] == successor(g, known[i], a)
}

/// The `i`-th composite state moves on `a` to one of the first `below` composite states.
pub open spec fn lands(g: &Graph, known: Seq<Set<Text>>, i: int, a: Text, below: int) -> bool {
    exists|j: int| 0 <= j < below && is_move(g, known, i, a, j)
}

/// The move of the `i2`-th composite state on `a2` is tried before that of the `i`-th on
/// `a`: composite states are taken in the order of their numbers, and for each of them
/// the symbols in dictionary order.
pub open spec fn earlier(i2: int, a2: Text, i: int, a: Text) -> bool {
    i2 < i || (i2 == i && precedes(a2, a))
}

/// The `j`-th composite state is first reached by the move of the `i`-th on `a`: every
/// move tried before leads to a composite state with a smaller number.
pub open spec fn first_found_by(
    g: &Graph,
    sigma: Set<Text>,
    known: Seq<Set<Text>>,
    j: int,
    i: int,
    a: Text,
) -> bool {
    &&& 0 <= i < j < known.len()
    &&& sigma.contains(a)
    &&& known[j] == successor(g, known[i], a)
    &&& forall|i2: int, a2: Text|
        0 <= i2 && sigma.contains(a2) && earlier(i2, a2, i, a) ==> #[trigger] lands(
            g,
            known,
            i2,
            a2,
            j,
        )
}

/// The `j`-th composite state got its number when it was first reached.
pub open spec fn found_first(g: &Graph, sigma: Set<Text>, known: Seq<Set<Text>>, j: int) -> bool {
    exists|i: int, a: Text| first_found_by(g, sigma, known, j, i, a)
}

/// The transition from `f` to `t` on `a` is the move of the `i`-th composite state to
/// the `j`-th.
pub open spec fn out_edge(
    g: &Graph,
    sigma: Set<Text>,
    known: Seq<Set<Text>>,
    f: Text,
    a: Text,
    t: Text,
    i: int,
    j: int,
) -> bool {
    &&& sigma.contains(a)
    &&& is_move(g, known, i, a, j)
    &&& f == id_of(i)
    &&& t == id_of(j)
}

/// `q` names the `j`-th composite state, which the `i`-th moves to on `a` and which
/// holds an accepting state.
pub open spec fn out_accepting(
    g: &Graph,
    sigma: Set<Text>,
    acc: Set<Text>,
    known: Seq<Set<Text>>,
    q: Text,
    i: int,
    a: Text,
    j: int,
) -> bool {
    &&& sigma.contains(a)
    &&& is_move(g, known, i, a, j)
    &&& q == id_of(j)
    &&& !known[j].disjoint(acc)
}

/// `q` names one of the composite states.
pub open spec fn names_subset(known: Seq<Set<Text>>, q: Text) -> bool {
    exists|i: int| 0 <= i < known.len() && q == #[trigger] id_of(i)
}

/// `out` is the deterministic automaton that the subset construction makes of `src`, and
/// `subsets` are its composite states in the order of their numbers.
///
/// The first composite state is the closure of the initial states of `src`. Every move
/// of a composite state on a symbol of the alphabet leads to a composite state, and each
/// composite state after the first is numbered in the order in which the moves, tried
/// state by state and symbol by symbol, first reach it. The states of `out` are the
/// numerals of the composite states, its one initial state is the numeral of the first,
/// its transitions are the moves, and it accepts the composite states that some move
/// leads to and that hold an accepting state of `src`.
pub open spec fn is_subset_construction(src: &NFA, subsets: Seq<Set<Text>>, out: &NFA) -> bool {
    let g = &src.adjacency_matrix;
    let sigma = src.feasible_inputs@;
    let acc = src.finite_states@;
    &&& subsets.len() >= 1
    &&& subsets[0] == closure_of(g, src.initial_states@)
    &&& subsets.no_duplicates()
    &&& forall|i: int, a: Text|
        0 <= i < subsets.len() && sigma.contains(a) ==> #[trigger] lands(
            g,
            subsets,
            i,
            a,
            subsets.len() as int,
        )
    &&& forall|j: int| 1 <= j < subsets.len() ==> #[trigger] found_first(g, sigma, subsets, j)
    &&& out.wf()
    &&& !out.has_closure_index()
    &&& out.initial_states@ == set![id_of(0)]
    &&& forall|q: Text| #[trigger]
        out.adjacency_matrix.dom().contains(q) <==> names_subset(subsets, q)
    &&& out.feasible_inputs@ == sigma
    &&& forall|f: Text, a: Text, t: Text| #[trigger]
        arc(&out.adjacency_matrix, f, a, t) <==> exists|i: int, j: int|
            out_edge(g, sigma, subsets, f, a, t, i, j)
    &&& forall|q: Text| #[trigger]
        out.finite_states@.contains(q) <==> exists|i: int, a: Text, j: int|
            out_accepting(g, sigma, acc, subsets, q, i, a, j)
}

/// The move of the `i`-th composite state on `a` has been tried when the moves of the
/// composite states before the `h`-th, and those of the `h`-th on the first `c` symbols,
/// have been tried.
pub open spec fn done(syms: Seq<Text>, h: int, c: int, i: int, a: Text) -> bool {
    0 <= i && (i < h || (i == h && syms.take(c).contains(a)))
}

/// What holds of the composite states found so far, when the moves of those before the
/// `h`-th and those of the `h`-th on the first `c` symbols have been tried.
#[verifier::opaque]
pub open spec fn known_ok(
    g: &Graph,
    sigma: Set<Text>,
    start: Set<Text>,
    known: Seq<Set<Text>>,
    syms: Seq<Text>,
    h: int,
    c: int,
) -> bool {
    &&& is_listing(syms, sigma)
    &&& 0 <= h <= known.len()
    &&& 0 <= c <= syms.len()
    &&& (h == known.len() ==> c == 0)
    &&& known.len() >= 1
    &&& known[0] == start
    &&& known.no_duplicates()
    &&& forall|i: int, a: Text|
        sigma.contains(a) && #[trigger] done(syms, h, c, i, a) ==> lands(
            g,
            known,
            i,
            a,
            known.len() as int,
        )
    &&& forall|j: int| 1 <= j < known.len() ==> #[trigger] found_first(g, sigma, known, j)
}

/// The nodes of the graph built so far are the numerals of the composite states.
#[verifier::opaque]
pub open spec fn states_ok(known: Seq<Set<Text>>, og: &Graph) -> bool {
    forall|q: Text| #[trigger] og.dom().contains(q) <==> names_subset(known, q)
}

/// The transitions of the graph built so far are the moves tried.
#[verifier::opaque]
pub open spec fn arcs_ok(
    g: &Graph,
    sigma: Set<Text>,
    known: Seq<Set<Text>>,
    syms: Seq<Text>,
    h: int,
    c: int,
    og: &Graph,
) -> bool {
    forall|f: Text, a: Text, t: Text| #[trigger]
        arc(og, f, a, t) <==> exists|i: int, j: int|
            done(syms, h, c, i, a) && out_edge(g, sigma, known, f, a, t, i, j)
}

/// The accepting states marked so far are the targets of the moves tried that hold an
/// accepting state.
#[verifier::opaque]
pub open spec fn accepting_ok(
    g: &Graph,
    sigma: Set<Text>,
    acc: Set<Text>,
    known: Seq<Set<Text>>,
    syms: Seq<Text>,
    h: int,
    c: int,
    fin: Set<Text>,
) -> bool {
    forall|q: Text| #[trigger]
        fin.contains(q) <==> exists|i: int, a: Text, j: int|
            done(syms, h, c, i, a) && out_accepting(g, sigma, acc, known, q, i, a, j)
}

/// The composite states after a move with the target `target` was tried: the target is
/// the `jt`-th of them, and it is the last and new where it was not known.
pub open spec fn grown(
    known: Seq<Set<Text>>,
    known2: Seq<Set<Text>>,
    target: Set<Text>,
    jt: int,
) -> bool {
    ||| (known2 == known && 0 <= jt < known.len() && known[jt] == target)
    ||| (known2 == known.push(target) && !known.contains(target) && jt == known.len())
}

/// A symbol of the alphabet that precedes the `c`-th is among the first `c`.
proof fn lemma_before_in_take(syms: Seq<Text>, sigma: Set<Text>, c: int, a2: Text)
    requires
        is_listing(syms, sigma),
        0 <= c < syms.len(),
        sigma.contains(a2),
        precedes(a2, syms[c]),
    ensures
        syms.take(c).contains(a2),
{
    let x = choose|x: int| 0 <= x < syms.len() && syms[x] == a2;
    if x >= c {
        lemma_precedes_asymmetric(a2, syms[c]);
        if x > c {
            assert(precedes(syms[c], syms[x]));
        }
        assert(false);
    }
    assert(syms.take(c)[x] == a2);
}

/// The moves tried after one more symbol are those tried before and the new one.
proof fn lemma_done_next(syms: Seq<Text>, h: int, c: int)
    requires
        0 <= c < syms.len(),
    ensures
        syms.take(c + 1).contains(syms[c]),
        forall|i: int, x: Text| #[trigger]
            done(syms, h, c + 1, i, x) <==> done(syms, h, c, i, x) || (0 <= i && i == h && x
                == syms[c]),
{
    let more = syms.take(c + 1);
    let less = syms.take(c);
    assert(more[c] == syms[c]);
    assert forall|x: Text| more.contains(x) <==> less.contains(x) || x == syms[c] by {
        if more.contains(x) {
            let k = choose|k: int| 0 <= k < more.len() && more[k] == x;
            if k < c {
                assert(less[k] == x);
            }
        }
        if less.contains(x) {
            let k = choose|k: int| 0 <= k < less.len() && less[k] == x;
            assert(more[k] == x);
        }
    }
}

/// The moves tried when every symbol was tried on the `h`-th composite state are those
/// tried when the next composite state is taken.
proof fn lemma_done_wrap(syms: Seq<Text>, sigma: Set<Text>, h: int)
    requires
        is_listing(syms, sigma),
    ensures
        forall|i: int, x: Text|
            sigma.contains(x) ==> (#[trigger] done(syms, h + 1, 0, i, x) <==> done(
                syms,
                h,
                syms.len() as int,
                i,
                x,
            )),
{
    let n = syms.len() as int;
    assert(syms.take(n) =~= syms);
    assert(syms.take(0) =~= Seq::<Text>::empty());
    assert forall|i: int, x: Text| sigma.contains(x) implies (#[trigger] done(
        syms,
        h + 1,
        0,
        i,
        x,
    ) <==> done(syms, h, n, i, x)) by {
        assert(syms.to_set().contains(x));
        assert(syms.contains(x));
    }
}

/// What a step leaves as it was, and what it adds.
proof fn lemma_step_basics(
    g: &Graph,
    sigma: Set<Text>,
    start: Set<Text>,
    known: Seq<Set<Text>>,
    known2: Seq<Set<Text>>,
    syms: Seq<Text>,
    h: int,
    c: int,
    jt: int,
)
    requires
        known_ok(g, sigma, start, known, syms, h, c),
        0 <= h < known.len(),
        0 <= c < syms.len(),
        grown(known, known2, successor(g, known[h], syms[c]), jt),
    ensures
        known2.no_duplicates(),
        known.len() <= known2.len() <= known.len() + 1,
        forall|k: int| 0 <= k < known.len() ==> known2[k] == known[k],
        0 <= jt < known2.len(),
        sigma.contains(syms[c]),
        is_move(g, known2, h, syms[c], jt),
        forall|j: int| is_move(g, known2, h, syms[c], j) ==> j == jt,
        forall|i: int, x: Text, j: int| #[trigger]
            is_move(g, known, i, x, j) ==> is_move(g, known2, i, x, j),
        forall|i: int, x: Text, j: int|
            sigma.contains(x) && done(syms, h, c, i, x) && #[trigger] is_move(g, known2, i, x, j)
                ==> is_move(g, known, i, x, j),
{
    reveal(known_ok);
    assert(syms.to_set().contains(syms[c]));
    assert forall|i: int, x: Text, j: int|
        sigma.contains(x) && done(syms, h, c, i, x) && #[trigger] is_move(
            g,
            known2,
            i,
            x,
            j,
        ) implies is_move(g, known, i, x, j) by {
        assert(lands(g, known, i, x, known.len() as int));
        let j0 = choose|j0: int| 0 <= j0 < known.len() && is_move(g, known, i, x, j0);
        assert(known2[j0] == known2[j]);
    }
}

/// Trying one more move keeps what holds of the composite states.
proof fn lemma_step_known(
    g: &Graph,
    sigma: Set<Text>,
    start: Set<Text>,
    known: Seq<Set<Text>>,
    known2: Seq<Set<Text>>,
    syms: Seq<Text>,
    h: int,
    c: int,
    jt: int,
)
    requires
        known_ok(g, sigma, start, known, syms, h, c),
        0 <= h < known.len(),
        0 <= c < syms.len(),
        grown(known, known2, successor(g, known[h], syms[c]), jt),
    ensures
        known_ok(g, sigma, start, known2, syms, h, c + 1),
{
    reveal(known_ok);
    let a = syms[c];
    lemma_step_basics(g, sigma, start, known, known2, syms, h, c, jt);
    lemma_done_next(syms, h, c);
    assert forall|i: int, x: Text|
        sigma.contains(x) && #[trigger] done(syms, h, c + 1, i, x) implies lands(
        g,
        known2,
        i,
        x,
        known2.len() as int,
    ) by {
        if done(syms, h, c, i, x) {
            assert(lands(g, known, i, x, known.len() as int));
            let j0 = choose|j0: int| 0 <= j0 < known.len() && is_move(g, known, i, x, j0);
            assert(is_move(g, known2, i, x, j0));
        } else {
            assert(is_move(g, known2, h, a, jt));
        }
    }
    assert forall|j: int| 1 <= j < known2.len() implies #[trigger] found_first(
        g,
        sigma,
        known2,
        j,
    ) by {
        if j < known.len() {
            assert(found_first(g, sigma, known, j));
            let (i, x) = choose|i: int, x: Text| first_found_by(g, sigma, known, j, i, x);
            assert forall|i2: int, a2: Text|
                0 <= i2 && sigma.contains(a2) && earlier(i2, a2, i, x) implies #[trigger] lands(
                g,
                known2,
                i2,
                a2,
                j,
            ) by {
                assert(lands(g, known, i2, a2, j));
                let j0 = choose|j0: int| 0 <= j0 < j && is_move(g, known, i2, a2, j0);
                assert(is_move(g, known2, i2, a2, j0));
            }
            assert(first_found_by(g, sigma, known2, j, i, x));
        } else {
            assert forall|i2: int, a2: Text|
                0 <= i2 && sigma.contains(a2) && earlier(i2, a2, h, a) implies #[trigger] lands(
                g,
                known2,
                i2,
                a2,
                j,
            ) by {
                if i2 == h {
                    lemma_before_in_take(syms, sigma, c, a2);
                }
                assert(done(syms, h, c, i2, a2));
                assert(lands(g, known, i2, a2, known.len() as int));
                let j0 = choose|j0: int| 0 <= j0 < known.len() && is_move(g, known, i2, a2, j0);
                assert(is_move(g, known2, i2, a2, j0));
            }
            assert(first_found_by(g, sigma, known2, j, h, a));
        }
    }
}

/// Adding the numerals of the source and the target of a move keeps the nodes the
/// numerals of the composite states.
proof fn lemma_step_states(
    known: Seq<Set<Text>>,
    known2: Seq<Set<Text>>,
    target: Set<Text>,
    h: int,
    jt: int,
    og: &Graph,
    og2: &Graph,
)
    requires
        states_ok(known, og),
        0 <= h < known.len(),
        grown(known, known2, target, jt),
        og2.dom() == og.dom().insert(id_of(h)).insert(id_of(jt)),
    ensures
        states_ok(known2, og2),
{
    reveal(states_ok);
    assert forall|q: Text| #[trigger] og2.dom().contains(q) <==> names_subset(known2, q) by {
        if og.dom().contains(q) {
            assert(names_subset(known, q));
            let i = choose|i: int| 0 <= i < known.len() && q == #[trigger] id_of(i);
            assert(0 <= i < known2.len() && q == id_of(i));
        }
        if q == id_of(h) {
            assert(0 <= h < known2.len() && q == id_of(h));
        }
        if q == id_of(jt) {
            assert(0 <= jt < known2.len() && q == id_of(jt));
        }
        if names_subset(known2, q) {
            let i = choose|i: int| 0 <= i < known2.len() && q == #[trigger] id_of(i);
            if i < known.len() {
                assert(names_subset(known, q));
            } else {
                assert(i == jt);
            }
        }
    }
}

/// Adding the transition of the move tried keeps the transitions the moves tried.
proof fn lemma_step_arcs(
    g: &Graph,
    sigma: Set<Text>,
    start: Set<Text>,
    known: Seq<Set<Text>>,
    known2: Seq<Set<Text>>,
    syms: Seq<Text>,
    h: int,
    c: int,
    jt: int,
    og: &Graph,
    og2: &Graph,
)
    requires
        known_ok(g, sigma, start, known, syms, h, c),
        arcs_ok(g, sigma, known, syms, h, c, og),
        0 <= h < known.len(),
        0 <= c < syms.len(),
        grown(known, known2, successor(g, known[h], syms[c]), jt),
        forall|f: Text, s: Text, t: Text|
            arc(og2, f, s, t) <==> arc(og, f, s, t) || (f == id_of(h) && s == syms[c] && t
                == id_of(jt)),
    ensures
        arcs_ok(g, sigma, known2, syms, h, c + 1, og2),
{
    reveal(arcs_ok);
    let a = syms[c];
    lemma_step_basics(g, sigma, start, known, known2, syms, h, c, jt);
    lemma_done_next(syms, h, c);
    assert forall|f: Text, x: Text, t: Text| #[trigger]
        arc(og2, f, x, t) <==> exists|i: int, j: int|
            done(syms, h, c + 1, i, x) && out_edge(g, sigma, known2, f, x, t, i, j) by {
        if arc(og, f, x, t) {
            let (i, j) = choose|i: int, j: int|
                done(syms, h, c, i, x) && out_edge(g, sigma, known, f, x, t, i, j);
            assert(is_move(g, known2, i, x, j));
            assert(done(syms, h, c + 1, i, x) && out_edge(g, sigma, known2, f, x, t, i, j));
        }
        if f == id_of(h) && x == a && t == id_of(jt) {
            assert(done(syms, h, c + 1, h, x) && out_edge(g, sigma, known2, f, x, t, h, jt));
        }
        if exists|i: int, j: int|
            done(syms, h, c + 1, i, x) && out_edge(g, sigma, known2, f, x, t, i, j) {
            let (i, j) = choose|i: int, j: int|
                done(syms, h, c + 1, i, x) && out_edge(g, sigma, known2, f, x, t, i, j);
            if done(syms, h, c, i, x) {
                assert(is_move(g, known, i, x, j));
                assert(done(syms, h, c, i, x) && out_edge(g, sigma, known, f, x, t, i, j));
            } else {
                assert(j == jt);
            }
        }
    }
}

/// Marking the target of the move tried, where it holds an accepting state, keeps the
/// accepting states what they have to be.
proof fn lemma_step_accepting(
    g: &Graph,
    sigma: Set<Text>,
    acc: Set<Text>,
    start: Set<Text>,
    known: Seq<Set<Text>>,
    known2: Seq<Set<Text>>,
    syms: Seq<Text>,
    h: int,
    c: int,
    jt: int,
    fin: Set<Text>,
    fin2: Set<Text>,
)
    requires
        known_ok(g, sigma, start, known, syms, h, c),
        accepting_ok(g, sigma, acc, known, syms, h, c, fin),
        0 <= h < known.len(),
        0 <= c < syms.len(),
        grown(known, known2, successor(g, known[h], syms[c]), jt),
        fin2 == if successor(g, known[h], syms[c]).disjoint(acc) {
            fin
        } else {
            fin.insert(id_of(jt))
        },
    ensures
        accepting_ok(g, sigma, acc, known2, syms, h, c + 1, fin2),
{
    reveal(accepting_ok);
    let a = syms[c];
    let target = successor(g, known[h], a);
    lemma_step_basics(g, sigma, start, known, known2, syms, h, c, jt);
    lemma_done_next(syms, h, c);
    assert(known2[jt] == target);
    assert forall|q: Text| #[trigger]
        fin2.contains(q) <==> exists|i: int, x: Text, j: int|
            done(syms, h, c + 1, i, x) && out_accepting(g, sigma, acc, known2, q, i, x, j) by {
        if fin.contains(q) {
            let (i, x, j) = choose|i: int, x: Text, j: int|
                done(syms, h, c, i, x) && out_accepting(g, sigma, acc, known, q, i, x, j);
            assert(is_move(g, known2, i, x, j));
            assert(done(syms, h, c + 1, i, x) && out_accepting(
                g,
                sigma,
                acc,
                known2,
                q,
                i,
                x,
                j,
            ));
        }
        if q == id_of(jt) && !target.disjoint(acc) {
            assert(done(syms, h, c + 1, h, a) && out_accepting(
                g,
                sigma,
                acc,
                known2,
                q,
                h,
                a,
                jt,
            ));
        }
        if exists|i: int, x: Text, j: int|
            done(syms, h, c + 1, i, x) && out_accepting(g, sigma, acc, known2, q, i, x, j) {
            let (i, x, j) = choose|i: int, x: Text, j: int|
                done(syms, h, c + 1, i, x) && out_accepting(g, sigma, acc, known2, q, i, x, j);
            if done(syms, h, c, i, x) {
                assert(is_move(g, known, i, x, j));
                assert(done(syms, h, c, i, x) && out_accepting(
                    g,
                    sigma,
                    acc,
                    known,
                    q,
                    i,
                    x,
                    j,
                ));
            } else {
                assert(j == jt);
            }
        }
    }
}

/// When every symbol has been tried on a composite state, the next one is taken.
proof fn lemma_next_known(
    g: &Graph,
    sigma: Set<Text>,
    start: Set<Text>,
    known: Seq<Set<Text>>,
    syms: Seq<Text>,
    h: int,
)
    requires
        h < known.len(),
        known_ok(g, sigma, start, known, syms, h, syms.len() as int),
    ensures
        known_ok(g, sigma, start, known, syms, h + 1, 0),
{
    reveal(known_ok);
    lemma_done_wrap(syms, sigma, h);
    assert forall|i: int, a: Text|
        sigma.contains(a) && #[trigger] done(syms, h + 1, 0, i, a) implies lands(
        g,
        known,
        i,
        a,
        known.len() as int,
    ) by {
        assert(done(syms, h, syms.len() as int, i, a));
    }
}

/// The transitions stay the moves tried when the next composite state is taken.
proof fn lemma_next_arcs(
    g: &Graph,
    sigma: Set<Text>,
    known: Seq<Set<Text>>,
    syms: Seq<Text>,
    h: int,
    og: &Graph,
)
    requires
        is_listing(syms, sigma),
        arcs_ok(g, sigma, known, syms, h, syms.len() as int, og),
    ensures
        arcs_ok(g, sigma, known, syms, h + 1, 0, og),
{
    reveal(arcs_ok);
    let n = syms.len() as int;
    lemma_done_wrap(syms, sigma, h);
    assert forall|f: Text, x: Text, t: Text| #[trigger]
        arc(og, f, x, t) <==> exists|i: int, j: int|
            done(syms, h + 1, 0, i, x) && out_edge(g, sigma, known, f, x, t, i, j) by {
        if arc(og, f, x, t) {
            let (i, j) = choose|i: int, j: int|
                done(syms, h, n, i, x) && out_edge(g, sigma, known, f, x, t, i, j);
            assert(done(syms, h + 1, 0, i, x) && out_edge(g, sigma, known, f, x, t, i, j));
        }
        if exists|i: int, j: int|
            done(syms, h + 1, 0, i, x) && out_edge(g, sigma, known, f, x, t, i, j) {
            let (i, j) = choose|i: int, j: int|
                done(syms, h + 1, 0, i, x) && out_edge(g, sigma, known, f, x, t, i, j);
            assert(done(syms, h, n, i, x) && out_edge(g, sigma, known, f, x, t, i, j));
        }
    }
}

/// The accepting states stay what they have to be when the next composite state is taken.
proof fn lemma_next_accepting(
    g: &Graph,
    sigma: Set<Text>,
    acc: Set<Text>,
    known: Seq<Set<Text>>,
    syms: Seq<Text>,
    h: int,
    fin: Set<Text>,
)
    requires
        is_listing(syms, sigma),
        accepting_ok(g, sigma, acc, known, syms, h, syms.len() as int, fin),
    ensures
        accepting_ok(g, sigma, acc, known, syms, h + 1, 0, fin),
{
    reveal(accepting_ok);
    let n = syms.len() as int;
    lemma_done_wrap(syms, sigma, h);
    assert forall|q: Text| #[trigger]
        fin.contains(q) <==> exists|i: int, x: Text, j: int|
            done(syms, h + 1, 0, i, x) && out_accepting(g, sigma, acc, known, q, i, x, j) by {
        if fin.contains(q) {
            let (i, x, j) = choose|i: int, x: Text, j: int|
                done(syms, h, n, i, x) && out_accepting(g, sigma, acc, known, q, i, x, j);
            assert(done(syms, h + 1, 0, i, x) && out_accepting(
                g,
                sigma,
                acc,
                known,
                q,
                i,
                x,
                j,
            ));
        }
        if exists|i: int, x: Text, j: int|
            done(syms, h + 1, 0, i, x) && out_accepting(g, sigma, acc, known, q, i, x, j) {
            let (i, x, j) = choose|i: int, x: Text, j: int|
                done(syms, h + 1, 0, i, x) && out_accepting(g, sigma, acc, known, q, i, x, j);
            assert(done(syms, h, n, i, x) && out_accepting(g, sigma, acc, known, q, i, x, j));
        }
    }
}

/// When the moves of every composite state have been tried, the transitions are the
/// moves, and the alphabet of the automaton built is that of the source.
proof fn lemma_final_arcs(
    g: &Graph,
    sigma: Set<Text>,
    start: Set<Text>,
    known: Seq<Set<Text>>,
    syms: Seq<Text>,
    og: &Graph,
    alphabet: Set<Text>,
)
    requires
        known_ok(g, sigma, start, known, syms, known.len() as int, 0),
        arcs_ok(g, sigma, known, syms, known.len() as int, 0, og),
        alphabet_exact(sigma, g),
        alphabet_exact(alphabet, og),
    ensures
        forall|i: int, a: Text|
            0 <= i < known.len() && sigma.contains(a) ==> #[trigger] lands(
                g,
                known,
                i,
                a,
                known.len() as int,
            ),
        forall|f: Text, a: Text, t: Text| #[trigger]
            arc(og, f, a, t) <==> exists|i: int, j: int| out_edge(g, sigma, known, f, a, t, i, j),
        alphabet == sigma,
{
    reveal(known_ok);
    reveal(arcs_ok);
    let n = known.len() as int;
    assert forall|i: int, a: Text| 0 <= i < n && sigma.contains(a) implies #[trigger] lands(
        g,
        known,
        i,
        a,
        n,
    ) by {
        assert(done(syms, n, 0, i, a));
    }
    assert forall|f: Text, a: Text, t: Text| #[trigger]
        arc(og, f, a, t) <==> exists|i: int, j: int| out_edge(g, sigma, known, f, a, t, i, j) by {
        if arc(og, f, a, t) {
            let (i, j) = choose|i: int, j: int|
                done(syms, n, 0, i, a) && out_edge(g, sigma, known, f, a, t, i, j);
            assert(out_edge(g, sigma, known, f, a, t, i, j));
        }
        if exists|i: int, j: int| out_edge(g, sigma, known, f, a, t, i, j) {
            let (i, j) = choose|i: int, j: int| out_edge(g, sigma, known, f, a, t, i, j);
            assert(done(syms, n, 0, i, a) && out_edge(g, sigma, known, f, a, t, i, j));
        }
    }
    assert forall|s: Text| alphabet.contains(s) <==> sigma.contains(s) by {
        if alphabet.contains(s) {
            assert(uses_symbol(og, s));
            let (f, t) = choose|f: Text, t: Text| arc(og, f, s, t);
            let (i, j) = choose|i: int, j: int| out_edge(g, sigma, known, f, s, t, i, j);
        }
        if sigma.contains(s) {
            assert(lands(g, known, 0, s, n));
            let j = choose|j: int| 0 <= j < n && is_move(g, known, 0, s, j);
            assert(out_edge(g, sigma, known, id_of(0), s, id_of(j), 0, j));
            assert(arc(og, id_of(0), s, id_of(j)));
            assert(uses_symbol(og, s));
        }
    }
    assert(alphabet =~= sigma);
}

/// When the moves of every composite state have been tried, the accepting states are
/// the targets of moves that hold an accepting state.
proof fn lemma_final_accepting(
    g: &Graph,
    sigma: Set<Text>,
    acc: Set<Text>,
    known: Seq<Set<Text>>,
    syms: Seq<Text>,
    fin: Set<Text>,
)
    requires
        accepting_ok(g, sigma, acc, known, syms, known.len() as int, 0, fin),
    ensures
        forall|q: Text| #[trigger]
            fin.contains(q) <==> exists|i: int, a: Text, j: int|
                out_accepting(g, sigma, acc, known, q, i, a, j),
{
    reveal(accepting_ok);
    let n = known.len() as int;
    assert forall|q: Text| #[trigger]
        fin.contains(q) <==> exists|i: int, a: Text, j: int|
            out_accepting(g, sigma, acc, known, q, i, a, j) by {
        if fin.contains(q) {
            let (i, a, j) = choose|i: int, a: Text, j: int|
                done(syms, n, 0, i, a) && out_accepting(g, sigma, acc, known, q, i, a, j);
            assert(out_accepting(g, sigma, acc, known, q, i, a, j));
        }
        if exists|i: int, a: Text, j: int| out_accepting(g, sigma, acc, known, q, i, a, j) {
            let (i, a, j) = choose|i: int, a: Text, j: int|
                out_accepting(g, sigma, acc, known, q, i, a, j);
            assert(done(syms, n, 0, i, a) && out_accepting(g, sigma, acc, known, q, i, a, j));
        }
    }
}

/// Before any move is tried, there is the first composite state, and the automaton has
/// its numeral as its one state.
proof fn lemma_begin(
    g: &Graph,
    sigma: Set<Text>,
    acc: Set<Text>,
    start: Set<Text>,
    syms: Seq<Text>,
    og: &Graph,
    fin: Set<Text>,
)
    requires
        is_listing(syms, sigma),
        og.dom() == set![id_of(0)],
        forall|f: Text, s: Text, t: Text| !arc(og, f, s, t),
        fin == Set::<Text>::empty(),
    ensures
        known_ok(g, sigma, start, seq![start], syms, 0, 0),
        states_ok(seq![start], og),
        arcs_ok(g, sigma, seq![start], syms, 0, 0, og),
        accepting_ok(g, sigma, acc, seq![start], syms, 0, 0, fin),
{
    reveal(known_ok);
    reveal(states_ok);
    reveal(arcs_ok);
    reveal(accepting_ok);
    let known = seq![start];
    assert(syms.take(0) =~= Seq::<Text>::empty());
    assert forall|q: Text| #[trigger] og.dom().contains(q) <==> names_subset(known, q) by {
        if q == id_of(0) {
            assert(0 <= 0 < known.len() && q == id_of(0));
        }
    }
}

/// When the moves of every composite state have been tried, the composite states are
/// complete and in the order of their discovery, and the states are their numerals.
proof fn lemma_final_known(
    g: &Graph,
    sigma: Set<Text>,
    start: Set<Text>,
    known: Seq<Set<Text>>,
    syms: Seq<Text>,
    og: &Graph,
)
    requires
        known_ok(g, sigma, start, known, syms, known.len() as int, 0),
        states_ok(known, og),
    ensures
        known.len() >= 1,
        known[0] == start,
        known.no_duplicates(),
        forall|j: int| 1 <= j < known.len() ==> #[trigger] found_first(g, sigma, known, j),
        forall|q: Text| #[trigger] og.dom().contains(q) <==> names_subset(known, q),
{
    reveal(known_ok);
    reveal(states_ok);
}

/// When the moves of every composite state have been tried, the construction is done.
proof fn lemma_finished(src: &NFA, known: Seq<Set<Text>>, syms: Seq<Text>, out: &NFA)
    requires
        alphabet_exact(src.feasible_inputs@, &src.adjacency_matrix),
        alphabet_exact(out.feasible_inputs@, &out.adjacency_matrix),
        out.wf(),
        !out.has_closure_index(),
        out.initial_states@ == set![id_of(0)],
        known_ok(
            &src.adjacency_matrix,
            src.feasible_inputs@,
            closure_of(&src.adjacency_matrix, src.initial_states@),
            known,
            syms,
            known.len() as int,
            0,
        ),
        states_ok(known, &out.adjacency_matrix),
        arcs_ok(
            &src.adjacency_matrix,
            src.feasible_inputs@,
            known,
            syms,
            known.len() as int,
            0,
            &out.adjacency_matrix,
        ),
        accepting_ok(
            &src.adjacency_matrix,
            src.feasible_inputs@,
            src.finite_states@,
            known,
            syms,
            known.len() as int,
            0,
            out.finite_states@,
        ),
    ensures
        is_subset_construction(src, known, out),
{
    let g = &src.adjacency_matrix;
    let sigma = src.feasible_inputs@;
    let start = closure_of(g, src.initial_states@);
    lemma_final_known(g, sigma, start, known, syms, &out.adjacency_matrix);
    lemma_final_arcs(g, sigma, start, known, syms, &out.adjacency_matrix, out.feasible_inputs@);
    lemma_final_accepting(g, sigma, src.finite_states@, known, syms, out.finite_states@);
}

/// The sets of texts that the composite states stand for.
pub open spec fn views(known: Seq<OrdSet<State>>) -> Seq<Set<Text>> {
    known.map_values(|s: OrdSet<State>| s@)
}

/// Every composite state is in order and holds states of the graph only, and there are
/// no more of them than the graph's states have subsets.
pub open spec fn subsets_wf(g: &Graph, known: Seq<OrdSet<State>>) -> bool {
    &&& known.len() <= powerset(g.dom()).len()
    &&& forall|j: int|
        0 <= j < known.len() ==> (#[trigger] known[j]).wf() && known[j]@.subset_of(g.dom())
}

/// What the conversion keeps while it runs: `known` are the composite states found and
/// `out` is the automaton built when the moves of the composite states before the
/// `h`-th, and those of the `h`-th on the first `c` symbols, have been tried.
pub open spec fn building(src: &NFA, known: Seq<OrdSet<State>>, h: int, c: int, out: &NFA) -> bool {
    let g = &src.adjacency_matrix;
    let sigma = src.feasible_inputs@;
    let syms = src.feasible_inputs.texts();
    let start = closure_of(g, src.initial_states@);
    &&& subsets_wf(g, known)
    &&& known_ok(g, sigma, start, views(known), syms, h, c)
    &&& out.wf()
    &&& !out.has_closure_index()
    &&& out.initial_states@ == set![id_of(0)]
    &&& states_ok(views(known), &out.adjacency_matrix)
    &&& arcs_ok(g, sigma, views(known), syms, h, c, &out.adjacency_matrix)
    &&& accepting_ok(g, sigma, src.finite_states@, views(known), syms, h, c, out.finite_states@)
}

/// Looks for the composite state `target` among those known.
fn find_known(known: &Vec<OrdSet<State>>, target: &OrdSet<State>) -> (r: Option<usize>)
    requires
        forall|j: int| 0 <= j < known@.len() ==> (#[trigger] known@[j]).wf(),
        target.wf(),
    ensures
        match r {
            Some(j) => j < known@.len() && views(known@)[j as int] == target@,
            None => !views(known@).contains(target@),
        },
{
    let n = known.len();
    let mut j: usize = 0;
    while j < n
        invariant
            forall|k: int| 0 <= k < known@.len() ==> (#[trigger] known@[k]).wf(),
            target.wf(),
            n == known@.len(),
            0 <= j <= n,
            forall|k: int| 0 <= k < j ==> views(known@)[k] != target@,
        decreases n - j,
    {
        if known[j].same_as(target) {
            return Some(j);
        }
        j = j + 1;
    }
    None
}

impl NFA {
    /// The composite state that the `head`-th composite state moves to on `symbol`.
    fn move_target(&self, known: &Vec<OrdSet<State>>, head: usize, symbol: &str) -> (reached:
        OrdSet<State>)
        requires
            self.wf(),
            self.has_closure_index(),
            head < known@.len(),
            known@[head as int].wf(),
        ensures
            reached.wf(),
            reached@ == successor(&self.adjacency_matrix, views(known@)[head as int], symbol@),
            reached@.subset_of(self.adjacency_matrix.dom()),
    {
        let ghost g = &self.adjacency_matrix;
        let direct = self.straight_reachable_states(&known[head].items, symbol);
        proof {
            lemma_items_texts(&known@[head as int]);
            lemma_items_texts(&direct);
            lemma_step_within(g, known@[head as int]@, symbol@);
            assert forall|i: int| 0 <= i < direct.items@.len() implies g.dom().contains(
                #[trigger] direct.items@[i]@,
            ) by {
                assert(direct.texts()[i] == direct.items@[i]@);
                assert(direct@.contains(direct.texts()[i]));
            }
        }
        match self.get_epsilon_closure(&direct.items) {
            Ok(set) => {
                proof {
                    reveal(successor);
                    lemma_closure_within(g, direct@);
                }
                set
            },
            Err(_) => {
                proof {
                    assert(false);
                }
                direct
            },
        }
    }

    /// Tries the move of the `head`-th composite state on the `c`-th symbol: its target
    /// becomes a composite state where it is new, `out` gets the transition between the
    /// numerals, and the numeral of the target becomes accepting where the target holds
    /// an accepting state.
    fn try_move(
        &self,
        known: &mut Vec<OrdSet<State>>,
        out: &mut NFA,
        head: usize,
        c: usize,
        from_id: &str,
    )
        requires
            self.wf(),
            self.has_closure_index(),
            head < old(known)@.len(),
            c < self.feasible_inputs.items@.len(),
            from_id@ == id_of(head as int),
            building(self, old(known)@, head as int, c as int, old(out)),
        ensures
            building(self, final(known)@, head as int, c + 1, final(out)),
            head < final(known)@.len(),
    {
        let ghost g = &self.adjacency_matrix;
        let ghost sigma = self.feasible_inputs@;
        let ghost acc = self.finite_states@;
        let ghost syms = self.feasible_inputs.texts();
        let ghost start = closure_of(g, self.initial_states@);
        let ghost before = views(known@);
        let ghost out0 = *out;
        let ghost og = out.adjacency_matrix;
        let ghost fin = out.finite_states@;
        let symbol = self.feasible_inputs.items[c].get_str();
        assert(symbol@ == syms[c as int]);
        let ghost target = successor(g, before[head as int], syms[c as int]);
        let reached = self.move_target(known, head, symbol);
        let to_index = match find_known(known, &reached) {
            Some(j) => j,
            None => {
                known.push(reached);
                proof {
                    assert(views(known@) =~= before.push(target));
                    lemma_step_basics(
                        g,
                        sigma,
                        start,
                        before,
                        views(known@),
                        syms,
                        head as int,
                        c as int,
                        before.len() as int,
                    );
                    g.keys.lemma_len();
                    assert forall|j: int| 0 <= j < views(known@).len() implies (#[trigger] views(
                        known@,
                    )[j]).subset_of(g.dom()) by {
                        assert(known@[j]@.subset_of(g.dom()));
                    }
                    lemma_distinct_subsets_bounded(views(known@), g.dom());
                }
                known.len() - 1
            },
        };
        let to_id = decimal_string(to_index);
        let to_name = to_id.as_str();
        proof {
            reveal(id_of);
            assert(grown(before, views(known@), target, to_index as int));
            assert(views(known@)[to_index as int] == target);
        }
        let _ = out.add_transfer_rule(from_id, symbol, to_name);
        let ghost out1 = *out;
        let ghost mid_dom = out.adjacency_matrix.dom();
        if known[to_index].intersects(&self.finite_states) {
            let mut marked: Vec<&str> = Vec::new();
            marked.push(to_name);
            let _ = out.add_finite_states(marked.as_slice());
            proof {
                assert(marked@ =~= seq![to_name]);
                lemma_names_one(to_name);
                assert(out.adjacency_matrix.dom() =~= mid_dom);
                assert(out.finite_states@ =~= fin.insert(id_of(to_index as int)));
            }
        }
        proof {
            assert forall|f: Text, s: Text, t: Text|
                arc(&out.adjacency_matrix, f, s, t) <==> arc(&og, f, s, t) || (f == id_of(
                    head as int,
                ) && s == syms[c as int] && t == id_of(to_index as int)) by {
                assert(out.has_transition(f, s, t) == out1.has_transition(f, s, t));
                assert(out1.has_transition(f, s, t) <==> out0.has_transition(f, s, t) || (f
                    == from_id@ && s == symbol@ && t == to_name@));
            }
            lemma_step_known(
                g,
                sigma,
                start,
                before,
                views(known@),
                syms,
                head as int,
                c as int,
                to_index as int,
            );
            lemma_step_states(
                before,
                views(known@),
                target,
                head as int,
                to_index as int,
                &og,
                &out.adjacency_matrix,
            );
            lemma_step_arcs(
                g,
                sigma,
                start,
                before,
                views(known@),
                syms,
                head as int,
                c as int,
                to_index as int,
                &og,
                &out.adjacency_matrix,
            );
            lemma_step_accepting(
                g,
                sigma,
                acc,
                start,
                before,
                views(known@),
                syms,
                head as int,
                c as int,
                to_index as int,
                fin,
                out.finite_states@,
            );
        }
    }

    /// The automaton and the composite states before any move is tried: the closure of
    /// the initial states as the one composite state, and its numeral as the one state.
    fn begin(&self, first: OrdSet<State>) -> (r: (NFA, Vec<OrdSet<State>>))
        requires
            self.wf(),
            first.wf(),
            first@ == closure_of(&self.adjacency_matrix, self.initial_states@),
        ensures
            building(self, r.1@, 0, 0, &r.0),
            r.1@.len() == 1,
    {
        let ghost g = &self.adjacency_matrix;
        let mut out = NFA::new();
        let ghost empty = out;
        let zero = decimal_string(0);
        let zero_name = zero.as_str();
        let mut ids: Vec<&str> = Vec::new();
        ids.push(zero_name);
        let _ = out.add_initial_states(ids.as_slice());
        let mut known: Vec<OrdSet<State>> = Vec::new();
        known.push(first);
        proof {
            reveal(id_of);
            lemma_names_one(zero_name);
            assert(ids@ =~= seq![zero_name]);
            assert(out.initial_states@ =~= set![id_of(0)]);
            assert(out.adjacency_matrix.dom() =~= set![id_of(0)]);
            lemma_closure_within(g, self.initial_states@);
            g.keys.lemma_len();
            assert(views(known@) =~= seq![first@]);
            lemma_distinct_subsets_bounded(views(known@), g.dom());
            assert forall|f: Text, s: Text, t: Text| !arc(&out.adjacency_matrix, f, s, t) by {
                assert(out.has_transition(f, s, t) == empty.has_transition(f, s, t));
                assert(!empty.has_transition(f, s, t));
            }
            lemma_begin(
                g,
                self.feasible_inputs@,
                self.finite_states@,
                first@,
                self.feasible_inputs.texts(),
                &out.adjacency_matrix,
                out.finite_states@,
            );
        }
        (out, known)
    }

    /// Converts the automaton into a deterministic one by the subset construction, and
    /// gives with it the composite states, in the order of their numbers. Fails while
    /// the epsilon closures are not known.
    pub fn to_dfa_with_subsets(&self) -> (r: IResult<(NFA, Vec<OrdSet<State>>)>)
        requires
            self.wf(),
        ensures
            match r {
                Ok((out, subsets)) => {
                    &&& self.has_closure_index()
                    &&& is_subset_construction(self, views(subsets@), &out)
                    &&& forall|j: int| 0 <= j < subsets@.len() ==> (#[trigger] subsets@[j]).wf()
                },
                Err(e) => !self.has_closure_index() && e is Uninitialized,
            },
    {
        let ghost bound = powerset(self.adjacency_matrix.dom()).len();
        proof {
            lemma_items_texts(&self.initial_states);
            assert forall|i: int|
                0 <= i < self.initial_states.items@.len() implies self.adjacency_matrix.dom().contains(
            #[trigger] self.initial_states.items@[i]@) by {
                assert(self.initial_states.texts()[i] == self.initial_states.items@[i]@);
                assert(self.initial_states@.contains(self.initial_states.texts()[i]));
            }
        }
        let first = match self.get_epsilon_closure(&self.initial_states.items) {
            Ok(set) => set,
            Err(e) => {
                return Err(e);
            },
        };
        let (mut out, mut known) = self.begin(first);
        let width = self.feasible_inputs.items.len();
        let mut head: usize = 0;
        while head < known.len()
            invariant
                self.wf(),
                self.has_closure_index(),
                width == self.feasible_inputs.items@.len(),
                bound == powerset(self.adjacency_matrix.dom()).len(),
                head <= known@.len(),
                building(self, known@, head as int, 0, &out),
            decreases bound - head,
        {
            let from_id = decimal_string(head);
            proof {
                reveal(id_of);
            }
            let mut c: usize = 0;
            while c < width
                invariant
                    self.wf(),
                    self.has_closure_index(),
                    width == self.feasible_inputs.items@.len(),
                    bound == powerset(self.adjacency_matrix.dom()).len(),
                    head < known@.len(),
                    0 <= c <= width,
                    from_id@ == id_of(head as int),
                    building(self, known@, head as int, c as int, &out),
                decreases width - c,
            {
                self.try_move(&mut known, &mut out, head, c, from_id.as_str());
                c = c + 1;
            }
            proof {
                let g = &self.adjacency_matrix;
                let sigma = self.feasible_inputs@;
                let syms = self.feasible_inputs.texts();
                let start = closure_of(g, self.initial_states@);
                lemma_next_known(g, sigma, start, views(known@), syms, head as int);
                lemma_next_arcs(g, sigma, views(known@), syms, head as int, &out.adjacency_matrix);
                lemma_next_accepting(
                    g,
                    sigma,
                    self.finite_states@,
                    views(known@),
                    syms,
                    head as int,
                    out.finite_states@,
                );
            }
            head = head + 1;
        }
        proof {
            lemma_finished(self, views(known@), self.feasible_inputs.texts(), &out);
        }
        Ok((out, known))
    }

    /// Converts the automaton into a deterministic one by the subset construction. Fails
    /// while the epsilon closures are not known.
    pub fn to_dfa(&self) -> (r: IResult<NFA>)
        requires
            self.wf(),
        ensures
            match r {
                Ok(out) => self.has_closure_index() && exists|subsets: Seq<Set<Text>>|
                    is_subset_construction(self, subsets, &out),
                Err(e) => !self.has_closure_index() && e is Uninitialized,
            },
    {
        match self.to_dfa_with_subsets() {
            Ok((out, subsets)) => {
                assert(is_subset_construction(self, views(subsets@), &out));
                Ok(out)
            },
            Err(e) => Err(e),
        }
    }
}

} // verus!
