//! Reachability along epsilon transitions.

use vstd::prelude::*;
use crate::graph::{arc, graph_wf, Graph};
use crate::input::epsilon;
use crate::lexical::Text;

verus! {

/// `p` is a walk through the graph along epsilon transitions: a state, then zero or more
/// further states, each reached from the one before it by an epsilon transition.
pub open spec fn is_eps_path(g: &Graph, p: Seq<Text>) -> bool {
    &&& p.len() >= 1
    &&& forall|i: int| 0 <= i < p.len() - 1 ==> arc(g, #[trigger] p[i], epsilon(), p[i + 1])
}

/// `t` can be reached from `s` by zero or more epsilon transitions.
pub open spec fn eps_reachable(g: &Graph, s: Text, t: Text) -> bool {
    exists|p: Seq<Text>| is_eps_path(g, p) && p[0] == s && p[p.len() - 1] == t
}

/// The epsilon closure of the state `s`: the states that can be reached from it by zero
/// or more epsilon transitions.
pub open spec fn closure(g: &Graph, s: Text) -> Set<Text> {
    Set::new(|t: Text| eps_reachable(g, s, t))
}

/// The epsilon closure of a set of states: the union of the closures of its states.
pub open spec fn closure_of(g: &Graph, from: Set<Text>) -> Set<Text> {
    Set::new(|t: Text| exists|s: Text| from.contains(s) && eps_reachable(g, s, t))
}

/// The closure of every state of the graph.
pub open spec fn full_index(g: &Graph) -> Map<Text, Set<Text>> {
    Map::new(|s: Text| g.dom().contains(s), |s: Text| closure(g, s))
}

/// The states that a transition on `symbol` leads to from some state of `from`.
pub open spec fn step(g: &Graph, from: Set<Text>, symbol: Text) -> Set<Text> {
    Set::new(|t: Text| exists|s: Text| from.contains(s) && arc(g, s, symbol, t))
}

/// Every state of `p` other than its first and its last is in `allowed`.
pub open spec fn inner_within(p: Seq<Text>, allowed: Set<Text>) -> bool {
    forall|i: int| 0 < i < p.len() - 1 ==> allowed.contains(#[trigger] p[i])
}

/// `p` is an epsilon walk from `s` to `t` that passes only through states of `allowed`.
pub open spec fn path_via(g: &Graph, p: Seq<Text>, s: Text, t: Text, allowed: Set<Text>) -> bool {
    &&& is_eps_path(g, p)
    &&& p[0] == s
    &&& p[p.len() - 1] == t
    &&& inner_within(p, allowed)
}

/// `t` can be reached from `s` by epsilon transitions, passing only through states of
/// `allowed` on the way.
pub open spec fn reach_via(g: &Graph, s: Text, t: Text, allowed: Set<Text>) -> bool {
    exists|p: Seq<Text>| path_via(g, p, s, t, allowed)
}

/// Every state reaches itself.
pub proof fn lemma_reach_reflexive(g: &Graph, s: Text)
    ensures
        eps_reachable(g, s, s),
        reach_via(g, s, s, Set::empty()),
{
    let p = seq![s];
    assert(is_eps_path(g, p) && p[0] == s && p[p.len() - 1] == s);
    assert(path_via(g, p, s, s, Set::empty()));
}

/// A state reaches the states that its epsilon transitions lead to.
pub proof fn lemma_reach_step(g: &Graph, s: Text, t: Text)
    requires
        arc(g, s, epsilon(), t),
    ensures
        eps_reachable(g, s, t),
{
    let p = seq![s, t];
    assert(is_eps_path(g, p) && p[0] == s && p[p.len() - 1] == t);
}

/// Two walks of which the second starts where the first ends make one walk.
pub proof fn lemma_join(
    g: &Graph,
    p: Seq<Text>,
    q: Seq<Text>,
    s: Text,
    m: Text,
    t: Text,
    allowed: Set<Text>,
)
    requires
        path_via(g, p, s, m, allowed),
        path_via(g, q, m, t, allowed),
        allowed.contains(m) || p.len() == 1 || q.len() == 1,
    ensures
        path_via(g, p + q.drop_first(), s, t, allowed),
{
    let r = p + q.drop_first();
    assert forall|i: int| 0 <= i < r.len() - 1 implies arc(
        g,
        #[trigger] r[i],
        epsilon(),
        r[i + 1],
    ) by {
        if i < p.len() - 1 {
            assert(r[i] == p[i]);
            assert(r[i + 1] == p[i + 1]);
        } else {
            let k = i - p.len() + 1;
            assert(r[i] == q[k]);
            assert(r[i + 1] == q[k + 1]);
        }
    }
    assert forall|i: int| 0 < i < r.len() - 1 implies allowed.contains(#[trigger] r[i]) by {
        if i < p.len() - 1 {
            assert(r[i] == p[i]);
        } else {
            let k = i - p.len() + 1;
            assert(r[i] == q[k]);
        }
    }
    if q.len() == 1 {
        assert(r =~= p);
    }
}

/// Reachability is transitive.
pub proof fn lemma_reach_transitive(g: &Graph, s: Text, m: Text, t: Text)
    requires
        eps_reachable(g, s, m),
        eps_reachable(g, m, t),
    ensures
        eps_reachable(g, s, t),
{
    let p = choose|p: Seq<Text>| is_eps_path(g, p) && p[0] == s && p[p.len() - 1] == m;
    let q = choose|q: Seq<Text>| is_eps_path(g, q) && q[0] == m && q[q.len() - 1] == t;
    let all = Set::<Text>::full();
    assert(path_via(g, p, s, m, all));
    assert(path_via(g, q, m, t, all));
    lemma_join(g, p, q, s, m, t, all);
    let r = p + q.drop_first();
    assert(is_eps_path(g, r) && r[0] == s && r[r.len() - 1] == t);
}

/// A walk that passes through no state at all stays where it is or takes one transition.
pub proof fn lemma_via_none(g: &Graph, s: Text, t: Text)
    requires
        reach_via(g, s, t, Set::empty()),
    ensures
        s == t || arc(g, s, epsilon(), t),
{
    let p = choose|p: Seq<Text>| path_via(g, p, s, t, Set::empty());
    if p.len() >= 3 {
        assert(Set::<Text>::empty().contains(p[1]));
    } else if p.len() == 2 {
        assert(arc(g, p[0], epsilon(), p[1]));
    }
}

/// A walk in a well-formed graph passes through states of the graph only.
pub proof fn lemma_via_all(g: &Graph, s: Text, t: Text)
    requires
        graph_wf(g),
        eps_reachable(g, s, t),
    ensures
        reach_via(g, s, t, g.dom()),
        s != t ==> g.dom().contains(s) && g.dom().contains(t),
{
    let p = choose|p: Seq<Text>| is_eps_path(g, p) && p[0] == s && p[p.len() - 1] == t;
    assert forall|i: int| 0 < i < p.len() - 1 implies g.dom().contains(#[trigger] p[i]) by {
        assert(arc(g, p[i], epsilon(), p[i + 1]));
    }
    assert(path_via(g, p, s, t, g.dom()));
    if s != t {
        assert(arc(g, p[0], epsilon(), p[1]));
        assert(arc(g, p[p.len() - 2], epsilon(), p[p.len() - 2 + 1]));
    }
}

/// A walk that may pass through `m` besides the states of `allowed` either avoids `m`,
/// or is made of a walk to `m` and a walk from `m` that both avoid it.
pub proof fn lemma_split_path(
    g: &Graph,
    p: Seq<Text>,
    s: Text,
    t: Text,
    allowed: Set<Text>,
    m: Text,
)
    requires
        path_via(g, p, s, t, allowed.insert(m)),
    ensures
        reach_via(g, s, t, allowed) || (reach_via(g, s, m, allowed) && reach_via(
            g,
            m,
            t,
            allowed,
        )),
    decreases p.len(),
{
    if exists|a: int| 0 < a < p.len() - 1 && p[a] == m {
        let a = choose|a: int| 0 < a < p.len() - 1 && p[a] == m;
        let left = p.take(a + 1);
        let right = p.skip(a);
        assert(path_via(g, left, s, m, allowed.insert(m))) by {
            assert forall|i: int| 0 <= i < left.len() - 1 implies arc(
                g,
                #[trigger] left[i],
                epsilon(),
                left[i + 1],
            ) by {
                assert(arc(g, p[i], epsilon(), p[i + 1]));
            }
            assert forall|i: int| 0 < i < left.len() - 1 implies allowed.insert(m).contains(
                #[trigger] left[i],
            ) by {
                assert(allowed.insert(m).contains(p[i]));
            }
        }
        assert(path_via(g, right, m, t, allowed.insert(m))) by {
            assert forall|i: int| 0 <= i < right.len() - 1 implies arc(
                g,
                #[trigger] right[i],
                epsilon(),
                right[i + 1],
            ) by {
                assert(arc(g, p[i + a], epsilon(), p[i + a + 1]));
            }
            assert forall|i: int| 0 < i < right.len() - 1 implies allowed.insert(m).contains(
                #[trigger] right[i],
            ) by {
                assert(allowed.insert(m).contains(p[i + a]));
            }
        }
        lemma_split_path(g, left, s, m, allowed, m);
        lemma_split_path(g, right, m, t, allowed, m);
    } else {
        assert forall|i: int| 0 < i < p.len() - 1 implies allowed.contains(#[trigger] p[i]) by {
            assert(allowed.insert(m).contains(p[i]));
        }
        assert(path_via(g, p, s, t, allowed));
    }
}

/// Reaching `t` from `s` with `m` allowed on the way is reaching it without `m`, or
/// reaching `m` and then `t` without it.
pub proof fn lemma_via_split(g: &Graph, s: Text, t: Text, allowed: Set<Text>, m: Text)
    requires
        reach_via(g, s, t, allowed.insert(m)),
    ensures
        reach_via(g, s, t, allowed) || (reach_via(g, s, m, allowed) && reach_via(
            g,
            m,
            t,
            allowed,
        )),
{
    let p = choose|p: Seq<Text>| path_via(g, p, s, t, allowed.insert(m));
    lemma_split_path(g, p, s, t, allowed, m);
}

/// A transition leads to a state of the graph.
pub proof fn lemma_step_within(g: &Graph, from: Set<Text>, symbol: Text)
    requires
        graph_wf(g),
    ensures
        step(g, from, symbol).subset_of(g.dom()),
{
    assert forall|t: Text| step(g, from, symbol).contains(t) implies g.dom().contains(t) by {
        let s = choose|s: Text| from.contains(s) && arc(g, s, symbol, t);
        crate::graph::lemma_arc_ends(g, s, symbol, t);
    }
}

/// The closure of states of the graph holds states of the graph, and those states.
pub proof fn lemma_closure_within(g: &Graph, from: Set<Text>)
    requires
        graph_wf(g),
        from.subset_of(g.dom()),
    ensures
        closure_of(g, from).subset_of(g.dom()),
        from.subset_of(closure_of(g, from)),
{
    assert forall|t: Text| closure_of(g, from).contains(t) implies g.dom().contains(t) by {
        let s = choose|s: Text| from.contains(s) && eps_reachable(g, s, t);
        lemma_via_all(g, s, t);
    }
    assert forall|t: Text| from.contains(t) implies closure_of(g, from).contains(t) by {
        lemma_reach_reflexive(g, t);
    }
}

} // verus!
