//! Dictionary order on texts, the canonical order of every set and map in this crate.

use vstd::prelude::*;
use vstd::std_specs::iter::IteratorSpec;

verus! {

/// A text: the characters of a state identifier or of an input symbol.
pub type Text = Seq<char>;

/// Outcome of comparing two texts in dictionary order.
#[derive(Clone, Copy, PartialEq, Eq, Structural, Debug)]
pub enum Rank {
    Before,
    Same,
    After,
}

/// `a` and `b` agree on their first `k` characters, and at position `k` either `a` ends
/// while `b` goes on, or `a` holds the smaller character.
pub open spec fn parts_at(a: Seq<char>, b: Seq<char>, k: int) -> bool {
    &&& 0 <= k <= a.len()
    &&& k < b.len()
    &&& forall|i: int| 0 <= i < k ==> a[i] == b[i]
    &&& (k < a.len() ==> (a[k] as u32) < (b[k] as u32))
}

/// Strict dictionary order: `a` comes before `b` when they are compared character by
/// character, by code point, a proper prefix coming before its extensions.
pub open spec fn precedes(a: Seq<char>, b: Seq<char>) -> bool {
    exists|k: int| parts_at(a, b, k)
}

/// No text precedes itself, and two texts never precede each other.
pub proof fn lemma_precedes_asymmetric(a: Seq<char>, b: Seq<char>)
    requires
        precedes(a, b),
    ensures
        a != b,
        !precedes(b, a),
{
    let k = choose|k: int| parts_at(a, b, k);
    if a == b {
        assert(false);
    }
    if precedes(b, a) {
        let m = choose|m: int| parts_at(b, a, m);
        if k < m {
            assert(b[k] == a[k]);
        } else if m < k {
            assert(a[m] == b[m]);
        }
        assert(false);
    }
}

/// Dictionary order is transitive.
pub proof fn lemma_precedes_transitive(a: Seq<char>, b: Seq<char>, c: Seq<char>)
    requires
        precedes(a, b),
        precedes(b, c),
    ensures
        precedes(a, c),
{
    let k = choose|k: int| parts_at(a, b, k);
    let m = choose|m: int| parts_at(b, c, m);
    let n = if k <= m { k } else { m };
    assert forall|i: int| 0 <= i < n implies a[i] == c[i] by {
        assert(a[i] == b[i]);
        assert(b[i] == c[i]);
    }
    if k < m {
        assert(b[k] == c[k]);
    }
    if m < k {
        assert(a[m] == b[m]);
    }
    assert(parts_at(a, c, n));
}

/// Two texts that agree on their first `k` characters are equal or ordered one way.
proof fn lemma_connected_from(a: Seq<char>, b: Seq<char>, k: int)
    requires
        0 <= k <= a.len(),
        k <= b.len(),
        forall|i: int| 0 <= i < k ==> a[i] == b[i],
    ensures
        a == b || precedes(a, b) || precedes(b, a),
    decreases a.len() - k,
{
    if k == a.len() {
        if k == b.len() {
            assert(a =~= b);
        } else {
            assert(parts_at(a, b, k));
        }
    } else if k == b.len() {
        assert(parts_at(b, a, k));
    } else if a[k] == b[k] {
        lemma_connected_from(a, b, k + 1);
    } else if (a[k] as u32) < (b[k] as u32) {
        assert(parts_at(a, b, k));
    } else {
        vstd::utf8::char_u32_cast(a[k], a[k] as u32);
        vstd::utf8::char_u32_cast(b[k], b[k] as u32);
        assert(parts_at(b, a, k));
    }
}

/// Dictionary order is total: two different texts are ordered one way or the other.
pub proof fn lemma_precedes_connected(a: Seq<char>, b: Seq<char>)
    ensures
        a == b || precedes(a, b) || precedes(b, a),
{
    lemma_connected_from(a, b, 0);
}

/// The texts of `s` stand in strictly increasing dictionary order.
pub open spec fn increasing(s: Seq<Text>) -> bool {
    forall|i: int, j: int| 0 <= i < j < s.len() ==> precedes(#[trigger] s[i], #[trigger] s[j])
}

/// `s` lists the texts of `of` in dictionary order, each once.
pub open spec fn is_listing(s: Seq<Text>, of: Set<Text>) -> bool {
    increasing(s) && s.to_set() == of
}

/// The texts that `ids` names.
pub open spec fn names(ids: Seq<&str>) -> Set<Text> {
    ids.map_values(|s: &str| s@).to_set()
}

/// Naming one more text adds it to the texts named.
pub proof fn lemma_names_step(ids: Seq<&str>, i: int)
    requires
        0 <= i < ids.len(),
    ensures
        names(ids.take(i + 1)) == names(ids.take(i)).insert(ids[i]@),
{
    let f = |s: &str| s@;
    assert(ids.take(i + 1).map_values(f) =~= ids.take(i).map_values(f).push(ids[i]@));
    ids.take(i).map_values(f).lemma_push_to_set_commute(ids[i]@);
}

/// A strictly increasing sequence holds no text twice.
pub proof fn lemma_increasing_no_duplicates(s: Seq<Text>)
    requires
        increasing(s),
    ensures
        s.no_duplicates(),
        s.to_set().finite(),
        s.to_set().len() == s.len(),
{
    assert forall|i: int, j: int| 0 <= i < s.len() && 0 <= j < s.len() && i != j implies s[i]
        != s[j] by {
        if i < j {
            lemma_precedes_asymmetric(s[i], s[j]);
        } else {
            lemma_precedes_asymmetric(s[j], s[i]);
        }
    }
    s.unique_seq_to_set();
    vstd::seq_lib::seq_to_set_is_finite(s);
}

/// Placing `x` between the texts before it and the texts after it keeps a sequence
/// increasing, and adds exactly `x` to the texts it holds.
pub proof fn lemma_insert_increasing(s: Seq<Text>, pos: int, x: Text)
    requires
        increasing(s),
        0 <= pos <= s.len(),
        forall|i: int| 0 <= i < pos ==> precedes(#[trigger] s[i], x),
        forall|i: int| pos <= i < s.len() ==> precedes(x, #[trigger] s[i]),
    ensures
        increasing(s.insert(pos, x)),
        s.insert(pos, x).to_set() == s.to_set().insert(x),
{
    let t = s.insert(pos, x);
    assert forall|i: int, j: int| 0 <= i < j < t.len() implies precedes(
        #[trigger] t[i],
        #[trigger] t[j],
    ) by {
        let a = if i < pos { i } else { i - 1 };
        let b = if j < pos { j } else { j - 1 };
        if i == pos {
            assert(t[j] == s[b]);
        } else if j == pos {
            assert(t[i] == s[a]);
        } else {
            assert(t[i] == s[a]);
            assert(t[j] == s[b]);
        }
    }
    assert forall|y: Text| t.to_set().contains(y) <==> s.to_set().insert(x).contains(y) by {
        if t.to_set().contains(y) {
            let i = choose|i: int| 0 <= i < t.len() && t[i] == y;
            if i < pos {
                assert(s[i] == y);
            } else if i > pos {
                assert(s[i - 1] == y);
            }
        }
        if s.to_set().contains(y) {
            let i = choose|i: int| 0 <= i < s.len() && s[i] == y;
            if i < pos {
                assert(t[i] == y);
            } else {
                assert(t[i + 1] == y);
            }
        }
        if y == x {
            assert(t[pos] == y);
        }
    }
    assert(t.to_set() =~= s.to_set().insert(x));
}

/// Two increasing sequences that hold the same texts are the same sequence.
pub proof fn lemma_increasing_unique(a: Seq<Text>, b: Seq<Text>)
    requires
        increasing(a),
        increasing(b),
        a.to_set() == b.to_set(),
    ensures
        a == b,
    decreases a.len(),
{
    lemma_increasing_no_duplicates(a);
    lemma_increasing_no_duplicates(b);
    if a.len() > 0 {
        let n = a.len() - 1;
        // The last text of each sequence is the greatest text of the common set.
        assert(a.to_set().contains(a[n]));
        assert(b.to_set().contains(b[n]));
        let i = choose|i: int| 0 <= i < b.len() && b[i] == a[n];
        let j = choose|j: int| 0 <= j < a.len() && a[j] == b[n];
        if i < n {
            assert(precedes(b[i], b[n]));
            if j < n {
                assert(precedes(a[j], a[n]));
                lemma_precedes_asymmetric(a[j], a[n]);
            }
            assert(false);
        }
        assert(a[n] == b[n]);
        let a0 = a.drop_last();
        let b0 = b.drop_last();
        assert forall|y: Text| a0.to_set().contains(y) <==> b0.to_set().contains(y) by {
            if a0.to_set().contains(y) {
                let k = choose|k: int| 0 <= k < a0.len() && a0[k] == y;
                assert(a[k] == y);
                assert(a.to_set().contains(y));
                let m = choose|m: int| 0 <= m < b.len() && b[m] == y;
                assert(m != n);
                assert(b0[m] == y);
            }
            if b0.to_set().contains(y) {
                let k = choose|k: int| 0 <= k < b0.len() && b0[k] == y;
                assert(b[k] == y);
                assert(b.to_set().contains(y));
                let m = choose|m: int| 0 <= m < a.len() && a[m] == y;
                assert(m != n);
                assert(a0[m] == y);
            }
        }
        assert(a0.to_set() =~= b0.to_set());
        assert(increasing(a0)) by {
            assert forall|p: int, q: int| 0 <= p < q < a0.len() implies precedes(
                #[trigger] a0[p],
                #[trigger] a0[q],
            ) by {
                assert(precedes(a[p], a[q]));
            }
        }
        assert(increasing(b0)) by {
            assert forall|p: int, q: int| 0 <= p < q < b0.len() implies precedes(
                #[trigger] b0[p],
                #[trigger] b0[q],
            ) by {
                assert(precedes(b[p], b[q]));
            }
        }
        lemma_increasing_unique(a0, b0);
        assert(a =~= a0.push(a[n]));
        assert(b =~= b0.push(b[n]));
    } else {
        assert(a =~= b);
    }
}

/// Compares two texts in dictionary order.
pub fn compare_text(a: &str, b: &str) -> (r: Rank)
    ensures
        r == Rank::Before <==> precedes(a@, b@),
        r == Rank::Same <==> a@ == b@,
        r == Rank::After <==> precedes(b@, a@),
{
    broadcast use vstd::string::group_string_axioms;
    let mut left = a.chars();
    let mut right = b.chars();
    let ghost mut k: int = 0;
    let mut r = Rank::Same;
    let mut done = false;
    while !done
        invariant
            0 <= k <= a@.len(),
            k <= b@.len(),
            !done ==> left.remaining() == a@.skip(k),
            !done ==> right.remaining() == b@.skip(k),
            forall|i: int| 0 <= i < k ==> a@[i] == b@[i],
            done ==> (match r {
                Rank::Before => parts_at(a@, b@, k),
                Rank::Same => a@ == b@,
                Rank::After => parts_at(b@, a@, k),
            }),
        decreases a@.len() - k, if done { 0int } else { 1int },
    {
        let x = left.next();
        let y = right.next();
        match (x, y) {
            (None, None) => {
                assert(a@ =~= b@);
                r = Rank::Same;
                done = true;
            },
            (None, Some(_)) => {
                r = Rank::Before;
                done = true;
            },
            (Some(_), None) => {
                r = Rank::After;
                done = true;
            },
            (Some(p), Some(q)) => {
                assert(p == a@[k]);
                assert(q == b@[k]);
                if (p as u32) < (q as u32) {
                    r = Rank::Before;
                    done = true;
                } else if (q as u32) < (p as u32) {
                    r = Rank::After;
                    done = true;
                } else {
                    assert(p == q) by {
                        vstd::utf8::char_u32_cast(p, p as u32);
                        vstd::utf8::char_u32_cast(q, q as u32);
                    }
                    assert(a@.skip(k).drop_first() =~= a@.skip(k + 1));
                    assert(b@.skip(k).drop_first() =~= b@.skip(k + 1));
                    proof {
                        k = k + 1;
                    }
                }
            },
        }
    }
    proof {
        match r {
            Rank::Before => {
                lemma_precedes_asymmetric(a@, b@);
            },
            Rank::Same => {
                if precedes(a@, b@) {
                    lemma_precedes_asymmetric(a@, b@);
                }
                if precedes(b@, a@) {
                    lemma_precedes_asymmetric(b@, a@);
                }
            },
            Rank::After => {
                lemma_precedes_asymmetric(b@, a@);
            },
        }
    }
    r
}

} // verus!
