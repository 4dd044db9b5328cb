//! Ordered sets of texts, kept as strictly increasing vectors.

use vstd::prelude::*;
use crate::lexical::{
    compare_text, increasing, lemma_increasing_no_duplicates, lemma_increasing_unique,
    lemma_insert_increasing, lemma_precedes_asymmetric, lemma_precedes_transitive, precedes, Rank,
    Text,
};

verus! {

/// A value that stands for a text and is ordered and told apart by it.
pub trait Textual: Sized {
    /// The text that the value stands for.
    spec fn text(&self) -> Text;

    /// The text of the value.
    fn as_text(&self) -> (s: &str)
        ensures
            s@ == self.text(),
    ;

    /// The value that stands for `s`.
    fn from_text(s: &str) -> (r: Self)
        ensures
            r.text() == s@,
    ;
}

/// A set of texts, held in dictionary order.
#[derive(Debug)]
pub struct OrdSet<T> {
    pub items: Vec<T>,
}

impl<T: Textual> View for OrdSet<T> {
    type V = Set<Text>;

    open spec fn view(&self) -> Set<Text> {
        self.texts().to_set()
    }
}

impl<T: Textual> OrdSet<T> {
    /// The texts of the items, in the order in which they are held.
    pub open spec fn texts(&self) -> Seq<Text> {
        self.items@.map_values(|x: T| x.text())
    }

    /// The items stand in strictly increasing dictionary order.
    pub open spec fn wf(&self) -> bool {
        increasing(self.texts())
    }

    /// A well-formed set is finite and holds as many texts as it has items.
    pub proof fn lemma_len(&self)
        requires
            self.wf(),
        ensures
            self@.finite(),
            self@.len() == self.items@.len(),
            self.texts().no_duplicates(),
    {
        lemma_increasing_no_duplicates(self.texts());
    }

    /// Two well-formed sets with the same texts list them in the same order.
    pub proof fn lemma_same_texts(&self, other: &Self)
        requires
            self.wf(),
            other.wf(),
            self@ == other@,
        ensures
            self.texts() == other.texts(),
    {
        lemma_increasing_unique(self.texts(), other.texts());
    }

    /// The empty set.
    pub fn new() -> (s: Self)
        ensures
            s.wf(),
            s@ == Set::<Text>::empty(),
            s.items@.len() == 0,
    {
        let s = OrdSet { items: Vec::new() };
        assert(s@ =~= Set::<Text>::empty());
        s
    }

    /// The number of texts in the set.
    pub fn len(&self) -> (n: usize)
        requires
            self.wf(),
        ensures
            n == self@.len(),
            n == self.items@.len(),
    {
        proof {
            self.lemma_len();
        }
        self.items.len()
    }

    /// Looks `key` up: `Ok` with its position where the set holds it, `Err` with the
    /// position at which it would have to be inserted where it does not.
    pub fn search(&self, key: &str) -> (r: Result<usize, usize>)
        requires
            self.wf(),
        ensures
            match r {
                Ok(pos) => pos < self.items@.len() && self.texts()[pos as int] == key@
                    && self@.contains(key@),
                Err(pos) => {
                    &&& pos <= self.items@.len()
                    &&& !self@.contains(key@)
                    &&& forall|i: int| 0 <= i < pos ==> precedes(#[trigger] self.texts()[i], key@)
                    &&& forall|i: int|
                        pos <= i < self.items@.len() ==> precedes(key@, #[trigger] self.texts()[i])
                },
            },
    {
        let mut lo: usize = 0;
        let mut hi: usize = self.items.len();
        while lo < hi
            invariant
                self.wf(),
                0 <= lo <= hi <= self.items@.len(),
                forall|i: int| 0 <= i < lo ==> precedes(#[trigger] self.texts()[i], key@),
                forall|i: int|
                    hi <= i < self.items@.len() ==> precedes(key@, #[trigger] self.texts()[i]),
            decreases hi - lo,
        {
            let mid: usize = lo + (hi - lo) / 2;
            let rank = compare_text(self.items[mid].as_text(), key);
            assert(self.texts()[mid as int] == self.items@[mid as int].text());
            match rank {
                Rank::Same => {
                    assert(self@.contains(key@));
                    return Ok(mid);
                },
                Rank::Before => {
                    assert forall|i: int| 0 <= i < mid + 1 implies precedes(
                        #[trigger] self.texts()[i],
                        key@,
                    ) by {
                        if i < mid {
                            assert(precedes(self.texts()[i], self.texts()[mid as int]));
                            lemma_precedes_transitive(
                                self.texts()[i],
                                self.texts()[mid as int],
                                key@,
                            );
                        }
                    }
                    lo = mid + 1;
                },
                Rank::After => {
                    assert forall|i: int| mid <= i < self.items@.len() implies precedes(
                        key@,
                        #[trigger] self.texts()[i],
                    ) by {
                        if mid < i {
                            assert(precedes(self.texts()[mid as int], self.texts()[i]));
                            lemma_precedes_transitive(
                                key@,
                                self.texts()[mid as int],
                                self.texts()[i],
                            );
                        }
                    }
                    hi = mid;
                },
            }
        }
        proof {
            if self@.contains(key@) {
                let i = choose|i: int| 0 <= i < self.texts().len() && self.texts()[i] == key@;
                if i < lo {
                    lemma_precedes_asymmetric(self.texts()[i], key@);
                } else {
                    lemma_precedes_asymmetric(key@, self.texts()[i]);
                }
            }
        }
        Err(lo)
    }

    /// Whether the set holds `key`.
    pub fn contains(&self, key: &str) -> (r: bool)
        requires
            self.wf(),
        ensures
            r == self@.contains(key@),
    {
        self.search(key).is_ok()
    }

    /// Adds `item` to the set; tells whether the set did not hold its text before.
    pub fn insert(&mut self, item: T) -> (added: bool)
        requires
            old(self).wf(),
        ensures
            final(self).wf(),
            final(self)@ == old(self)@.insert(item.text()),
            added == !old(self)@.contains(item.text()),
            !added ==> final(self).texts() == old(self).texts(),
    {
        match self.search(item.as_text()) {
            Ok(_) => {
                assert(self@.insert(item.text()) =~= self@);
                false
            },
            Err(pos) => {
                self.insert_at(pos, item);
                true
            },
        }
    }

    /// Adds `item` at `pos`, the place that [`OrdSet::search`] gave for its text.
    pub fn insert_at(&mut self, pos: usize, item: T)
        requires
            old(self).wf(),
            pos <= old(self).items@.len(),
            forall|i: int| 0 <= i < pos ==> precedes(#[trigger] old(self).texts()[i], item.text()),
            forall|i: int|
                pos <= i < old(self).items@.len() ==> precedes(
                    item.text(),
                    #[trigger] old(self).texts()[i],
                ),
        ensures
            final(self).wf(),
            final(self)@ == old(self)@.insert(item.text()),
            final(self).texts() == old(self).texts().insert(pos as int, item.text()),
            final(self).items@ == old(self).items@.insert(pos as int, item),
    {
        let ghost before = self.texts();
        self.items.insert(pos, item);
        proof {
            assert(self.texts() =~= before.insert(pos as int, item.text()));
            lemma_insert_increasing(before, pos as int, item.text());
        }
    }

    /// Whether the two sets hold the same texts.
    pub fn same_as(&self, other: &Self) -> (r: bool)
        requires
            self.wf(),
            other.wf(),
        ensures
            r == (self@ == other@),
    {
        proof {
            self.lemma_len();
            other.lemma_len();
        }
        if self.items.len() != other.items.len() {
            return false;
        }
        let n = self.items.len();
        let mut i: usize = 0;
        while i < n
            invariant
                self.wf(),
                other.wf(),
                n == self.items@.len(),
                n == other.items@.len(),
                0 <= i <= n,
                forall|k: int| 0 <= k < i ==> self.texts()[k] == other.texts()[k],
            decreases n - i,
        {
            let rank = compare_text(self.items[i].as_text(), other.items[i].as_text());
            if rank != Rank::Same {
                proof {
                    if self@ == other@ {
                        self.lemma_same_texts(other);
                        assert(self.texts()[i as int] == other.texts()[i as int]);
                    }
                }
                return false;
            }
            i = i + 1;
        }
        assert(self.texts() =~= other.texts());
        true
    }

    /// Whether the two sets have a text in common.
    pub fn intersects(&self, other: &Self) -> (r: bool)
        requires
            self.wf(),
            other.wf(),
        ensures
            r == !self@.disjoint(other@),
    {
        let n = self.items.len();
        let mut i: usize = 0;
        while i < n
            invariant
                self.wf(),
                other.wf(),
                n == self.items@.len(),
                0 <= i <= n,
                forall|k: int| 0 <= k < i ==> !other@.contains(#[trigger] self.texts()[k]),
            decreases n - i,
        {
            if other.contains(self.items[i].as_text()) {
                assert(self@.contains(self.texts()[i as int]));
                return true;
            }
            i = i + 1;
        }
        assert forall|t: Text| self@.contains(t) implies !other@.contains(t) by {
            let k = choose|k: int| 0 <= k < self.texts().len() && self.texts()[k] == t;
            assert(!other@.contains(self.texts()[k]));
        }
        false
    }

    /// Adds every text of `other` to the set.
    pub fn absorb(&mut self, other: &Self)
        requires
            old(self).wf(),
            other.wf(),
        ensures
            final(self).wf(),
            final(self)@ == old(self)@.union(other@),
    {
        let n = other.items.len();
        let mut i: usize = 0;
        while i < n
            invariant
                self.wf(),
                other.wf(),
                n == other.items@.len(),
                0 <= i <= n,
                forall|t: Text|
                    self@.contains(t) <==> old(self)@.contains(t) || exists|k: int|
                        0 <= k < i && other.texts()[k] == t,
            decreases n - i,
        {
            let ghost before = self@;
            let item = T::from_text(other.items[i].as_text());
            assert(item.text() == other.texts()[i as int]);
            self.insert(item);
            i = i + 1;
            assert forall|t: Text|
                self@.contains(t) <==> old(self)@.contains(t) || exists|k: int|
                    0 <= k < i && other.texts()[k] == t by {
                if before.contains(t) && !old(self)@.contains(t) {
                    let k = choose|k: int| 0 <= k < i - 1 && other.texts()[k] == t;
                    assert(0 <= k < i && other.texts()[k] == t);
                }
            }
        }
        assert forall|t: Text| self@.contains(t) <==> old(self)@.union(other@).contains(t) by {
            if other@.contains(t) {
                let k = choose|k: int| 0 <= k < other.texts().len() && other.texts()[k] == t;
                assert(0 <= k < i && other.texts()[k] == t);
            }
        }
        assert(self@ =~= old(self)@.union(other@));
    }

    /// The set of the texts of `items`, whatever their order and however often each occurs.
    pub fn from_items(items: Vec<T>) -> (s: Self)
        ensures
            s.wf(),
            s@ == items@.map_values(|x: T| x.text()).to_set(),
    {
        let ghost all = items@.map_values(|x: T| x.text());
        let mut s = OrdSet::new();
        let n = items.len();
        let mut i: usize = 0;
        while i < n
            invariant
                s.wf(),
                n == items@.len(),
                0 <= i <= n,
                all == items@.map_values(|x: T| x.text()),
                s@ == all.take(i as int).to_set(),
            decreases n - i,
        {
            let item = T::from_text(items[i].as_text());
            s.insert(item);
            proof {
                assert(all.take(i as int + 1) =~= all.take(i as int).push(all[i as int]));
                all.take(i as int).lemma_push_to_set_commute(all[i as int]);
            }
            i = i + 1;
        }
        assert(all.take(n as int) =~= all);
        s
    }
}

impl<T: Textual> Clone for OrdSet<T> {
    fn clone(&self) -> (r: Self)
        ensures
            r.texts() == self.texts(),
            r@ == self@,
            self.wf() ==> r.wf(),
    {
        let mut items: Vec<T> = Vec::new();
        let n = self.items.len();
        let mut i: usize = 0;
        while i < n
            invariant
                n == self.items@.len(),
                0 <= i <= n,
                items@.len() == i,
                forall|k: int| 0 <= k < i ==> (#[trigger] items@[k]).text() == self.items@[k].text(),
            decreases n - i,
        {
            items.push(T::from_text(self.items[i].as_text()));
            i = i + 1;
        }
        let r = OrdSet { items };
        assert(r.texts() =~= self.texts());
        r
    }
}

} // verus!
