//! Maps keyed by state, kept in the dictionary order of the state identifiers.

use vstd::prelude::*;
use crate::lexical::Text;
use crate::ordered::OrdSet;
use crate::state::State;

verus! {

/// A map from states to values: the keys in dictionary order, and beside each key,
/// at the same position, its value.
#[derive(Debug)]
pub struct StateMap<V> {
    pub keys: OrdSet<State>,
    pub vals: Vec<V>,
}

impl<V> StateMap<V> {
    /// The keys are in order and every key has its value.
    pub open spec fn wf(&self) -> bool {
        &&& self.keys.wf()
        &&& self.vals@.len() == self.keys.items@.len()
    }

    /// The identifiers of the states that the map has a value for.
    pub open spec fn dom(&self) -> Set<Text> {
        self.keys@
    }

    /// The position at which the key `key` is held.
    pub open spec fn position(&self, key: Text) -> int {
        choose|i: int| 0 <= i < self.keys.texts().len() && self.keys.texts()[i] == key
    }

    /// The value of the key `key`.
    pub open spec fn value(&self, key: Text) -> V {
        self.vals@[self.position(key)]
    }

    /// The key held at position `i` has the value held at position `i`.
    pub proof fn lemma_at(&self, i: int)
        requires
            self.wf(),
            0 <= i < self.vals@.len(),
        ensures
            self.dom().contains(self.keys.texts()[i]),
            self.position(self.keys.texts()[i]) == i,
            self.value(self.keys.texts()[i]) == self.vals@[i],
    {
        self.keys.lemma_len();
        assert(self.keys.texts()[i] == self.keys.texts()[i]);
    }

    /// A key of the map is held at its position.
    pub proof fn lemma_position(&self, key: Text)
        requires
            self.wf(),
            self.dom().contains(key),
        ensures
            0 <= self.position(key) < self.vals@.len(),
            self.keys.texts()[self.position(key)] == key,
    {
    }

    /// The empty map.
    pub fn new() -> (m: Self)
        ensures
            m.wf(),
            m.dom() == Set::<Text>::empty(),
            m.vals@.len() == 0,
    {
        StateMap { keys: OrdSet::new(), vals: Vec::new() }
    }

    /// The number of keys.
    pub fn len(&self) -> (n: usize)
        requires
            self.wf(),
        ensures
            n == self.dom().len(),
            n == self.vals@.len(),
    {
        self.keys.len()
    }

    /// The position of the key `key`, where the map has it.
    pub fn find(&self, key: &str) -> (r: Option<usize>)
        requires
            self.wf(),
        ensures
            match r {
                Some(i) => self.dom().contains(key@) && i == self.position(key@) && i
                    < self.vals@.len() && self.keys.texts()[i as int] == key@,
                None => !self.dom().contains(key@),
            },
    {
        match self.keys.search(key) {
            Ok(i) => {
                proof {
                    self.lemma_at(i as int);
                }
                Some(i)
            },
            Err(_) => None,
        }
    }

    /// The value of the key `key`, where the map has it.
    pub fn get(&self, key: &str) -> (r: Option<&V>)
        requires
            self.wf(),
        ensures
            match r {
                Some(v) => self.dom().contains(key@) && *v == self.value(key@),
                None => !self.dom().contains(key@),
            },
    {
        match self.find(key) {
            Some(i) => Some(&self.vals[i]),
            None => None,
        }
    }

    /// Makes `key` a key of the map, with the value `fresh` where the map did not have
    /// it yet, and gives its position. The value of a key that the map had stays.
    pub fn ensure_key(&mut self, key: State, fresh: V) -> (at: usize)
        requires
            old(self).wf(),
        ensures
            final(self).wf(),
            final(self).dom() == old(self).dom().insert(key@),
            at < final(self).vals@.len(),
            at == final(self).position(key@),
            final(self).keys.texts()[at as int] == key@,
            forall|k: Text| #[trigger]
                old(self).dom().contains(k) ==> final(self).value(k) == old(self).value(k),
            old(self).dom().contains(key@) ==> final(self).keys.texts() == old(self).keys.texts()
                && final(self).vals@ == old(self).vals@,
            !old(self).dom().contains(key@) ==> final(self).value(key@) == fresh
                && final(self).keys.texts() == old(self).keys.texts().insert(at as int, key@)
                && final(self).vals@ == old(self).vals@.insert(at as int, fresh),
    {
        match self.keys.search(key.state_id.as_str()) {
            Ok(i) => {
                proof {
                    self.lemma_at(i as int);
                    assert(self.dom().insert(key@) =~= self.dom());
                }
                i
            },
            Err(i) => {
                let ghost before = *self;
                self.keys.insert_at(i, key);
                self.vals.insert(i, fresh);
                proof {
                    self.lemma_at(i as int);
                    assert forall|k: Text| #[trigger]
                        before.dom().contains(k) implies self.value(k) == before.value(k) by {
                        let p = before.position(k);
                        before.lemma_position(k);
                        let q = if p < i { p } else { p + 1 };
                        assert(self.keys.texts()[q] == k);
                        self.lemma_at(q);
                    }
                }
                i
            },
        }
    }
}

} // verus!
