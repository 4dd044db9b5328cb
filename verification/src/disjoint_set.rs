//! A disjoint-set forest over named elements, for grouping states into classes.

use vstd::prelude::*;
use vstd::set_lib::lemma_len_subset;
use crate::lexical::{compare_text, Rank, Text};

verus! {

#[verifier::external_type_specification]
#[verifier::external_body]
#[verifier::reject_recursive_types(L)]
#[verifier::reject_recursive_types(R)]
pub struct ExBiBTreeMap<L, R>(bimap::BiBTreeMap<L, R>);

/// The pairs that a bimap holds: for each text on the left, the number on its right.
pub uninterp spec fn pairing(m: bimap::BiBTreeMap<String, usize>) -> Map<Text, usize>;

/// The pairs after `left` and `right` were paired: what was paired with either of them
/// is dropped, and the new pair is there.
pub open spec fn after_insert(p: Map<Text, usize>, left: Text, right: usize) -> Map<Text, usize> {
    Map::new(
        |k: Text| k == left || (p.dom().contains(k) && p[k] != right),
        |k: Text|
            if k == left {
                right
            } else {
                p[k]
            },
    )
}

/// The pairs `p` are finitely many, and `n` is their number.
pub open spec fn counts(p: Map<Text, usize>, n: usize) -> bool {
    p.dom().finite() && p.dom().len() == n
}

/// `BiBTreeMap::new`: the bimap made holds no pair.
#[verifier::external_body]
fn bimap_new() -> (m: bimap::BiBTreeMap<String, usize>)
    ensures
        pairing(m).dom() == Set::<Text>::empty(),
{
    bimap::BiBTreeMap::new()
}

/// `BiBTreeMap::len`: the number of pairs, of which there are finitely many.
#[verifier::external_body]
fn bimap_len(m: &bimap::BiBTreeMap<String, usize>) -> (n: usize)
    ensures
        counts(pairing(*m), n),
{
    m.len()
}

/// `BiBTreeMap::insert`: the pair of `left` and the pair of `right`, where there are
/// such, are removed, and then `left` and `right` are paired. What it overwrote is
/// dropped.
#[verifier::external_body]
fn bimap_insert(m: &mut bimap::BiBTreeMap<String, usize>, left: String, right: usize)
    ensures
        pairing(*final(m)) == after_insert(pairing(*old(m)), left@, right),
{
    m.insert(left, right);
}

/// `BiBTreeMap::get_by_left`: the number paired with `left`, where `left` is paired.
#[verifier::external_body]
fn bimap_get_by_left(m: &bimap::BiBTreeMap<String, usize>, left: &str) -> (r: Option<usize>)
    ensures
        r == (if pairing(*m).dom().contains(left@) {
            Some(pairing(*m)[left@])
        } else {
            None
        }),
{
    m.get_by_left(left).copied()
}

/// `BiBTreeMap::get_by_right`: a text paired with `right`, where there is one.
#[verifier::external_body]
fn bimap_get_by_right(m: &bimap::BiBTreeMap<String, usize>, right: usize) -> (r: Option<&String>)
    ensures
        match r {
            Some(left) => pairing(*m).dom().contains(left@) && pairing(*m)[left@] == right,
            None => forall|k: Text| pairing(*m).dom().contains(k) ==> pairing(*m)[k] != right,
        },
{
    m.get_by_right(&right)
}

/// A disjoint-set forest, without balancing or path compression. Every element has a
/// number, and every number a father; an element that is its own father stands for its
/// class.
pub struct DisjointSet {
    /// The number of each element.
    elements: bimap::BiBTreeMap<String, usize>,
    /// The father of each number.
    fathers: Vec<usize>,
    /// For each number, a bound on the steps from it to the number that stands for its
    /// class.
    heights: Ghost<Seq<nat>>,
}

/// The pairs and the fathers after the elements `names` were added, one after the
/// other, each with the father `class_id`.
pub open spec fn add_all(
    ids: Map<Text, usize>,
    fathers: Seq<usize>,
    names: Seq<Text>,
    class_id: usize,
) -> (Map<Text, usize>, Seq<usize>)
    decreases names.len(),
{
    if names.len() == 0 {
        (ids, fathers)
    } else {
        add_all(
            after_insert(ids, names[0], ids.dom().len() as usize),
            fathers.push(class_id),
            names.drop_first(),
            class_id,
        )
    }
}

/// The texts that `names` holds.
pub open spec fn texts(names: Seq<&str>) -> Seq<Text> {
    names.map_values(|s: &str| s@)
}

/// Pairing `left` with the number of pairs keeps the pairs finitely many and one to
/// one, and the numbers below `n + 1` where they were below `n`.
proof fn lemma_after_insert(p: Map<Text, usize>, left: Text, id: usize, n: nat)
    requires
        p.dom().finite(),
        p.dom().len() <= n,
        id == p.dom().len(),
        forall|k: Text| p.dom().contains(k) ==> #[trigger] p[k] < n,
        forall|j: Text, k: Text|
            p.dom().contains(j) && p.dom().contains(k) && #[trigger] p[j] == #[trigger] p[k] ==> j
                == k,
    ensures
        ({
            let q = after_insert(p, left, id);
            &&& q.dom().finite()
            &&& q.dom().len() <= n + 1
            &&& forall|k: Text| q.dom().contains(k) ==> #[trigger] q[k] < n + 1
            &&& forall|j: Text, k: Text|
                q.dom().contains(j) && q.dom().contains(k) && #[trigger] q[j] == #[trigger] q[k]
                    ==> j == k
        }),
{
    let q = after_insert(p, left, id);
    assert(q.dom().subset_of(p.dom().insert(left)));
    lemma_len_subset(q.dom(), p.dom().insert(left));
}

impl DisjointSet {
    /// The number of each element.
    pub closed spec fn ids(&self) -> Map<Text, usize> {
        pairing(self.elements)
    }

    /// The father of each number.
    pub closed spec fn parents(&self) -> Seq<usize> {
        self.fathers@
    }

    /// For each number, a bound on the steps from it to the head of its class.
    pub closed spec fn heights(&self) -> Seq<nat> {
        self.heights@
    }

    /// The elements are numbered one to one with numbers that have a father, every
    /// father is a number, and following the fathers from a number leads to a number
    /// that is its own father.
    pub open spec fn wf(&self) -> bool {
        &&& self.ids().dom().finite()
        &&& self.ids().dom().len() <= self.parents().len()
        &&& forall|k: Text| self.ids().dom().contains(k) ==> #[trigger] self.ids()[k]
            < self.parents().len()
        &&& forall|j: Text, k: Text|
            self.ids().dom().contains(j) && self.ids().dom().contains(k)
                && #[trigger] self.ids()[j] == #[trigger] self.ids()[k] ==> j == k
        &&& self.heights().len() == self.parents().len()
        &&& forall|i: int|
            0 <= i < self.parents().len() ==> (#[trigger] self.parents()[i]) < self.parents().len()
        &&& forall|i: int|
            0 <= i < self.parents().len() && self.parents()[i] != i ==> self.heights()[self.parents()[i] as int]
                < #[trigger] self.heights()[i]
    }

    /// The number that stands for the class of the number `id`: the one that following
    /// the fathers from `id` leads to.
    pub open spec fn root(&self, id: int) -> int
        decreases self.heights()[id],
        when self.wf() && 0 <= id < self.parents().len()
    {
        if self.parents()[id] == id {
            id
        } else {
            self.root(self.parents()[id] as int)
        }
    }

    /// The number that stands for a class is a number, and is its own father.
    pub proof fn lemma_root(&self, id: int)
        requires
            self.wf(),
            0 <= id < self.parents().len(),
        ensures
            0 <= self.root(id) < self.parents().len(),
            self.parents()[self.root(id)] == self.root(id),
            self.root(self.root(id)) == self.root(id),
        decreases self.heights()[id],
    {
        if self.parents()[id] != id {
            self.lemma_root(self.parents()[id] as int);
        }
    }

    /// A forest without elements.
    pub fn new() -> (s: Self)
        ensures
            s.wf(),
            s.ids() == Map::<Text, usize>::empty(),
            s.parents() == Seq::<usize>::empty(),
    {
        let s = DisjointSet {
            elements: bimap_new(),
            fathers: Vec::new(),
            heights: Ghost(Seq::empty()),
        };
        assert(s.ids() =~= Map::<Text, usize>::empty());
        s
    }

    /// Numbers `element` with the number of elements and gives the number the father
    /// `father`.
    fn enter(&mut self, element: &str, father: usize) -> (id: usize)
        requires
            old(self).wf(),
            father <= old(self).parents().len(),
        ensures
            final(self).wf(),
            id == old(self).ids().dom().len(),
            final(self).ids() == after_insert(old(self).ids(), element@, id),
            final(self).parents() == old(self).parents().push(father),
    {
        let id = bimap_len(&self.elements);
        proof {
            lemma_after_insert(self.ids(), element@, id, self.parents().len());
        }
        bimap_insert(&mut self.elements, element.to_owned(), id);
        let ghost n = self.fathers@.len() as int;
        let ghost h: nat = if father < n {
            self.heights@[father as int] + 1
        } else {
            0
        };
        self.fathers.push(father);
        self.heights = Ghost(self.heights@.push(h));
        id
    }

    /// Adds `element` as a class of its own. Its number is the number of elements
    /// before, and whatever had that number, or was `element`, is forgotten.
    pub fn add_element(&mut self, element: &str)
        requires
            old(self).wf(),
        ensures
            final(self).wf(),
            final(self).ids() == after_insert(
                old(self).ids(),
                element@,
                old(self).ids().dom().len() as usize,
            ),
            final(self).parents() == old(self).parents().push(
                old(self).ids().dom().len() as usize,
            ),
    {
        let id = bimap_len(&self.elements);
        self.enter(element, id);
    }

    /// Adds `element` to the class of `class_element`.
    pub fn add_element_to(&mut self, element: &str, class_element: &str)
        requires
            old(self).wf(),
            after_insert(
                old(self).ids(),
                element@,
                old(self).ids().dom().len() as usize,
            ).dom().contains(class_element@),
        ensures
            final(self).wf(),
            final(self).ids() == after_insert(
                old(self).ids(),
                element@,
                old(self).ids().dom().len() as usize,
            ),
            final(self).parents() == old(self).parents().push(final(self).ids()[class_element@]),
    {
        let id = bimap_len(&self.elements);
        proof {
            lemma_after_insert(self.ids(), element@, id, self.parents().len());
        }
        bimap_insert(&mut self.elements, element.to_owned(), id);
        let father = match bimap_get_by_left(&self.elements, class_element) {
            Some(f) => f,
            None => {
                proof {
                    assert(false);
                }
                id
            },
        };
        let ghost n = self.fathers@.len() as int;
        let ghost h: nat = if father < n {
            self.heights@[father as int] + 1
        } else {
            0
        };
        self.fathers.push(father);
        self.heights = Ghost(self.heights@.push(h));
    }

    /// Adds `element` to the class of `class_element` where, once `element` has its
    /// number, `class_element` has one: where it is `element` itself, or an element whose
    /// number `element` does not take. Tells whether it did; where it did not, nothing
    /// changes.
    pub fn try_add_element_to(&mut self, element: &str, class_element: &str) -> (added: bool)
        requires
            old(self).wf(),
        ensures
            final(self).wf(),
            added == after_insert(
                old(self).ids(),
                element@,
                old(self).ids().dom().len() as usize,
            ).dom().contains(class_element@),
            added ==> final(self).ids() == after_insert(
                old(self).ids(),
                element@,
                old(self).ids().dom().len() as usize,
            ) && final(self).parents() == old(self).parents().push(
                final(self).ids()[class_element@],
            ),
            !added ==> final(self).ids() == old(self).ids() && final(self).parents() == old(
                self,
            ).parents(),
    {
        let id = bimap_len(&self.elements);
        let stays = match compare_text(class_element, element) {
            Rank::Same => true,
            _ => match bimap_get_by_left(&self.elements, class_element) {
                Some(number) => number != id,
                None => false,
            },
        };
        if stays {
            self.add_element_to(element, class_element);
        }
        stays
    }

    /// Adds the elements of `elements` as one new class, the first of them standing
    /// for it.
    pub fn add_elements(&mut self, elements: &[&str])
        requires
            old(self).wf(),
        ensures
            final(self).wf(),
            (final(self).ids(), final(self).parents()) == add_all(
                old(self).ids(),
                old(self).parents(),
                texts(elements@),
                old(self).ids().dom().len() as usize,
            ),
    {
        if elements.len() > 0 {
            let ghost all = texts(elements@);
            let class_id = bimap_len(&self.elements);
            let mut i: usize = 0;
            assert(all.skip(0) =~= all);
            while i < elements.len()
                invariant
                    self.wf(),
                    all == texts(elements@),
                    0 <= i <= elements@.len(),
                    class_id <= self.parents().len(),
                    add_all(self.ids(), self.parents(), all.skip(i as int), class_id) == add_all(
                        old(self).ids(),
                        old(self).parents(),
                        all,
                        class_id,
                    ),
                decreases elements@.len() - i,
            {
                let ghost rest = all.skip(i as int);
                assert(rest[0] == elements@[i as int]@);
                assert(rest.drop_first() =~= all.skip(i as int + 1));
                self.enter(elements[i], class_id);
                i = i + 1;
            }
            assert(all.skip(elements@.len() as int) =~= Seq::<Text>::empty());
        } else {
            assert(texts(elements@) =~= Seq::<Text>::empty());
        }
    }

    /// The element with the number `id`.
    pub fn get_element(&self, id: usize) -> (r: Option<&String>)
        requires
            self.wf(),
        ensures
            match r {
                Some(e) => self.ids().dom().contains(e@) && self.ids()[e@] == id,
                None => forall|k: Text| self.ids().dom().contains(k) ==> self.ids()[k] != id,
            },
    {
        bimap_get_by_right(&self.elements, id)
    }

    /// The number of `element`.
    pub fn get_id(&self, element: &str) -> (r: Option<usize>)
        requires
            self.wf(),
        ensures
            r == (if self.ids().dom().contains(element@) {
                Some(self.ids()[element@])
            } else {
                None
            }),
    {
        bimap_get_by_left(&self.elements, element)
    }

    /// The number that stands for the class of the number `id`, where `id` is a number.
    pub fn get_father_by_id(&self, id: usize) -> (r: Option<usize>)
        requires
            self.wf(),
        ensures
            r == (if id < self.parents().len() {
                Some(self.root(id as int) as usize)
            } else {
                None
            }),
        decreases
                (if id < self.parents().len() {
                    self.heights()[id as int] + 1
                } else {
                    0
                }),
    {
        if id < self.fathers.len() {
            let straight_father = self.fathers[id];
            proof {
                self.lemma_root(id as int);
            }
            if id == straight_father {
                Some(id)
            } else {
                self.get_father_by_id(straight_father)
            }
        } else {
            None
        }
    }

    /// The element that stands for the class of `element`, where `element` is an
    /// element and the head of its class still has its number.
    pub fn get_father(&self, element: &str) -> (r: Option<&String>)
        requires
            self.wf(),
        ensures
            match r {
                Some(e) => {
                    &&& self.ids().dom().contains(element@)
                    &&& self.ids().dom().contains(e@)
                    &&& self.ids()[e@] == self.root(self.ids()[element@] as int)
                },
                None => !self.ids().dom().contains(element@) || forall|k: Text|
                    self.ids().dom().contains(k) ==> self.ids()[k] != self.root(
                        self.ids()[element@] as int,
                    ),
            },
    {
        match self.get_id(element) {
            Some(id) => match self.get_father_by_id(id) {
                Some(father) => {
                    proof {
                        self.lemma_root(id as int);
                    }
                    self.get_element(father)
                },
                None => None,
            },
            None => None,
        }
    }

    /// After the head `f1` of a class got the father `f2`, the head of another class,
    /// the numbers of the first class have the head of the second.
    proof fn lemma_joined(&self, after: &Self, f1: int, f2: int, i: int)
        requires
            self.wf(),
            after.wf(),
            0 <= f1 < self.parents().len(),
            0 <= f2 < self.parents().len(),
            f1 != f2,
            self.parents()[f1] == f1,
            self.parents()[f2] == f2,
            after.parents() == self.parents().update(f1, f2 as usize),
            0 <= i < self.parents().len(),
        ensures
            after.root(i) == if self.root(i) == f1 {
                f2
            } else {
                self.root(i)
            },
        decreases self.heights()[i],
    {
        if i == f1 {
            assert(after.parents()[f1] == f2);
            assert(after.parents()[f2] == f2);
            assert(after.root(f2) == f2);
            assert(after.root(f1) == after.root(f2));
        } else if self.parents()[i] != i {
            self.lemma_joined(after, f1, f2, self.parents()[i] as int);
        }
    }

    /// Joins the classes of the numbers `id1` and `id2`: where both are numbers and
    /// their classes differ, the head of the first class gets the head of the second
    /// as its father.
    pub fn join_by_id(&mut self, id1: usize, id2: usize)
        requires
            old(self).wf(),
        ensures
            final(self).wf(),
            final(self).ids() == old(self).ids(),
            final(self).parents() == if id1 < old(self).parents().len() && id2 < old(
                self,
            ).parents().len() && old(self).root(id1 as int) != old(self).root(id2 as int) {
                old(self).parents().update(
                    old(self).root(id1 as int),
                    old(self).root(id2 as int) as usize,
                )
            } else {
                old(self).parents()
            },
            forall|i: int|
                0 <= i < old(self).parents().len() && id1 < old(self).parents().len() && id2 < old(
                    self,
                ).parents().len() ==> #[trigger] final(self).root(i) == if old(self).root(i) == old(
                    self,
                ).root(id1 as int) {
                    old(self).root(id2 as int)
                } else {
                    old(self).root(i)
                },
    {
        let first = self.get_father_by_id(id1);
        let second = self.get_father_by_id(id2);
        if let (Some(f1), Some(f2)) = (first, second) {
            proof {
                self.lemma_root(id1 as int);
                self.lemma_root(id2 as int);
            }
            if f1 != f2 {
                let ghost before = *self;
                let ghost lift = self.heights@[f2 as int] + 1;
                self.fathers.set(f1, f2);
                self.heights = Ghost(
                    Seq::new(
                        before.heights@.len(),
                        |i: int|
                            if i == f2 {
                                before.heights@[i]
                            } else {
                                before.heights@[i] + lift
                            },
                    ),
                );
                proof {
                    assert(self.wf());
                    assert forall|i: int| 0 <= i < before.parents().len() implies #[trigger] self.root(
                        i,
                    ) == if before.root(i) == f1 {
                        f2 as int
                    } else {
                        before.root(i)
                    } by {
                        before.lemma_joined(self, f1 as int, f2 as int, i);
                    }
                }
            }
        }
    }

    /// Joins the classes of `element1` and `element2`, where both are elements.
    pub fn join(&mut self, element1: &str, element2: &str)
        requires
            old(self).wf(),
        ensures
            final(self).wf(),
            final(self).ids() == old(self).ids(),
            final(self).parents() == if old(self).ids().dom().contains(element1@) && old(
                self,
            ).ids().dom().contains(element2@) && old(self).root(old(self).ids()[element1@] as int)
                != old(self).root(old(self).ids()[element2@] as int) {
                old(self).parents().update(
                    old(self).root(old(self).ids()[element1@] as int),
                    old(self).root(old(self).ids()[element2@] as int) as usize,
                )
            } else {
                old(self).parents()
            },
            old(self).ids().dom().contains(element1@) && old(self).ids().dom().contains(element2@)
                ==> final(self).root(old(self).ids()[element1@] as int) == final(self).root(
                old(self).ids()[element2@] as int,
            ),
    {
        let first = self.get_id(element1);
        let second = self.get_id(element2);
        if let (Some(id1), Some(id2)) = (first, second) {
            proof {
                self.lemma_root(id1 as int);
                self.lemma_root(id2 as int);
            }
            self.join_by_id(id1, id2);
        }
    }
}

} // verus!
