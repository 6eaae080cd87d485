//! A set that keeps, for every key, the cheapest element seen.

use std::collections::HashMap;
use vstd::prelude::*;
use crate::text::{digest, holds};

verus! {

broadcast use vstd::std_specs::hash::group_hash_axioms;

/// What the matcher keeps of a traversal: where it stands, what it has
/// cost, and the byte offsets it has matched.
pub ghost struct Entry {
    pub key: Seq<char>,
    pub score: nat,
    pub positions: Seq<usize>,
}

/// An element that is found by its key and ranked by its score.
pub trait Ranked: Sized {
    /// The key, score and positions of the element.
    spec fn entry(&self) -> Entry;

    /// Whether both elements have the same key.
    fn same_key(&self, other: &Self) -> (same: bool)
        ensures
            same == (self.entry().key == other.entry().key),
    ;

    /// Whether `self` has the strictly higher score.
    fn costs_more(&self, other: &Self) -> (more: bool)
        ensures
            more == (self.entry().score > other.entry().score),
    ;

    /// The digest of the key.
    fn key_digest(&self) -> (h: u64)
        ensures
            h == digest(self.entry().key),
    ;
}

/// The entries of a sequence of elements.
pub open spec fn entries<T: Ranked>(items: Seq<T>) -> Seq<Entry> {
    Seq::new(items.len(), |i: int| items[i].entry())
}

/// No key occurs twice.
pub open spec fn distinct_keys(items: Seq<Entry>) -> bool {
    forall|i: int, j: int| 0 <= i < j < items.len() ==> items[i].key != items[j].key
}

/// The `i`-th entry has the key `key`.
pub open spec fn holds_key(items: Seq<Entry>, i: int, key: Seq<char>) -> bool {
    0 <= i < items.len() && items[i].key == key
}

/// `items` after `e` was offered: a new key is added at the end; a known key
/// keeps its place, and `e` takes it only with the strictly lower score.
pub open spec fn min_insert(items: Seq<Entry>, e: Entry) -> Seq<Entry> {
    if exists|i: int| holds_key(items, i, e.key) {
        let i = choose|i: int| holds_key(items, i, e.key);
        if items[i].score > e.score {
            items.update(i, e)
        } else {
            items
        }
    } else {
        items.push(e)
    }
}

/// `items` after every entry of `more` was offered in turn.
pub open spec fn min_fold(items: Seq<Entry>, more: Seq<Entry>) -> Seq<Entry>
    decreases more.len(),
{
    if more.len() == 0 {
        items
    } else {
        min_insert(min_fold(items, more.drop_last()), more.last())
    }
}

/// Offering an entry keeps the keys distinct.
pub proof fn lemma_min_insert_distinct(items: Seq<Entry>, e: Entry)
    requires
        distinct_keys(items),
    ensures
        distinct_keys(min_insert(items, e)),
{
    if exists|i: int| holds_key(items, i, e.key) {
        let i = choose|i: int| holds_key(items, i, e.key);
        assert(holds_key(items, i, e.key));
    } else {
        assert forall|i: int, j: int| 0 <= i < j < items.len() + 1 implies items.push(e)[i].key
            != items.push(e)[j].key by {
            if j == items.len() {
                assert(!holds_key(items, i, e.key));
            }
        }
    }
}

/// Offering any number of entries keeps the keys distinct.
pub proof fn lemma_min_fold_distinct(items: Seq<Entry>, more: Seq<Entry>)
    requires
        distinct_keys(items),
    ensures
        distinct_keys(min_fold(items, more)),
    decreases more.len(),
{
    if more.len() > 0 {
        lemma_min_fold_distinct(items, more.drop_last());
        lemma_min_insert_distinct(min_fold(items, more.drop_last()), more.last());
    }
}

/// A set of elements that holds at most one element per key: the one with
/// the lowest score that was inserted, the earlier one among equals.
pub struct MinSet<T: Ranked> {
    set: Vec<T>,
    /// For every digest of a key, the places of the elements whose key has
    /// it.
    slots: HashMap<u64, Vec<usize>>,
}

impl<T: Ranked> View for MinSet<T> {
    type V = Seq<Entry>;

    closed spec fn view(&self) -> Seq<Entry> {
        entries(self.set@)
    }
}

impl<T: Ranked> MinSet<T> {
    /// Every element is found under the digest of its key, and every place
    /// that is kept under a digest is the place of an element.
    #[verifier::opaque]
    spec fn indexed(&self) -> bool {
        &&& forall|i: int|
            0 <= i < self.set@.len() ==> self.slots@.contains_key(
                digest(#[trigger] self.set@[i].entry().key),
            ) && holds(self.slots@[digest(self.set@[i].entry().key)]@, i)
        &&& forall|h: u64, j: int|
            self.slots@.contains_key(h) && 0 <= j < self.slots@[h]@.len()
                ==> #[trigger] self.slots@[h]@[j] < self.set@.len()
    }

    /// No key occurs twice, and every element can be found by its key.
    pub closed spec fn wf(&self) -> bool {
        distinct_keys(self@) && self.indexed()
    }

    /// A well-formed set holds no key twice.
    pub proof fn lemma_distinct(&self)
        requires
            self.wf(),
        ensures
            distinct_keys(self@),
    {
    }

    /// An empty set.
    pub fn new() -> (set: MinSet<T>)
        ensures
            set@ == Seq::<Entry>::empty(),
            set.wf(),
    {
        reveal(MinSet::indexed);
        let set = MinSet { set: Vec::new(), slots: HashMap::new() };
        assert(set@ =~= Seq::<Entry>::empty());
        set
    }

    /// The place of the element with the key of `element`, if there is one.
    fn find(&self, element: &T) -> (found: Option<usize>)
        requires
            self.indexed(),
        ensures
            match found {
                Some(i) => holds_key(self@, i as int, element.entry().key),
                None => forall|i: int| !holds_key(self@, i, element.entry().key),
            },
    {
        reveal(MinSet::indexed);
        let h = element.key_digest();
        let ghost key = element.entry().key;
        match self.slots.get(&h) {
            Some(places) => {
                let mut j: usize = 0;
                while j < places.len()
                    invariant
                        j <= places@.len(),
                        self.indexed(),
                        key == element.entry().key,
                        h == digest(key),
                        self.slots@.contains_key(h),
                        self.slots@[h] == *places,
                        forall|k: int| 0 <= k < j ==> !holds_key(self@, places@[k] as int, key),
                    decreases places@.len() - j,
                {
                    let i = places[j];
                    proof {
                        reveal(MinSet::indexed);
                        assert(self.slots@[h]@[j as int] < self.set@.len());
                        assert(self@[i as int] == self.set@[i as int].entry());
                    }
                    if self.set[i].same_key(element) {
                        return Some(i);
                    }
                    j += 1;
                }
                assert forall|i: int| !holds_key(self@, i, key) by {
                    if holds_key(self@, i, key) {
                        assert(self@[i] == self.set@[i].entry());
                        assert(digest(self.set@[i].entry().key) == h);
                        assert(holds(self.slots@[h]@, i));
                        let k = choose|k: int|
                            0 <= k < places@.len() && #[trigger] places@[k] == i;
                        assert(!holds_key(self@, places@[k] as int, key));
                    }
                }
                None
            },
            None => {
                assert forall|i: int| !holds_key(self@, i, key) by {
                    if holds_key(self@, i, key) {
                        assert(self@[i] == self.set@[i].entry());
                        assert(self.slots@.contains_key(digest(self.set@[i].entry().key)));
                    }
                }
                None
            },
        }
    }

    /// Adds `element`, whose key is new, at the end.
    fn append(&mut self, element: T)
        requires
            old(self).indexed(),
        ensures
            final(self).indexed(),
            final(self)@ == old(self)@.push(element.entry()),
    {
        reveal(MinSet::indexed);
        let ghost before = *self;
        let ghost e = element.entry();
        let h = element.key_digest();
        let i = self.set.len();
        self.set.push(element);
        let mut places = match self.slots.remove(&h) {
            Some(places) => places,
            None => Vec::new(),
        };
        let ghost known = places@;
        places.push(i);
        self.slots.insert(h, places);
        proof {
            let grown = *self;
            assert(grown@ =~= before@.push(e));
            assert(before.slots@.contains_key(h) ==> known == before.slots@[h]@);
            assert forall|n: int| 0 <= n < grown.set@.len() implies grown.slots@.contains_key(
                digest(#[trigger] grown.set@[n].entry().key),
            ) && holds(grown.slots@[digest(grown.set@[n].entry().key)]@, n) by {
                let d = digest(grown.set@[n].entry().key);
                if n < i {
                    assert(grown.set@[n] == before.set@[n]);
                    assert(before.slots@.contains_key(digest(before.set@[n].entry().key)));
                    assert(holds(before.slots@[d]@, n));
                    if d == h {
                        let k = choose|k: int| 0 <= k < known.len() && #[trigger] known[k] == n;
                        assert(grown.slots@[d]@[k] == n);
                    }
                } else {
                    assert(grown.slots@[d]@[known.len() as int] == n);
                }
            }
            assert forall|d: u64, j: int|
                grown.slots@.contains_key(d) && 0 <= j < grown.slots@[d]@.len() implies #[trigger] grown.slots@[d]@[j]
                < grown.set@.len() by {
                if d == h {
                    if j < known.len() {
                        assert(before.slots@[d]@[j] < before.set@.len());
                    }
                } else {
                    assert(before.slots@.contains_key(d));
                    assert(before.slots@[d]@[j] < before.set@.len());
                }
            }
        }
    }

    /// Puts `element` in the place of the `i`-th element, which has its key.
    fn replace(&mut self, i: usize, element: T)
        requires
            old(self).indexed(),
            holds_key(old(self)@, i as int, element.entry().key),
        ensures
            final(self).indexed(),
            final(self)@ == old(self)@.update(i as int, element.entry()),
    {
        reveal(MinSet::indexed);
        let ghost before = *self;
        let ghost e = element.entry();
        assert(before@[i as int] == before.set@[i as int].entry());
        self.set[i] = element;
        proof {
            let after = *self;
            assert(after@ =~= before@.update(i as int, e));
            assert forall|n: int| 0 <= n < after.set@.len() implies after.slots@.contains_key(
                digest(#[trigger] after.set@[n].entry().key),
            ) && holds(after.slots@[digest(after.set@[n].entry().key)]@, n) by {
                assert(after.set@[n].entry().key == before.set@[n].entry().key);
                assert(before.slots@.contains_key(digest(before.set@[n].entry().key)));
            }
            assert forall|d: u64, j: int|
                after.slots@.contains_key(d) && 0 <= j < after.slots@[d]@.len() implies #[trigger] after.slots@[d]@[j]
                < after.set@.len() by {
                assert(before.slots@[d]@[j] < before.set@.len());
            }
        }
    }

    /// Offers `element` to the set.
    pub fn insert(&mut self, element: T)
        requires
            old(self).wf(),
        ensures
            final(self).wf(),
            distinct_keys(final(self)@),
            final(self)@ == min_insert(old(self)@, element.entry()),
    {
        let ghost before = self@;
        let ghost e = element.entry();
        proof {
            lemma_min_insert_distinct(before, e);
        }
        match self.find(&element) {
            Some(i) => {
                proof {
                    let chosen = choose|k: int| holds_key(before, k, e.key);
                    assert(holds_key(before, chosen, e.key));
                    assert(chosen == i);
                    assert(before[i as int] == self.set@[i as int].entry());
                }
                if self.set[i].costs_more(&element) {
                    self.replace(i, element);
                }
            },
            None => {
                self.append(element);
            },
        }
    }

    /// The number of elements.
    pub fn len(&self) -> (n: usize)
        ensures
            n == self@.len(),
    {
        self.set.len()
    }

    /// The `i`-th element.
    pub fn get(&self, i: usize) -> (element: &T)
        requires
            i < self@.len(),
        ensures
            element.entry() == self@[i as int],
    {
        &self.set[i]
    }

    /// The elements, in the order in which their keys first came.
    pub fn into_vec(self) -> (items: Vec<T>)
        ensures
            entries(items@) == self@,
    {
        self.set
    }
}

} // verus!
