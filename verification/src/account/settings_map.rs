//! A key-value store for settings, viewed as a mathematical map.
//!
//! The store keeps `(String, Stg)` pairs with pairwise-distinct keys and is
//! abstracted, through [`View`], to a `Map` from character sequences to
//! [`StgView`] values.

use vstd::prelude::*;

use crate::stg::{Stg, StgView};

verus! {

/// The map described by a sequence of key-value pairs: later pairs win.
pub open spec fn map_of(entries: Seq<(String, Stg)>) -> Map<Seq<char>, StgView>
    decreases entries.len(),
{
    if entries.len() == 0 {
        Map::empty()
    } else {
        map_of(entries.drop_last()).insert(entries.last().0@, entries.last().1@)
    }
}

/// No two pairs of the sequence share a key.
pub open spec fn keys_unique(entries: Seq<(String, Stg)>) -> bool {
    forall|i: int, j: int|
        0 <= i < j < entries.len() ==> entries[i].0@ != entries[j].0@
}

/// A key is in the map of a sequence exactly when some pair carries it.
pub proof fn lemma_map_of_contains(entries: Seq<(String, Stg)>, k: Seq<char>)
    ensures
        map_of(entries).dom().contains(k) <==> (exists|i: int|
            0 <= i < entries.len() && entries[i].0@ == k),
    decreases entries.len(),
{
    if entries.len() > 0 {
        lemma_map_of_contains(entries.drop_last(), k);
        if entries.last().0@ == k {
            assert(entries[entries.len() - 1].0@ == k);
        } else if map_of(entries).dom().contains(k) {
            let i = choose|i: int| 0 <= i < entries.drop_last().len() && entries.drop_last()[i].0@ == k;
            assert(entries[i].0@ == k);
        } else if exists|i: int| 0 <= i < entries.len() && entries[i].0@ == k {
            let i = choose|i: int| 0 <= i < entries.len() && entries[i].0@ == k;
            assert(entries.drop_last()[i].0@ == k);
        }
    }
}

/// With distinct keys, the map of a sequence sends each stored key to the
/// view of its stored value.
pub proof fn lemma_map_of_index(entries: Seq<(String, Stg)>, i: int)
    requires
        keys_unique(entries),
        0 <= i < entries.len(),
    ensures
        map_of(entries).dom().contains(entries[i].0@),
        map_of(entries)[entries[i].0@] == entries[i].1@,
    decreases entries.len(),
{
    if i < entries.len() - 1 {
        lemma_map_of_index(entries.drop_last(), i);
        assert(entries.drop_last()[i] == entries[i]);
        assert(entries.last().0@ != entries[i].0@);
    }
}

/// With distinct keys, removing the pair at an index removes exactly its key
/// from the map.
pub proof fn lemma_map_of_remove(entries: Seq<(String, Stg)>, i: int)
    requires
        keys_unique(entries),
        0 <= i < entries.len(),
    ensures
        map_of(entries.remove(i)) == map_of(entries).remove(entries[i].0@),
    decreases entries.len(),
{
    let k = entries[i].0@;
    if i == entries.len() - 1 {
        assert(entries.remove(i) =~= entries.drop_last());
        lemma_map_of_contains(entries.drop_last(), k);
        assert(forall|j: int|
            0 <= j < entries.drop_last().len() ==> entries.drop_last()[j].0@ != k);
        assert(map_of(entries.drop_last()) =~= map_of(entries).remove(k));
    } else {
        let dl = entries.drop_last();
        assert(keys_unique(dl));
        lemma_map_of_remove(dl, i);
        assert(entries.remove(i).drop_last() =~= dl.remove(i));
        assert(entries.remove(i).last() == entries.last());
        assert(entries.last().0@ != k);
        assert(map_of(entries.remove(i)) == map_of(dl.remove(i)).insert(
            entries.last().0@,
            entries.last().1@,
        ));
        assert(map_of(dl).remove(k).insert(entries.last().0@, entries.last().1@) =~= map_of(
            dl,
        ).insert(entries.last().0@, entries.last().1@).remove(k));
    }
}

/// A key-value store with pairwise-distinct keys.
///
/// The field is exposed so that specifications can speak about the stored
/// pairs; all verified operations preserve [`SettingsMap::wf`].
#[derive(Debug, PartialEq)]
pub struct SettingsMap {
    pub entries: Vec<(String, Stg)>,
}

/// Relies on `Vec::capacity`: the capacity is at least the length.
#[verifier::external_body]
fn vec_capacity(v: &Vec<(String, Stg)>) -> (r: usize)
    ensures
        r >= v@.len(),
{
    v.capacity()
}

impl View for SettingsMap {
    type V = Map<Seq<char>, StgView>;

    open spec fn view(&self) -> Map<Seq<char>, StgView> {
        map_of(self.entries@)
    }
}

impl SettingsMap {
    /// The representation invariant: stored keys are pairwise distinct.
    pub open spec fn wf(self) -> bool {
        keys_unique(self.entries@)
    }

    /// Creates an empty store.
    pub fn new() -> (r: SettingsMap)
        ensures
            r.wf(),
            r@ == Map::<Seq<char>, StgView>::empty(),
            r.entries@.len() == 0,
    {
        SettingsMap { entries: Vec::new() }
    }

    /// The position of a key in the store, if it is present.
    fn index_of(&self, key: &String) -> (r: Option<usize>)
        ensures
            match r {
                Some(i) => i < self.entries@.len() && self.entries@[i as int].0@ == key@,
                None => forall|i: int|
                    0 <= i < self.entries@.len() ==> self.entries@[i].0@ != key@,
            },
    {
        let mut i: usize = 0;
        while i < self.entries.len()
            invariant
                i <= self.entries@.len(),
                forall|j: int| 0 <= j < i ==> self.entries@[j].0@ != key@,
            decreases self.entries@.len() - i,
        {
            if self.entries[i].0.eq(key) {
                return Some(i);
            }
            i = i + 1;
        }
        None
    }

    /// Whether the store holds a value for the key.
    pub fn contains_key(&self, key: &String) -> (r: bool)
        ensures
            r == self@.dom().contains(key@),
    {
        proof {
            lemma_map_of_contains(self.entries@, key@);
        }
        self.index_of(key).is_some()
    }

    /// The stored value for a key, if any.
    pub fn get(&self, key: &String) -> (r: Option<&Stg>)
        requires
            self.wf(),
        ensures
            match r {
                Some(v) => self@.dom().contains(key@) && v@ == self@[key@],
                None => !self@.dom().contains(key@),
            },
    {
        proof {
            lemma_map_of_contains(self.entries@, key@);
        }
        match self.index_of(key) {
            Some(i) => {
                proof {
                    lemma_map_of_index(self.entries@, i as int);
                }
                Some(&self.entries[i].1)
            },
            None => None,
        }
    }

    /// Stores a value under a key, returning the value previously stored
    /// under it, if any.
    pub fn insert(&mut self, key: String, value: Stg) -> (r: Option<Stg>)
        requires
            old(self).wf(),
        ensures
            final(self).wf(),
            final(self)@ == old(self)@.insert(key@, value@),
            match r {
                Some(v) => old(self)@.dom().contains(key@) && v@ == old(self)@[key@],
                None => !old(self)@.dom().contains(key@),
            },
    {
        proof {
            lemma_map_of_contains(self.entries@, key@);
        }
        match self.index_of(&key) {
            Some(i) => {
                proof {
                    lemma_map_of_index(self.entries@, i as int);
                    lemma_map_of_remove(self.entries@, i as int);
                }
                let ghost removed = self.entries@.remove(i as int);
                let old_pair = self.entries.remove(i);
                assert(forall|a: int, b: int|
                    0 <= a < b < removed.len() ==> removed[a].0@ != removed[b].0@);
                proof {
                    lemma_map_of_contains(removed, key@);
                }
                self.entries.push((key, value));
                proof {
                    assert(self.entries@.drop_last() =~= removed);
                    assert(final(self)@ =~= old(self)@.insert(key@, value@));
                }
                Some(old_pair.1)
            },
            None => {
                self.entries.push((key, value));
                proof {
                    assert(self.entries@.drop_last() =~= old(self).entries@);
                    assert(final(self)@ =~= old(self)@.insert(key@, value@));
                }
                None
            },
        }
    }

    /// Removes a key, returning the value stored under it, if any.
    pub fn remove(&mut self, key: &String) -> (r: Option<Stg>)
        requires
            old(self).wf(),
        ensures
            final(self).wf(),
            final(self)@ == old(self)@.remove(key@),
            match r {
                Some(v) => old(self)@.dom().contains(key@) && v@ == old(self)@[key@],
                None => !old(self)@.dom().contains(key@),
            },
    {
        proof {
            lemma_map_of_contains(self.entries@, key@);
        }
        match self.index_of(key) {
            Some(i) => {
                proof {
                    lemma_map_of_index(self.entries@, i as int);
                    lemma_map_of_remove(self.entries@, i as int);
                }
                let old_pair = self.entries.remove(i);
                Some(old_pair.1)
            },
            None => {
                proof {
                    assert(final(self)@ =~= old(self)@.remove(key@));
                }
                None
            },
        }
    }

    /// The stored keys, in storage order.
    pub fn keys(&self) -> (r: Vec<String>)
        ensures
            r@.len() == self.entries@.len(),
            forall|i: int| 0 <= i < r@.len() ==> r@[i] == self.entries@[i].0,
    {
        let mut r: Vec<String> = Vec::new();
        let mut i: usize = 0;
        while i < self.entries.len()
            invariant
                i <= self.entries@.len(),
                r@.len() == i,
                forall|j: int| 0 <= j < i ==> r@[j] == self.entries@[j].0,
            decreases self.entries@.len() - i,
        {
            r.push(self.entries[i].0.clone());
            i = i + 1;
        }
        r
    }

    /// The number of stored pairs.
    pub fn len(&self) -> (r: usize)
        ensures
            r == self.entries@.len(),
    {
        self.entries.len()
    }

    /// A lower bound on the number of pairs the store can hold without
    /// reallocating.
    pub fn capacity(&self) -> (r: usize)
        ensures
            r >= self.entries@.len(),
    {
        vec_capacity(&self.entries)
    }

    /// Whether the store is empty.
    pub fn is_empty(&self) -> (r: bool)
        ensures
            r == (self.entries@.len() == 0),
    {
        self.entries.is_empty()
    }

    /// Copies the store; the copy describes the same map.
    pub fn duplicate(&self) -> (r: SettingsMap)
        ensures
            r.entries@.len() == self.entries@.len(),
            forall|i: int| 0 <= i < r.entries@.len() ==> r.entries@[i] == self.entries@[i],
            r@ == self@,
            r.wf() == self.wf(),
    {
        let mut entries: Vec<(String, Stg)> = Vec::new();
        let mut i: usize = 0;
        while i < self.entries.len()
            invariant
                i <= self.entries@.len(),
                entries@.len() == i,
                forall|j: int| 0 <= j < i ==> entries@[j] == self.entries@[j],
            decreases self.entries@.len() - i,
        {
            let k = self.entries[i].0.clone();
            let v = self.entries[i].1.clone();
            entries.push((k, v));
            i = i + 1;
        }
        let r = SettingsMap { entries };
        proof {
            assert(r.entries@ =~= self.entries@);
        }
        r
    }
}

} // verus!
