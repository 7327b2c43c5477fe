//! A simple in-memory key-value store over byte strings.
//!
//! The tree engine keeps two of these: one maps node hashes to serialized
//! node bytes, the other maps paths to user values.  The store is a plain
//! association list whose view is the map it represents; keys are unique.

use vstd::prelude::*;

use crate::tree_hasher::bytes_clone;
use crate::tree_hasher::bytes_eq;

verus! {

/// The map represented by a sequence of key-value entries.
pub open spec fn entries_map(s: Seq<(Vec<u8>, Vec<u8>)>) -> Map<Seq<u8>, Seq<u8>>
    decreases s.len(),
{
    if s.len() == 0 {
        Map::empty()
    } else {
        entries_map(s.drop_last()).insert(s.last().0@, s.last().1@)
    }
}

/// Entry keys are pairwise distinct.
pub open spec fn unique_keys(s: Seq<(Vec<u8>, Vec<u8>)>) -> bool {
    forall|i: int, j: int| 0 <= i < j < s.len() ==> s[i].0@ != s[j].0@
}

proof fn lemma_entries_map_contains(s: Seq<(Vec<u8>, Vec<u8>)>, k: Seq<u8>)
    ensures
        entries_map(s).contains_key(k) <==> exists|i: int| 0 <= i < s.len() && s[i].0@ == k,
    decreases s.len(),
{
    if s.len() > 0 {
        lemma_entries_map_contains(s.drop_last(), k);
        if entries_map(s).contains_key(k) {
            if s.last().0@ == k {
                assert(s[s.len() - 1].0@ == k);
            } else {
                let i = choose|i: int| 0 <= i < s.drop_last().len() && s.drop_last()[i].0@ == k;
                assert(s[i].0@ == k);
            }
        }
        if exists|i: int| 0 <= i < s.len() && s[i].0@ == k {
            let i = choose|i: int| 0 <= i < s.len() && s[i].0@ == k;
            if i < s.len() - 1 {
                assert(s.drop_last()[i].0@ == k);
            }
        }
    }
}

proof fn lemma_entries_map_at(s: Seq<(Vec<u8>, Vec<u8>)>, i: int)
    requires
        unique_keys(s),
        0 <= i < s.len(),
    ensures
        entries_map(s).contains_key(s[i].0@),
        entries_map(s)[s[i].0@] == s[i].1@,
    decreases s.len(),
{
    if i == s.len() - 1 {
    } else {
        assert(s.drop_last()[i] == s[i]);
        assert(unique_keys(s.drop_last())) by {
            assert(forall|x: int, y: int|
                0 <= x < y < s.drop_last().len() ==> s.drop_last()[x] == s[x] && s.drop_last()[y]
                    == s[y]);
        }
        lemma_entries_map_at(s.drop_last(), i);
        assert(s[i].0@ != s.last().0@);
    }
}

proof fn lemma_entries_map_remove(s: Seq<(Vec<u8>, Vec<u8>)>, i: int)
    requires
        unique_keys(s),
        0 <= i < s.len(),
    ensures
        entries_map(s.remove(i)) == entries_map(s).remove(s[i].0@),
    decreases s.len(),
{
    let k = s[i].0@;
    if i == s.len() - 1 {
        assert(s.remove(i) =~= s.drop_last());
        lemma_entries_map_contains(s.drop_last(), k);
        assert(forall|j: int|
            0 <= j < s.drop_last().len() ==> s.drop_last()[j] == s[j] && s[j].0@ != k);
        assert(!entries_map(s.drop_last()).contains_key(k));
        assert(entries_map(s).remove(k) =~= entries_map(s.drop_last()));
    } else {
        assert(unique_keys(s.drop_last())) by {
            assert(forall|x: int, y: int|
                0 <= x < y < s.drop_last().len() ==> s.drop_last()[x] == s[x] && s.drop_last()[y]
                    == s[y]);
        }
        assert(s.drop_last()[i] == s[i]);
        lemma_entries_map_remove(s.drop_last(), i);
        assert(s.remove(i).drop_last() =~= s.drop_last().remove(i));
        assert(s.remove(i).last() == s.last());
        assert(entries_map(s.remove(i)) == entries_map(s.drop_last().remove(i)).insert(
            s.last().0@,
            s.last().1@,
        ));
        assert(k != s.last().0@);
        assert(entries_map(s).remove(k) =~= entries_map(s.drop_last()).remove(k).insert(
            s.last().0@,
            s.last().1@,
        ));
    }
}

proof fn lemma_entries_map_congruence(s1: Seq<(Vec<u8>, Vec<u8>)>, s2: Seq<(Vec<u8>, Vec<u8>)>)
    requires
        s1.len() == s2.len(),
        forall|i: int|
            0 <= i < s1.len() ==> #[trigger] s1[i].0@ == s2[i].0@ && s1[i].1@ == s2[i].1@,
    ensures
        entries_map(s1) == entries_map(s2),
    decreases s1.len(),
{
    if s1.len() > 0 {
        assert(forall|i: int|
            0 <= i < s1.drop_last().len() ==> #[trigger] s1.drop_last()[i].0@ == s2.drop_last()[i].0@
                && s1.drop_last()[i].1@ == s2.drop_last()[i].1@) by {
            assert(forall|i: int|
                0 <= i < s1.drop_last().len() ==> s1.drop_last()[i] == s1[i] && s2.drop_last()[i]
                    == s2[i]);
        }
        lemma_entries_map_congruence(s1.drop_last(), s2.drop_last());
        assert(s1.last().0@ == s2.last().0@ && s1.last().1@ == s2.last().1@) by {
            assert(s1[s1.len() - 1].0@ == s2[s1.len() - 1].0@ && s1[s1.len() - 1].1@ == s2[s1.len()
                - 1].1@);
        }
    }
}

/// A key-value store over byte strings, viewed as the map it represents.
/// The tree engine consumes two stores through this interface: one for
/// nodes, one for values.  An implementation must honour these contracts;
/// `SimpleStore` is the in-memory one this crate provides and verifies.
pub trait KVStore: View<V = Map<Seq<u8>, Seq<u8>>> + Sized {
    /// The store is in a usable state; every operation preserves this.
    spec fn wf(&self) -> bool;

    /// Gets the value for a key; `None` when the key is absent.
    fn get(&self, key: &[u8]) -> (r: Option<Vec<u8>>)
        requires
            self.wf(),
        ensures
            match r {
                Some(v) => self@.contains_key(key@) && v@ == self@[key@],
                None => !self@.contains_key(key@),
            },
    ;

    /// Sets the value for a key, overwriting any previous value.
    fn set(&mut self, key: Vec<u8>, value: Vec<u8>)
        requires
            old(self).wf(),
        ensures
            final(self).wf(),
            final(self)@ == old(self)@.insert(key@, value@),
    ;

    /// Removes a key, returning its value, or `None` when the key was
    /// absent.
    fn remove(&mut self, key: &[u8]) -> (r: Option<Vec<u8>>)
        requires
            old(self).wf(),
        ensures
            final(self).wf(),
            final(self)@ == old(self)@.remove(key@),
            match r {
                Some(v) => old(self)@.contains_key(key@) && v@ == old(self)@[key@],
                None => !old(self)@.contains_key(key@),
            },
    ;

    /// Returns whether the key is present.
    fn contains(&self, key: &[u8]) -> (r: bool)
        requires
            self.wf(),
        ensures
            r == self@.contains_key(key@),
    ;
}

/// An in-memory store mapping byte-string keys to byte-string values.
#[derive(Debug, PartialEq)]
pub struct SimpleStore {
    entries: Vec<(Vec<u8>, Vec<u8>)>,
}

impl View for SimpleStore {
    type V = Map<Seq<u8>, Seq<u8>>;

    closed spec fn view(&self) -> Map<Seq<u8>, Seq<u8>> {
        entries_map(self.entries@)
    }
}

impl Clone for SimpleStore {
    /// Copies the store, entry by entry.
    fn clone(&self) -> (r: Self)
        ensures
            r@ == self@,
            self.wf() ==> r.wf(),
    {
        let mut entries: Vec<(Vec<u8>, Vec<u8>)> = Vec::new();
        let n = self.entries.len();
        for i in 0..n
            invariant
                n == self.entries@.len(),
                entries@.len() == i,
                forall|j: int|
                    #![trigger entries@[j]]
                    0 <= j < i ==> entries@[j].0@ == self.entries@[j].0@ && entries@[j].1@
                        == self.entries@[j].1@,
        {
            let k = bytes_clone(&self.entries[i].0);
            let v = bytes_clone(&self.entries[i].1);
            entries.push((k, v));
            proof {
                assert(entries@[i as int] == (k, v));
            }
        }
        proof {
            lemma_entries_map_congruence(entries@, self.entries@);
        }
        SimpleStore { entries }
    }
}

impl SimpleStore {
    /// Creates an empty store.
    pub fn new() -> (r: Self)
        ensures
            r@ == Map::<Seq<u8>, Seq<u8>>::empty(),
            r.wf(),
    {
        SimpleStore { entries: Vec::new() }
    }

    fn find(&self, key: &[u8]) -> (r: Option<usize>)
        ensures
            match r {
                Some(i) => i < self.entries@.len() && self.entries@[i as int].0@ == key@,
                None => forall|i: int| 0 <= i < self.entries@.len() ==> self.entries@[i].0@ != key@,
            },
    {
        let n = self.entries.len();
        for i in 0..n
            invariant
                n == self.entries@.len(),
                forall|j: int| 0 <= j < i ==> self.entries@[j].0@ != key@,
        {
            if bytes_eq(self.entries[i].0.as_slice(), key) {
                return Some(i);
            }
        }
        None
    }

}

impl KVStore for SimpleStore {
    /// Entry keys are pairwise distinct.
    closed spec fn wf(&self) -> bool {
        unique_keys(self.entries@)
    }

    /// Gets the value for a key, or `None` when the key is absent.
    fn get(&self, key: &[u8]) -> (r: Option<Vec<u8>>) {
        proof {
            lemma_entries_map_contains(self.entries@, key@);
        }
        match self.find(key) {
            Some(i) => {
                proof {
                    lemma_entries_map_at(self.entries@, i as int);
                }
                Some(bytes_clone(&self.entries[i].1))
            },
            None => None,
        }
    }

    /// Returns whether the key is present.
    fn contains(&self, key: &[u8]) -> (r: bool) {
        proof {
            lemma_entries_map_contains(self.entries@, key@);
        }
        self.find(key).is_some()
    }

    /// Sets the value for a key, overwriting any previous value.
    fn set(&mut self, key: Vec<u8>, value: Vec<u8>) {
        match self.find(key.as_slice()) {
            Some(i) => {
                proof {
                    lemma_entries_map_remove(self.entries@, i as int);
                    lemma_entries_map_contains(self.entries@.remove(i as int), key@);
                }
                let ghost k = self.entries@[i as int].0@;
                self.entries.remove(i);
                proof {
                    assert(unique_keys(self.entries@)) by {
                        assert(forall|x: int|
                            0 <= x < self.entries@.len() ==> self.entries@[x] == old(
                                self,
                            ).entries@[if x < i as int {
                                x
                            } else {
                                x + 1
                            }]);
                    }
                    assert(forall|x: int|
                        0 <= x < self.entries@.len() ==> self.entries@[x].0@ != key@);
                }
                let ghost pre = self.entries@;
                self.entries.push((key, value));
                proof {
                    assert(self.entries@.drop_last() =~= pre);
                    assert(final(self)@ =~= old(self)@.insert(
                        self.entries@.last().0@,
                        self.entries@.last().1@,
                    ));
                }
            },
            None => {
                let ghost pre = self.entries@;
                self.entries.push((key, value));
                proof {
                    assert(self.entries@.drop_last() =~= pre);
                }
            },
        }
    }

    /// Removes a key, returning its value, or `None` when the key was
    /// absent.
    fn remove(&mut self, key: &[u8]) -> (r: Option<Vec<u8>>) {
        proof {
            lemma_entries_map_contains(self.entries@, key@);
        }
        match self.find(key) {
            Some(i) => {
                proof {
                    lemma_entries_map_at(self.entries@, i as int);
                    lemma_entries_map_remove(self.entries@, i as int);
                }
                let value = bytes_clone(&self.entries[i].1);
                self.entries.remove(i);
                proof {
                    assert(unique_keys(self.entries@)) by {
                        assert(forall|x: int|
                            0 <= x < self.entries@.len() ==> self.entries@[x] == old(
                                self,
                            ).entries@[if x < i as int {
                                x
                            } else {
                                x + 1
                            }]);
                    }
                }
                Some(value)
            },
            None => {
                proof {
                    assert(final(self)@ =~= old(self)@.remove(key@));
                }
                None
            },
        }
    }
}

} // verus!
