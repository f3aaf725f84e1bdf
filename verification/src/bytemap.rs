//! A map from 32-byte keys to values, kept as a list of entries in the order
//! in which the keys were first inserted.

use crate::hash::bytes_equal;
use vstd::prelude::*;

verus! {

/// A map keyed by 32-byte strings. Its view maps the byte sequence of each key
/// to the value held for it.
pub struct ByteMap<V> {
    pub keys: Vec<[u8; 32]>,
    pub values: Vec<V>,
}

/// Whether `key` stands at index `i` of `keys`.
pub open spec fn key_at(keys: Seq<[u8; 32]>, key: Seq<u8>, i: int) -> bool {
    0 <= i < keys.len() && keys[i]@ == key
}

/// Whether `key` is among `keys`.
pub open spec fn has_key(keys: Seq<[u8; 32]>, key: Seq<u8>) -> bool {
    exists|i: int| key_at(keys, key, i)
}

/// An index at which `key` stands in `keys`, if it is among them.
pub open spec fn index_of(keys: Seq<[u8; 32]>, key: Seq<u8>) -> int {
    choose|i: int| key_at(keys, key, i)
}

/// No key stands at two indices.
pub open spec fn distinct(keys: Seq<[u8; 32]>) -> bool {
    forall|i: int, j: int|
        0 <= i < keys.len() && 0 <= j < keys.len() && i != j ==> (#[trigger] keys[i])@ != (
        #[trigger] keys[j])@
}

impl<V> View for ByteMap<V> {
    type V = Map<Seq<u8>, V>;

    open spec fn view(&self) -> Map<Seq<u8>, V> {
        Map::new(
            |k: Seq<u8>| has_key(self.keys@, k),
            |k: Seq<u8>| self.values@[index_of(self.keys@, k)],
        )
    }
}

impl<V> ByteMap<V> {
    /// One value per key, and no key twice.
    pub open spec fn wf(&self) -> bool {
        self.keys@.len() == self.values@.len() && distinct(self.keys@)
    }

    /// The key at index `i` has the value at index `i`.
    pub proof fn lemma_entry(&self, i: int)
        requires
            self.wf(),
            0 <= i < self.keys@.len(),
        ensures
            self@.dom().contains(self.keys@[i]@),
            self@[self.keys@[i]@] == self.values@[i],
            index_of(self.keys@, self.keys@[i]@) == i,
    {
        assert(key_at(self.keys@, self.keys@[i]@, i));
    }

    /// An empty map.
    pub fn new() -> (out: ByteMap<V>)
        ensures
            out.wf(),
            out@ == Map::<Seq<u8>, V>::empty(),
            out.keys@.len() == 0,
    {
        let out: ByteMap<V> = ByteMap { keys: Vec::new(), values: Vec::new() };
        assert(out@ =~= Map::<Seq<u8>, V>::empty());
        out
    }

    /// The number of keys.
    pub fn len(&self) -> (out: usize)
        ensures
            out == self.keys@.len(),
    {
        self.keys.len()
    }

    /// The index of `key`, if the map holds it.
    pub fn position(&self, key: &[u8; 32]) -> (out: Option<usize>)
        requires
            self.wf(),
        ensures
            out.is_some() == self@.dom().contains(key@),
            out matches Some(i) ==> key_at(self.keys@, key@, i as int) && self@[key@]
                == self.values@[i as int],
    {
        let mut i: usize = 0;
        while i < self.keys.len()
            invariant
                self.wf(),
                i <= self.keys@.len(),
                forall|j: int| 0 <= j < i ==> !key_at(self.keys@, key@, j),
            decreases self.keys@.len() - i,
        {
            if bytes_equal(&self.keys[i], key) {
                proof {
                    self.lemma_entry(i as int);
                }
                return Some(i);
            }
            i = i + 1;
        }
        None
    }

    /// Whether the map holds `key`.
    pub fn contains_key(&self, key: &[u8; 32]) -> (out: bool)
        requires
            self.wf(),
        ensures
            out == self@.dom().contains(key@),
    {
        self.position(key).is_some()
    }

    /// The value held for `key`, if any.
    pub fn get(&self, key: &[u8; 32]) -> (out: Option<&V>)
        requires
            self.wf(),
        ensures
            out.is_some() == self@.dom().contains(key@),
            out matches Some(v) ==> *v == self@[key@],
    {
        match self.position(key) {
            Some(i) => Some(&self.values[i]),
            None => None,
        }
    }

    /// Sets the value for `key`, whether or not the map held one.
    pub fn insert(&mut self, key: [u8; 32], value: V)
        requires
            old(self).wf(),
        ensures
            final(self).wf(),
            final(self)@ == old(self)@.insert(key@, value),
            old(self)@.dom().contains(key@) ==> final(self).keys@ == old(self).keys@,
            !old(self)@.dom().contains(key@) ==> final(self).keys@ == old(self).keys@.push(key),
    {
        let ghost before: ByteMap<V> = *self;
        match self.position(&key) {
            Some(i) => {
                self.values.set(i, value);
                proof {
                    assert forall|k: Seq<u8>| has_key(self.keys@, k) implies #[trigger] self@[k]
                        == before@.insert(key@, value)[k] by {
                        let j: int = index_of(self.keys@, k);
                        assert(key_at(self.keys@, k, j));
                    }
                    assert(self@ =~= before@.insert(key@, value));
                }
            },
            None => {
                self.keys.push(key);
                self.values.push(value);
                proof {
                    let n: int = before.keys@.len() as int;
                    assert forall|i: int| 0 <= i < n implies (#[trigger] before.keys@[i])@
                        != key@ by {
                        assert(key_at(before.keys@, before.keys@[i]@, i));
                    }
                    assert(distinct(self.keys@));
                    assert(key_at(self.keys@, key@, n));
                    assert forall|k: Seq<u8>|
                        has_key(self.keys@, k) == (k == key@ || has_key(before.keys@, k)) by {
                        if has_key(before.keys@, k) {
                            let j: int = index_of(before.keys@, k);
                            assert(key_at(self.keys@, k, j));
                        }
                        if has_key(self.keys@, k) {
                            let j: int = index_of(self.keys@, k);
                            if j < n {
                                assert(key_at(before.keys@, k, j));
                            }
                        }
                    }
                    assert forall|k: Seq<u8>| has_key(self.keys@, k) implies #[trigger] self@[k]
                        == before@.insert(key@, value)[k] by {
                        let j: int = index_of(self.keys@, k);
                        assert(key_at(self.keys@, k, j));
                        if j < n {
                            assert(key_at(before.keys@, k, j));
                            let j2: int = index_of(before.keys@, k);
                            assert(key_at(before.keys@, k, j2));
                        }
                    }
                    assert(self@ =~= before@.insert(key@, value));
                }
            },
        }
    }
}

} // verus!
