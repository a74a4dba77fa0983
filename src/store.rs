//! The backing key-value store that the cache writes through.
use vstd::prelude::*;

verus! {

/// A failed backing-store operation.
#[derive(Debug, Clone, Copy, PartialEq, Eq, Structural)]
pub struct StoreError;

/// A key-value store holding byte values under string keys.
pub trait KvBackend: Sized {
    /// What the store holds.
    spec fn contents(&self) -> Map<Seq<char>, Seq<u8>>;

    /// The store's internal well-formedness.
    spec fn inv(&self) -> bool;

    /// The bytes under `key`, or `None` when the key is absent.
    fn get(&self, key: &str) -> (r: Result<Option<Vec<u8>>, StoreError>)
        requires
            self.inv(),
        ensures
            r matches Ok(v) ==> match v {
                Some(b) => self.contents().contains_key(key@) && b@ == self.contents()[key@],
                None => !self.contents().contains_key(key@),
            },
    ;

    /// Stores `value` under `key`. A failed write may or may not have landed.
    fn put(&mut self, key: &str, value: Vec<u8>) -> (r: Result<(), StoreError>)
        requires
            old(self).inv(),
        ensures
            final(self).inv(),
            r is Ok ==> final(self).contents() == old(self).contents().insert(key@, value@),
            r is Err ==> final(self).contents() == old(self).contents() || final(self).contents()
                == old(self).contents().insert(key@, value@),
    ;

    /// Removes `key`; removing an absent key changes nothing. A failed delete
    /// may or may not have landed.
    fn delete(&mut self, key: &str) -> (r: Result<(), StoreError>)
        requires
            old(self).inv(),
        ensures
            final(self).inv(),
            r is Ok ==> final(self).contents() == old(self).contents().remove(key@),
            r is Err ==> final(self).contents() == old(self).contents() || final(self).contents()
                == old(self).contents().remove(key@),
    ;
}

/// An in-process store: a list of key/value pairs with distinct keys.
pub struct MemoryStore {
    entries: Vec<(String, Vec<u8>)>,
    model: Ghost<Map<Seq<char>, Seq<u8>>>,
}

impl MemoryStore {
    /// An empty store.
    pub fn new() -> (r: MemoryStore)
        ensures
            r.inv(),
            r.contents() == Map::<Seq<char>, Seq<u8>>::empty(),
    {
        MemoryStore { entries: Vec::new(), model: Ghost(Map::empty()) }
    }

    /// The position of `key` in the list, if it is there.
    fn find(&self, key: &str) -> (r: Option<usize>)
        requires
            self.inv(),
        ensures
            r matches Some(i) ==> i < self.entries@.len() && self.entries@[i as int].0@ == key@,
            r is None ==> !self.contents().contains_key(key@),
    {
        let wanted = String::from_str(key);
        let mut i: usize = 0;
        while i < self.entries.len()
            invariant
                i <= self.entries@.len(),
                wanted@ == key@,
                forall|j: int| 0 <= j < i ==> self.entries@[j].0@ != key@,
            decreases self.entries@.len() - i,
        {
            if self.entries[i].0 == wanted {
                return Some(i);
            }
            i = i + 1;
        }
        None
    }
}

impl KvBackend for MemoryStore {
    closed spec fn contents(&self) -> Map<Seq<char>, Seq<u8>> {
        self.model@
    }

    closed spec fn inv(&self) -> bool {
        &&& forall|i: int|
            0 <= i < self.entries@.len() ==> #[trigger] self.model@.contains_key(
                self.entries@[i].0@,
            ) && self.model@[self.entries@[i].0@] == self.entries@[i].1@
        &&& forall|k: Seq<char>|
            #[trigger] self.model@.contains_key(k) ==> exists|i: int|
                0 <= i < self.entries@.len() && #[trigger] self.entries@[i].0@ == k
        &&& forall|i: int, j: int|
            0 <= i < self.entries@.len() && 0 <= j < self.entries@.len() && i != j
                ==> #[trigger] self.entries@[i].0@ != #[trigger] self.entries@[j].0@
    }

    fn get(&self, key: &str) -> (r: Result<Option<Vec<u8>>, StoreError>) {
        match self.find(key) {
            Some(i) => {
                let v = self.entries[i].1.clone();
                assert(v@ =~= self.entries@[i as int].1@);
                assert(self.model@.contains_key(self.entries@[i as int].0@));
                Ok(Some(v))
            },
            None => Ok(None),
        }
    }

    fn put(&mut self, key: &str, value: Vec<u8>) -> (r: Result<(), StoreError>) {
        let ghost v = value@;
        let ghost e0 = self.entries@;
        let ghost m0 = self.model@;
        let k = String::from_str(key);
        match self.find(key) {
            Some(i) => {
                self.entries.set(i, (k, value));
                self.model = Ghost(m0.insert(key@, v));
                assert forall|j: int| 0 <= j < e0.len() && j != i implies #[trigger] e0[j].0@ != key@ by {
                    assert(e0[j].0@ != e0[i as int].0@);
                }
                assert forall|j: int| 0 <= j < self.entries@.len() implies #[trigger] self.model@.contains_key(
                    self.entries@[j].0@,
                ) && self.model@[self.entries@[j].0@] == self.entries@[j].1@ by {
                    if j != i {
                        assert(m0.contains_key(e0[j].0@));
                    }
                }
                assert forall|c: Seq<char>| #[trigger] self.model@.contains_key(c) implies exists|j: int|
                    0 <= j < self.entries@.len() && #[trigger] self.entries@[j].0@ == c by {
                    if c == key@ {
                        assert(self.entries@[i as int].0@ == c);
                    } else {
                        assert(old(self).model@.contains_key(c));
                        assert(exists|j: int| 0 <= j < old(self).entries@.len() && #[trigger] old(self).entries@[j].0@ == c);
                        let j = choose|j: int| 0 <= j < old(self).entries@.len() && #[trigger] old(self).entries@[j].0@ == c;
                        assert(self.entries@[j].0@ == c);
                    }
                }
            },
            None => {
                self.entries.push((k, value));
                self.model = Ghost(m0.insert(key@, v));
                assert forall|j: int| 0 <= j < e0.len() implies #[trigger] e0[j].0@ != key@ by {
                    assert(m0.contains_key(e0[j].0@));
                }
                assert forall|c: Seq<char>| #[trigger] self.model@.contains_key(c) implies exists|j: int|
                    0 <= j < self.entries@.len() && #[trigger] self.entries@[j].0@ == c by {
                    if c == key@ {
                        assert(self.entries@[e0.len() as int].0@ == c);
                    } else {
                        assert(old(self).model@.contains_key(c));
                        assert(exists|j: int| 0 <= j < old(self).entries@.len() && #[trigger] old(self).entries@[j].0@ == c);
                        let j = choose|j: int| 0 <= j < old(self).entries@.len() && #[trigger] old(self).entries@[j].0@ == c;
                        assert(self.entries@[j].0@ == c);
                    }
                }
            },
        }
        Ok(())
    }

    fn delete(&mut self, key: &str) -> (r: Result<(), StoreError>) {
        match self.find(key) {
            Some(i) => {
                self.entries.remove(i);
                self.model = Ghost(self.model@.remove(key@));
                assert forall|k: Seq<char>| #[trigger] self.model@.contains_key(k) implies exists|j: int|
                    0 <= j < self.entries@.len() && #[trigger] self.entries@[j].0@ == k by {
                    assert(old(self).model@.contains_key(k));
                    let j = choose|j: int| 0 <= j < old(self).entries@.len() && #[trigger] old(self).entries@[j].0@ == k;
                    assert(j != i);
                    if j < i {
                        assert(self.entries@[j].0@ == k);
                    } else {
                        assert(self.entries@[j - 1].0@ == k);
                    }
                }
            },
            None => {
                assert(self.model@.remove(key@) =~= self.model@);
            },
        }
        Ok(())
    }
}

} // verus!
