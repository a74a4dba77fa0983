//! The cache facade: versioned get/put/delete, the collection counter,
//! sequential inserts and removals, and batch reads of a read set.
use vstd::prelude::*;
use crate::codec::{
    counter_of, lemma_counter_round_trip, lemma_entry_round_trip, decode_counter, decode_entry, encode_counter, encode_entry, entry_bytes, entry_of,
    le_bytes, peek_version,
};
use crate::keys::{
    decimal, get_index_rw_set, key_of, key_range, keys_between, lemma_decimal_starts_with_digit,
    page_keys,
};
use crate::store::KvBackend;
use crate::CacheError;

verus! {

/// A stored value with the version it was written at.
pub struct Entry {
    pub version: u32,
    pub payload: Vec<u8>,
}

impl View for Entry {
    type V = (u32, Seq<u8>);

    open spec fn view(&self) -> (u32, Seq<u8>) {
        (self.version, self.payload@)
    }
}

/// The reserved key of the collection counter.
pub open spec fn counter_key() -> Seq<char> {
    seq!['c', 'o', 'u', 'n', 't']
}

/// What a read of `k` in the store `m` yields: `None` when absent, the
/// decoded entry when well formed, `CorruptEntry` otherwise.
pub open spec fn lookup(m: Map<Seq<char>, Seq<u8>>, k: Seq<char>) -> Result<
    Option<(u32, Seq<u8>)>,
    CacheError,
> {
    if !m.contains_key(k) {
        Ok(None)
    } else {
        match entry_of(m[k]) {
            Some(e) => Ok(Some(e)),
            None => Err(CacheError::CorruptEntry),
        }
    }
}

/// The version that a write to `k` stamps: one past the stored version, or 1
/// when the key is absent.
pub open spec fn put_outcome(m: Map<Seq<char>, Seq<u8>>, k: Seq<char>) -> Result<u32, CacheError> {
    match lookup(m, k) {
        Err(e) => Err(e),
        Ok(None) => Ok(1u32),
        Ok(Some(e)) => if e.0 == u32::MAX {
            Err(CacheError::Overflow)
        } else {
            Ok((e.0 + 1) as u32)
        },
    }
}

/// The collection size recorded in `m`; an absent counter counts as zero.
pub open spec fn count_in(m: Map<Seq<char>, Seq<u8>>) -> Result<u32, CacheError> {
    if !m.contains_key(counter_key()) {
        Ok(0u32)
    } else {
        match counter_of(m[counter_key()]) {
            Some(c) => Ok(c),
            None => Err(CacheError::CorruptEntry),
        }
    }
}

/// The store after the counter is set to `c`.
pub open spec fn with_count(m: Map<Seq<char>, Seq<u8>>, c: u32) -> Map<Seq<char>, Seq<u8>> {
    m.insert(counter_key(), le_bytes(c))
}

/// The entries found under `keys`, in order, absent keys left out; the first
/// corrupt entry makes the whole read fail.
pub open spec fn listing(m: Map<Seq<char>, Seq<u8>>, keys: Seq<Seq<char>>) -> Result<
    Seq<(u32, Seq<u8>)>,
    CacheError,
>
    decreases keys.len(),
{
    if keys.len() == 0 {
        Ok(Seq::empty())
    } else {
        match listing(m, keys.drop_last()) {
            Err(e) => Err(e),
            Ok(s) => match lookup(m, keys.last()) {
                Err(e) => Err(e),
                Ok(None) => Ok(s),
                Ok(Some(e)) => Ok(s.push(e)),
            },
        }
    }
}

/// What appending at the end of the sequential collection yields: the
/// assigned index, or why nothing was written.
pub open spec fn insert_outcome(m: Map<Seq<char>, Seq<u8>>) -> Result<u32, CacheError> {
    match count_in(m) {
        Err(e) => Err(e),
        Ok(c) => if c == u32::MAX {
            Err(CacheError::Overflow)
        } else {
            match put_outcome(m, decimal(c as nat)) {
                Err(e) => Err(e),
                Ok(v) => Ok(c),
            }
        },
    }
}

/// The counter value after one decrement from `c`.
pub open spec fn lowered(c: u32) -> u32 {
    if c == 0 {
        0
    } else {
        (c - 1) as u32
    }
}

/// No sequential entry key is the counter key.
pub proof fn lemma_entry_key_not_counter(n: nat)
    ensures
        decimal(n) != counter_key(),
{
    lemma_decimal_starts_with_digit(n);
    assert(counter_key()[0] == 'c');
}

/// A batch read that fails on a prefix of the keys fails on all of them.
proof fn lemma_listing_error_persists(
    m: Map<Seq<char>, Seq<u8>>,
    keys: Seq<Seq<char>>,
    i: int,
    e: CacheError,
)
    requires
        0 <= i <= keys.len(),
        listing(m, keys.subrange(0, i)) == Err::<Seq<(u32, Seq<u8>)>, CacheError>(e),
    ensures
        listing(m, keys) == Err::<Seq<(u32, Seq<u8>)>, CacheError>(e),
    decreases keys.len(),
{
    if i == keys.len() {
        assert(keys.subrange(0, i) =~= keys);
    } else {
        assert(keys.drop_last().subrange(0, i) =~= keys.subrange(0, i));
        lemma_listing_error_persists(m, keys.drop_last(), i, e);
    }
}

/// Versions only grow: a successful write to `k` stamps a version above
/// the one stored before, a read then sees exactly what was written, and the
/// next write to `k` stamps a version above that one again.
pub proof fn law_versions_increase(
    m: Map<Seq<char>, Seq<u8>>,
    k: Seq<char>,
    payload: Seq<u8>,
    v: u32,
)
    requires
        put_outcome(m, k) == Ok::<u32, CacheError>(v),
    ensures
        lookup(m, k) matches Ok(Some(e)) ==> e.0 < v,
        lookup(m.insert(k, entry_bytes(v, payload)), k) == Ok::<
            Option<(u32, Seq<u8>)>,
            CacheError,
        >(Some((v, payload))),
        put_outcome(m.insert(k, entry_bytes(v, payload)), k) matches Ok(w) ==> v < w,
        v < u32::MAX ==> put_outcome(m.insert(k, entry_bytes(v, payload)), k) == Ok::<
            u32,
            CacheError,
        >((v + 1) as u32),
{
    lemma_entry_round_trip(v, payload);
}

/// Deleting a key twice leaves the store as deleting it once, and the key
/// reads as absent afterwards.
pub proof fn law_delete_idempotent(m: Map<Seq<char>, Seq<u8>>, k: Seq<char>)
    ensures
        m.remove(k).remove(k) == m.remove(k),
        lookup(m.remove(k), k) == Ok::<Option<(u32, Seq<u8>)>, CacheError>(None),
{
    assert(m.remove(k).remove(k) =~= m.remove(k));
}

/// Lowering a counter of zero leaves it at zero.
pub proof fn law_decrement_at_zero(m: Map<Seq<char>, Seq<u8>>)
    requires
        count_in(m) == Ok::<u32, CacheError>(0),
    ensures
        lowered(0) == 0,
        count_in(with_count(m, lowered(0))) == Ok::<u32, CacheError>(0),
{
    lemma_counter_round_trip(0);
}

/// Bytes that are no entry, written under `k`, make reads of `k` fail with
/// `CorruptEntry` and leave reads of every other key as they were.
pub proof fn law_corrupt_entry_isolated(
    m: Map<Seq<char>, Seq<u8>>,
    k: Seq<char>,
    bad: Seq<u8>,
    other: Seq<char>,
)
    requires
        entry_of(bad) is None,
        other != k,
    ensures
        lookup(m.insert(k, bad), k) == Err::<Option<(u32, Seq<u8>)>, CacheError>(
            CacheError::CorruptEntry,
        ),
        lookup(m.insert(k, bad), other) == lookup(m, other),
{
}

/// The view of a read result.
pub open spec fn read_view(r: Result<Option<Entry>, CacheError>) -> Result<
    Option<(u32, Seq<u8>)>,
    CacheError,
> {
    match r {
        Ok(Some(e)) => Ok(Some(e@)),
        Ok(None) => Ok(None),
        Err(e) => Err(e),
    }
}

/// The view of a batch read result.
pub open spec fn list_view(r: Result<Vec<Entry>, CacheError>) -> Result<
    Seq<(u32, Seq<u8>)>,
    CacheError,
> {
    match r {
        Ok(v) => Ok(v@.map_values(|e: Entry| e@)),
        Err(e) => Err(e),
    }
}

fn counter_key_str() -> (r: &'static str)
    ensures
        r@ == counter_key(),
{
    proof {
        reveal_strlit("count");
    }
    "count"
}

/// Turns what the store handed back for one key into the cache's view of it.
pub fn decode_stored(raw: Option<Vec<u8>>) -> (r: Result<Option<Entry>, CacheError>)
    ensures
        read_view(r) == (match raw {
            None => Ok(None),
            Some(b) => match entry_of(b@) {
                Some(e) => Ok(Some(e)),
                None => Err(CacheError::CorruptEntry),
            },
        }),
{
    match raw {
        None => Ok(None),
        Some(b) => match decode_entry(&b) {
            Ok((version, payload)) => Ok(Some(Entry { version, payload })),
            Err(e) => Err(e),
        },
    }
}

/// A versioned cache over the backing store `B`.
pub struct Cache<B: KvBackend> {
    pub store: B,
}

impl<B: KvBackend> View for Cache<B> {
    type V = Map<Seq<char>, Seq<u8>>;

    open spec fn view(&self) -> Map<Seq<char>, Seq<u8>> {
        self.store.contents()
    }
}

impl<B: KvBackend> Cache<B> {
    /// The cache is usable while its store is well formed.
    pub open spec fn wf(&self) -> bool {
        self.store.inv()
    }

    /// A cache that writes through `store`.
    pub fn new(store: B) -> (r: Cache<B>)
        requires
            store.inv(),
        ensures
            r.wf(),
            r@ == store.contents(),
    {
        Cache { store }
    }

    /// Reads the entry under `key`.
    pub fn get(&self, key: &str) -> (r: Result<Option<Entry>, CacheError>)
        requires
            self.wf(),
        ensures
            r matches Err(CacheError::BackendUnavailable) || read_view(r) == lookup(self@, key@),
    {
        match self.store.get(key) {
            Ok(raw) => decode_stored(raw),
            Err(_) => Err(CacheError::BackendUnavailable),
        }
    }

    /// Writes `payload` under `key`, stamped one version past the stored one
    /// (version 1 for a new key). Returns the version written.
    pub fn put(&mut self, key: &str, payload: Vec<u8>) -> (r: Result<u32, CacheError>)
        requires
            old(self).wf(),
        ensures
            final(self).wf(),
            r matches Err(CacheError::BackendUnavailable) || r == put_outcome(old(self)@, key@),
            r matches Ok(v) ==> final(self)@ == old(self)@.insert(key@, entry_bytes(v, payload@)),
            r is Err ==> (final(self)@ == old(self)@ || (put_outcome(old(self)@, key@) matches Ok(v)
                && final(self)@ == old(self)@.insert(key@, entry_bytes(v, payload@)))),
            (r is Err && !(r matches Err(CacheError::BackendUnavailable))) ==> final(self)@ == old(
                self,
            )@,
    {
        let version: u32 = match self.store.get(key) {
            Err(_) => return Err(CacheError::BackendUnavailable),
            Ok(None) => 1,
            Ok(Some(b)) => {
                let v = match peek_version(&b) {
                    Ok(v) => v,
                    Err(e) => return Err(e),
                };
                if v == u32::MAX {
                    return Err(CacheError::Overflow);
                }
                v + 1
            },
        };
        let bytes = encode_entry(version, &payload);
        match self.store.put(key, bytes) {
            Ok(()) => Ok(version),
            Err(_) => Err(CacheError::BackendUnavailable),
        }
    }

    /// Removes the entry under `key`; removing an absent key succeeds and
    /// changes nothing.
    pub fn delete(&mut self, key: &str) -> (r: Result<(), CacheError>)
        requires
            old(self).wf(),
        ensures
            final(self).wf(),
            r is Ok ==> final(self)@ == old(self)@.remove(key@),
            r is Err ==> r == Err::<(), CacheError>(CacheError::BackendUnavailable) && (final(self)@
                == old(self)@ || final(self)@ == old(self)@.remove(key@)),
    {
        match self.store.delete(key) {
            Ok(()) => Ok(()),
            Err(_) => Err(CacheError::BackendUnavailable),
        }
    }

    /// The number of entries in the sequential collection.
    pub fn count(&self) -> (r: Result<u32, CacheError>)
        requires
            self.wf(),
        ensures
            r matches Err(CacheError::BackendUnavailable) || r == count_in(self@),
    {
        match self.store.get(counter_key_str()) {
            Err(_) => Err(CacheError::BackendUnavailable),
            Ok(None) => Ok(0),
            Ok(Some(b)) => decode_counter(&b),
        }
    }

    fn write_count(&mut self, c: u32) -> (r: Result<(), CacheError>)
        requires
            old(self).wf(),
        ensures
            final(self).wf(),
            r is Ok ==> final(self)@ == with_count(old(self)@, c),
            r is Err ==> r == Err::<(), CacheError>(CacheError::BackendUnavailable) && (final(self)@
                == old(self)@ || final(self)@ == with_count(old(self)@, c)),
    {
        match self.store.put(counter_key_str(), encode_counter(c)) {
            Ok(()) => Ok(()),
            Err(_) => Err(CacheError::BackendUnavailable),
        }
    }

    /// Sets the counter to zero.
    pub fn reset(&mut self) -> (r: Result<(), CacheError>)
        requires
            old(self).wf(),
        ensures
            final(self).wf(),
            r is Ok ==> final(self)@ == with_count(old(self)@, 0),
            r is Err ==> r == Err::<(), CacheError>(CacheError::BackendUnavailable),
    {
        self.write_count(0)
    }

    /// Raises the counter by one: a read followed by a write, not atomic.
    /// Returns the new count.
    pub fn increment(&mut self) -> (r: Result<u32, CacheError>)
        requires
            old(self).wf(),
        ensures
            final(self).wf(),
            r matches Err(CacheError::BackendUnavailable) || r == (match count_in(old(self)@) {
                Ok(c) => if c < u32::MAX {
                    Ok((c + 1) as u32)
                } else {
                    Err(CacheError::Overflow)
                },
                Err(e) => Err(e),
            }),
            r matches Ok(n) ==> final(self)@ == with_count(old(self)@, n),
            (r is Err && !(r matches Err(CacheError::BackendUnavailable))) ==> final(self)@ == old(
                self,
            )@,
    {
        let c = match self.count() {
            Ok(c) => c,
            Err(e) => return Err(e),
        };
        if c == u32::MAX {
            return Err(CacheError::Overflow);
        }
        match self.write_count(c + 1) {
            Ok(()) => Ok(c + 1),
            Err(e) => Err(e),
        }
    }

    /// Lowers the counter by one; at zero it stays at zero, and that is no
    /// error. Returns the new count.
    pub fn decrement(&mut self) -> (r: Result<u32, CacheError>)
        requires
            old(self).wf(),
        ensures
            final(self).wf(),
            r matches Err(CacheError::BackendUnavailable) || r == (match count_in(old(self)@) {
                Ok(c) => Ok(
                    if c == 0 {
                        0u32
                    } else {
                        (c - 1) as u32
                    },
                ),
                Err(e) => Err(e),
            }),
            r matches Ok(n) ==> final(self)@ == with_count(old(self)@, n),
            (r is Err && !(r matches Err(CacheError::BackendUnavailable))) ==> final(self)@ == old(
                self,
            )@,
    {
        let c = match self.count() {
            Ok(c) => c,
            Err(e) => return Err(e),
        };
        let next: u32 = if c == 0 {
            0
        } else {
            c - 1
        };
        match self.write_count(next) {
            Ok(()) => Ok(next),
            Err(e) => Err(e),
        }
    }

    /// Appends `payload` to the sequential collection under the key
    /// `str(count)`, then raises the counter. The entry is written before
    /// the counter moves, so a failure in between leaves the counter short
    /// rather than pointing past what was written. Returns the assigned index.
    pub fn insert_sequential(&mut self, payload: Vec<u8>) -> (r: Result<u32, CacheError>)
        requires
            old(self).wf(),
        ensures
            final(self).wf(),
            r matches Err(CacheError::BackendUnavailable) || r == insert_outcome(old(self)@),
            r matches Ok(id) ==> (put_outcome(old(self)@, decimal(id as nat)) matches Ok(v)
                && final(self)@ == with_count(
                old(self)@.insert(decimal(id as nat), entry_bytes(v, payload@)),
                (id + 1) as u32,
            )),
            (r is Err && !(r matches Err(CacheError::BackendUnavailable))) ==> final(self)@ == old(
                self,
            )@,
    {
        let c = match self.count() {
            Ok(c) => c,
            Err(e) => return Err(e),
        };
        if c == u32::MAX {
            return Err(CacheError::Overflow);
        }
        let key = key_of(c as u64);
        let ghost m0 = self@;
        match self.put(key.as_str(), payload) {
            Ok(_) => {},
            Err(e) => return Err(e),
        }
        proof {
            lemma_entry_key_not_counter(c as nat);
            assert(self@.contains_key(counter_key()) == m0.contains_key(counter_key()));
            assert(count_in(self@) == count_in(m0));
        }
        match self.increment() {
            Ok(_) => Ok(c),
            Err(e) => Err(e),
        }
    }

    /// Removes the entry with index `id` and lowers the counter. Later
    /// entries keep their indices, so the collection may have gaps. The
    /// counter is lowered even when the entry was already absent. Returns the
    /// new count.
    pub fn remove_sequential(&mut self, id: u32) -> (r: Result<u32, CacheError>)
        requires
            old(self).wf(),
        ensures
            final(self).wf(),
            r matches Err(CacheError::BackendUnavailable) || r == (match count_in(old(self)@) {
                Ok(c) => Ok(lowered(c)),
                Err(e) => Err(e),
            }),
            r matches Ok(n) ==> final(self)@ == with_count(old(self)@.remove(decimal(id as nat)), n),
            (r is Err && !(r matches Err(CacheError::BackendUnavailable))) ==> final(self)@ == old(
                self,
            )@.remove(decimal(id as nat)),
    {
        let key = key_of(id as u64);
        let ghost m0 = self@;
        match self.delete(key.as_str()) {
            Ok(()) => {},
            Err(e) => return Err(e),
        }
        proof {
            lemma_entry_key_not_counter(id as nat);
            assert(self@.contains_key(counter_key()) == m0.contains_key(counter_key()));
            assert(count_in(self@) == count_in(m0));
        }
        self.decrement()
    }

    /// The read set of the whole sequential collection:
    /// `str(0) .. str(count - 1)`.
    pub fn derive_full_read_set(&self) -> (r: Result<Vec<String>, CacheError>)
        requires
            self.wf(),
        ensures
            r matches Err(CacheError::BackendUnavailable) || match count_in(self@) {
                Ok(c) => r matches Ok(ks) && ks@.map_values(|s: String| s@) == key_range(
                    0,
                    c as nat,
                ),
                Err(e) => r == Err::<Vec<String>, CacheError>(e),
            },
    {
        match self.count() {
            Ok(c) => Ok(keys_between(0, c as u64)),
            Err(e) => Err(e),
        }
    }

    /// The read set of one page; see [`get_index_rw_set`]. The live counter
    /// is not consulted.
    pub fn derive_page_read_set(&self, page_number: u32, page_size: u32) -> (r: Result<
        Vec<String>,
        CacheError,
    >)
        ensures
            (page_number == 0 || page_size == 0) <==> r is Err,
            r is Err ==> r == Err::<Vec<String>, CacheError>(CacheError::InvalidPageRequest),
            r matches Ok(keys) ==> keys@.map_values(|s: String| s@) == page_keys(
                page_number as nat,
                page_size as nat,
            ),
    {
        get_index_rw_set(page_number, page_size)
    }

    /// Reads every key of `keys` in order and returns the entries found;
    /// absent keys are left out, so the result may be shorter than `keys`.
    pub fn read_collection(&self, keys: &Vec<String>) -> (r: Result<Vec<Entry>, CacheError>)
        requires
            self.wf(),
        ensures
            r matches Err(CacheError::BackendUnavailable) || list_view(r) == listing(
                self@,
                keys@.map_values(|s: String| s@),
            ),
    {
        let ghost ks = keys@.map_values(|s: String| s@);
        let mut out: Vec<Entry> = Vec::new();
        let mut i: usize = 0;
        assert(ks.subrange(0, 0) =~= Seq::<Seq<char>>::empty());
        assert(out@.map_values(|e: Entry| e@) =~= Seq::<(u32, Seq<u8>)>::empty());
        while i < keys.len()
            invariant
                self.wf(),
                i <= keys@.len(),
                ks == keys@.map_values(|s: String| s@),
                listing(self@, ks.subrange(0, i as int)) == Ok::<Seq<(u32, Seq<u8>)>, CacheError>(
                    out@.map_values(|e: Entry| e@),
                ),
            decreases keys@.len() - i,
        {
            let ghost before = out@;
            assert(ks.subrange(0, i + 1).drop_last() =~= ks.subrange(0, i as int));
            assert(ks.subrange(0, i + 1).last() == keys@[i as int]@);
            match self.get(keys[i].as_str()) {
                Ok(Some(e)) => {
                    out.push(e);
                    assert(out@.map_values(|e: Entry| e@) =~= before.map_values(|e: Entry| e@).push(
                        e@,
                    ));
                },
                Ok(None) => {},
                Err(e) => {
                    if !matches!(e, CacheError::BackendUnavailable) {
                        proof {
                            lemma_listing_error_persists(self@, ks, i + 1, e);
                        }
                    }
                    return Err(e);
                },
            }
            i = i + 1;
        }
        assert(ks.subrange(0, i as int) =~= ks);
        Ok(out)
    }
}

} // verus!
