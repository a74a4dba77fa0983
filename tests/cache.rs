use radical_ssr::cache::decode_stored;
use radical_ssr::codec::{decode_counter, decode_entry, encode_counter, encode_entry, peek_version};
use radical_ssr::{
    get_index_rw_set, key_of, Cache, CacheError, CachedPost, KvBackend, MemoryStore, Post,
};

fn empty_cache() -> Cache<MemoryStore> {
    Cache::new(MemoryStore::new())
}

fn strings(v: &[&str]) -> Vec<String> {
    v.iter().map(|s| s.to_string()).collect()
}

#[test]
fn put_stamps_increasing_versions() {
    let mut c = empty_cache();
    assert_eq!(c.put("a", vec![1]), Ok(1));
    assert_eq!(c.put("a", vec![2]), Ok(2));
    assert_eq!(c.put("a", vec![3]), Ok(3));
    assert_eq!(c.put("b", vec![4]), Ok(1));
    let e = c.get("a").unwrap().unwrap();
    assert_eq!(e.version, 3);
    assert_eq!(e.payload, vec![3]);
}

#[test]
fn put_at_largest_version_overflows() {
    let mut c = empty_cache();
    c.store.put("k", encode_entry(u32::MAX, &vec![7])).unwrap();
    assert_eq!(c.put("k", vec![8]), Err(CacheError::Overflow));
    let e = c.get("k").unwrap().unwrap();
    assert_eq!(e.version, u32::MAX);
    assert_eq!(e.payload, vec![7]);
}

#[test]
fn delete_twice_succeeds() {
    let mut c = empty_cache();
    c.put("k", vec![1]).unwrap();
    assert_eq!(c.delete("k"), Ok(()));
    assert_eq!(c.delete("k"), Ok(()));
    assert!(c.get("k").unwrap().is_none());
    assert_eq!(c.delete("never"), Ok(()));
}

#[test]
fn absent_key_reads_as_none() {
    let c = empty_cache();
    assert!(c.get("missing").unwrap().is_none());
    assert_eq!(c.count(), Ok(0));
}

#[test]
fn decrement_at_zero_stays_zero() {
    let mut c = empty_cache();
    assert_eq!(c.decrement(), Ok(0));
    assert_eq!(c.count(), Ok(0));
    assert_eq!(c.increment(), Ok(1));
    assert_eq!(c.increment(), Ok(2));
    assert_eq!(c.decrement(), Ok(1));
    assert_eq!(c.count(), Ok(1));
}

#[test]
fn reset_sets_counter_to_zero() {
    let mut c = empty_cache();
    c.increment().unwrap();
    c.increment().unwrap();
    assert_eq!(c.reset(), Ok(()));
    assert_eq!(c.count(), Ok(0));
}

#[test]
fn increment_at_largest_count_overflows() {
    let mut c = empty_cache();
    c.store.put("count", encode_counter(u32::MAX)).unwrap();
    assert_eq!(c.increment(), Err(CacheError::Overflow));
    assert_eq!(c.insert_sequential(vec![1]), Err(CacheError::Overflow));
    assert!(c.get("4294967295").unwrap().is_none());
    assert_eq!(c.count(), Ok(u32::MAX));
}

#[test]
fn corrupt_counter_is_reported() {
    let mut c = empty_cache();
    c.store.put("count", vec![1, 2, 3]).unwrap();
    assert_eq!(c.count(), Err(CacheError::CorruptEntry));
    assert_eq!(c.increment(), Err(CacheError::CorruptEntry));
    assert_eq!(c.derive_full_read_set(), Err(CacheError::CorruptEntry));
}

#[test]
fn sequential_append_assigns_consecutive_ids() {
    let mut c = empty_cache();
    assert_eq!(c.insert_sequential(b"v1".to_vec()), Ok(0));
    assert_eq!(c.insert_sequential(b"v2".to_vec()), Ok(1));
    assert_eq!(c.insert_sequential(b"v3".to_vec()), Ok(2));
    assert_eq!(c.count(), Ok(3));
    assert_eq!(c.derive_full_read_set(), Ok(strings(&["0", "1", "2"])));
}

#[test]
fn removal_leaves_a_gap_that_reads_skip() {
    let mut c = empty_cache();
    c.insert_sequential(b"v1".to_vec()).unwrap();
    c.insert_sequential(b"v2".to_vec()).unwrap();
    c.insert_sequential(b"v3".to_vec()).unwrap();
    assert_eq!(c.remove_sequential(1), Ok(2));
    assert_eq!(c.count(), Ok(2));
    let keys = c.derive_full_read_set().unwrap();
    assert_eq!(keys, strings(&["0", "1"]));
    // The full read set now stops before "2"; read the first three keys to
    // see both survivors.
    let all = c.read_collection(&strings(&["0", "1", "2"])).unwrap();
    assert_eq!(all.len(), 2);
    assert_eq!(all[0].payload, b"v1".to_vec());
    assert_eq!(all[1].payload, b"v3".to_vec());
    let listed = c.read_collection(&keys).unwrap();
    assert_eq!(listed.len(), 1);
    assert_eq!(listed[0].payload, b"v1".to_vec());
}

#[test]
fn remove_of_absent_entry_still_lowers_counter() {
    let mut c = empty_cache();
    c.insert_sequential(vec![1]).unwrap();
    c.insert_sequential(vec![2]).unwrap();
    assert_eq!(c.remove_sequential(7), Ok(1));
    assert_eq!(c.count(), Ok(1));
}

#[test]
fn page_read_set_ignores_counter() {
    let expected: Vec<String> = (10..20).map(|i: u32| i.to_string()).collect();
    assert_eq!(get_index_rw_set(2, 10), Ok(expected.clone()));
    let mut c = empty_cache();
    c.insert_sequential(vec![1]).unwrap();
    assert_eq!(c.derive_page_read_set(2, 10), Ok(expected));
    assert_eq!(get_index_rw_set(1, 3), Ok(strings(&["0", "1", "2"])));
}

#[test]
fn page_read_set_at_largest_page() {
    assert_eq!(get_index_rw_set(u32::MAX, 1), Ok(strings(&["4294967294"])));
    assert_eq!(get_index_rw_set(u32::MAX, 2), Ok(strings(&["8589934588", "8589934589"])));
}

#[test]
fn page_zero_is_rejected() {
    assert_eq!(get_index_rw_set(0, 10), Err(CacheError::InvalidPageRequest));
    assert_eq!(get_index_rw_set(1, 0), Err(CacheError::InvalidPageRequest));
    let c = empty_cache();
    assert_eq!(c.derive_page_read_set(0, 10), Err(CacheError::InvalidPageRequest));
}

#[test]
fn corrupt_entry_is_isolated() {
    let mut c = empty_cache();
    c.put("4", b"four".to_vec()).unwrap();
    c.put("6", b"six".to_vec()).unwrap();
    c.store.put("5", vec![0xde, 0xad]).unwrap();
    assert_eq!(c.get("5").err(), Some(CacheError::CorruptEntry));
    assert_eq!(c.get("4").unwrap().unwrap().payload, b"four".to_vec());
    assert_eq!(c.get("6").unwrap().unwrap().payload, b"six".to_vec());
    assert_eq!(c.put("5", vec![1]), Err(CacheError::CorruptEntry));
    let r = c.read_collection(&strings(&["4", "5", "6"]));
    assert_eq!(r.err(), Some(CacheError::CorruptEntry));
    assert_eq!(c.read_collection(&strings(&["4", "6", "7"])).unwrap().len(), 2);
}

#[test]
fn entry_encoding_layout() {
    let b = encode_entry(0x0102_0304, &vec![9, 8]);
    assert_eq!(b, vec![0xC5, 0x56, 4, 3, 2, 1, 9, 8]);
    assert_eq!(peek_version(&b), Ok(0x0102_0304));
    assert_eq!(decode_entry(&b), Ok((0x0102_0304, vec![9, 8])));
    assert_eq!(decode_entry(&vec![0xC5, 0x56, 1]), Err(CacheError::CorruptEntry));
    assert_eq!(peek_version(&vec![0, 0x56, 1, 0, 0, 0]), Err(CacheError::CorruptEntry));
    assert_eq!(decode_entry(&encode_entry(5, &vec![])), Ok((5, vec![])));
}

#[test]
fn counter_encoding_layout() {
    assert_eq!(encode_counter(258), vec![2, 1, 0, 0]);
    assert_eq!(decode_counter(&vec![2, 1, 0, 0]), Ok(258));
    assert_eq!(decode_counter(&vec![2, 1, 0]), Err(CacheError::CorruptEntry));
}

#[test]
fn decode_stored_cases() {
    assert!(decode_stored(None).unwrap().is_none());
    let e = decode_stored(Some(encode_entry(3, &vec![1, 2]))).unwrap().unwrap();
    assert_eq!((e.version, e.payload), (3, vec![1, 2]));
    assert_eq!(decode_stored(Some(vec![1])).err(), Some(CacheError::CorruptEntry));
}

#[test]
fn decimal_keys() {
    assert_eq!(key_of(0), "0");
    assert_eq!(key_of(7), "7");
    assert_eq!(key_of(10), "10");
    assert_eq!(key_of(1234), "1234");
    assert_eq!(key_of(u64::MAX), u64::MAX.to_string());
}

#[test]
fn cached_post_keeps_version_and_post() {
    let post = Post {
        id: 3,
        title: "t".to_string(),
        content: "c".to_string(),
        created_at: None,
    };
    let cp = CachedPost::new(4, post);
    assert_eq!(cp.version, 4);
    assert_eq!(cp.post.id, 3);
    assert_eq!(cp.post.title, "t");
}
