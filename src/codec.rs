//! Byte encoding of versioned entries and of the collection counter.
//!
//! An entry is laid out as two tag bytes, the version as four little-endian
//! bytes, then the payload. The version always sits at offsets 2..6, so it can
//! be read without copying the payload.
use vstd::prelude::*;
use crate::CacheError;

verus! {

/// First tag byte of an encoded entry.
pub const ENTRY_TAG_0: u8 = 0xC5;
/// Second tag byte of an encoded entry.
pub const ENTRY_TAG_1: u8 = 0x56;
/// Length of the entry header: tag and version.
pub const HEADER_LEN: usize = 6;

/// The four little-endian bytes of `v`.
pub open spec fn le_bytes(v: u32) -> Seq<u8> {
    seq![
        (v & 0xff) as u8,
        ((v >> 8u32) & 0xff) as u8,
        ((v >> 16u32) & 0xff) as u8,
        ((v >> 24u32) & 0xff) as u8,
    ]
}

/// The number whose little-endian bytes are `b0, b1, b2, b3`.
pub open spec fn from_le(b0: u8, b1: u8, b2: u8, b3: u8) -> u32 {
    (b0 as u32) | ((b1 as u32) << 8u32) | ((b2 as u32) << 16u32) | ((b3 as u32) << 24u32)
}

/// The bytes of an entry holding `payload` at `version`.
pub open spec fn entry_bytes(version: u32, payload: Seq<u8>) -> Seq<u8> {
    seq![ENTRY_TAG_0, ENTRY_TAG_1] + le_bytes(version) + payload
}

/// The version and payload that `b` encodes, or `None` when `b` is no entry.
pub open spec fn entry_of(b: Seq<u8>) -> Option<(u32, Seq<u8>)> {
    if b.len() >= HEADER_LEN && b[0] == ENTRY_TAG_0 && b[1] == ENTRY_TAG_1 {
        Some((from_le(b[2], b[3], b[4], b[5]), b.subrange(HEADER_LEN as int, b.len() as int)))
    } else {
        None
    }
}

/// The value of the counter that `b` encodes, or `None` when `b` is no counter.
pub open spec fn counter_of(b: Seq<u8>) -> Option<u32> {
    if b.len() == 4 {
        Some(from_le(b[0], b[1], b[2], b[3]))
    } else {
        None
    }
}

proof fn lemma_le_round_trip(v: u32)
    ensures
        from_le(le_bytes(v)[0], le_bytes(v)[1], le_bytes(v)[2], le_bytes(v)[3]) == v,
{
    let b0 = (v & 0xff) as u8;
    let b1 = ((v >> 8u32) & 0xff) as u8;
    let b2 = ((v >> 16u32) & 0xff) as u8;
    let b3 = ((v >> 24u32) & 0xff) as u8;
    assert((b0 as u32) | ((b1 as u32) << 8u32) | ((b2 as u32) << 16u32) | ((b3 as u32) << 24u32)
        == v) by (bit_vector)
        requires
            b0 == (v & 0xff) as u8,
            b1 == ((v >> 8u32) & 0xff) as u8,
            b2 == ((v >> 16u32) & 0xff) as u8,
            b3 == ((v >> 24u32) & 0xff) as u8,
    ;
}

/// Decoding an encoded entry gives back its version and payload.
pub proof fn lemma_entry_round_trip(version: u32, payload: Seq<u8>)
    ensures
        entry_of(entry_bytes(version, payload)) == Some((version, payload)),
{
    let b = entry_bytes(version, payload);
    lemma_le_round_trip(version);
    assert(b.subrange(HEADER_LEN as int, b.len() as int) =~= payload);
}

/// Decoding an encoded counter gives back its value.
pub proof fn lemma_counter_round_trip(v: u32)
    ensures
        counter_of(le_bytes(v)) == Some(v),
{
    lemma_le_round_trip(v);
}

/// Appends the four little-endian bytes of `v` to `out`.
fn push_le(out: &mut Vec<u8>, v: u32)
    ensures
        final(out)@ == old(out)@ + le_bytes(v),
{
    out.push((v & 0xff) as u8);
    out.push(((v >> 8u32) & 0xff) as u8);
    out.push(((v >> 16u32) & 0xff) as u8);
    out.push(((v >> 24u32) & 0xff) as u8);
    assert(final(out)@ =~= old(out)@ + le_bytes(v));
}

/// Reads four little-endian bytes of `b` starting at `at`.
fn read_le(b: &Vec<u8>, at: usize) -> (r: u32)
    requires
        at + 4 <= b@.len(),
    ensures
        r == from_le(b@[at as int], b@[at + 1], b@[at + 2], b@[at + 3]),
{
    let len = b.len();
    assert(at + 3 < len);
    (b[at] as u32) | ((b[at + 1] as u32) << 8u32) | ((b[at + 2] as u32) << 16u32) | ((
    b[at + 3] as u32) << 24u32)
}

/// The bytes of the counter value `v`.
pub fn encode_counter(v: u32) -> (r: Vec<u8>)
    ensures
        r@ == le_bytes(v),
{
    let mut r: Vec<u8> = Vec::new();
    push_le(&mut r, v);
    assert(r@ =~= le_bytes(v));
    r
}

/// The counter value held in `b`; `CorruptEntry` when `b` holds no counter.
pub fn decode_counter(b: &Vec<u8>) -> (r: Result<u32, CacheError>)
    ensures
        r == (match counter_of(b@) {
            Some(v) => Ok::<u32, CacheError>(v),
            None => Err(CacheError::CorruptEntry),
        }),
{
    if b.len() == 4 {
        Ok(read_le(b, 0))
    } else {
        Err(CacheError::CorruptEntry)
    }
}

/// The bytes of an entry holding `payload` at `version`.
pub fn encode_entry(version: u32, payload: &Vec<u8>) -> (r: Vec<u8>)
    ensures
        r@ == entry_bytes(version, payload@),
{
    let mut r: Vec<u8> = Vec::new();
    r.push(ENTRY_TAG_0);
    r.push(ENTRY_TAG_1);
    push_le(&mut r, version);
    let mut i: usize = 0;
    while i < payload.len()
        invariant
            i <= payload@.len(),
            r@ == seq![ENTRY_TAG_0, ENTRY_TAG_1] + le_bytes(version) + payload@.subrange(0, i as int),
        decreases payload@.len() - i,
    {
        r.push(payload[i]);
        i = i + 1;
        assert(r@ =~= seq![ENTRY_TAG_0, ENTRY_TAG_1] + le_bytes(version) + payload@.subrange(0, i as int));
    }
    assert(payload@.subrange(0, i as int) =~= payload@);
    r
}

/// True when `b` starts with an entry header.
fn has_header(b: &Vec<u8>) -> (r: bool)
    ensures
        r == (b@.len() >= HEADER_LEN && b@[0] == ENTRY_TAG_0 && b@[1] == ENTRY_TAG_1),
{
    b.len() >= HEADER_LEN && b[0] == ENTRY_TAG_0 && b[1] == ENTRY_TAG_1
}

/// The version of the entry in `b`, read from the header alone.
pub fn peek_version(b: &Vec<u8>) -> (r: Result<u32, CacheError>)
    ensures
        r == (match entry_of(b@) {
            Some(e) => Ok::<u32, CacheError>(e.0),
            None => Err(CacheError::CorruptEntry),
        }),
{
    if has_header(b) {
        Ok(read_le(b, 2))
    } else {
        Err(CacheError::CorruptEntry)
    }
}

/// The version and payload of the entry in `b`; `CorruptEntry` when `b` is
/// not an entry.
pub fn decode_entry(b: &Vec<u8>) -> (r: Result<(u32, Vec<u8>), CacheError>)
    ensures
        match entry_of(b@) {
            Some(e) => r matches Ok(d) && d.0 == e.0 && d.1@ == e.1,
            None => r == Err::<(u32, Vec<u8>), CacheError>(CacheError::CorruptEntry),
        },
{
    if !has_header(b) {
        return Err(CacheError::CorruptEntry);
    }
    let version = read_le(b, 2);
    let mut payload: Vec<u8> = Vec::new();
    let mut i: usize = HEADER_LEN;
    while i < b.len()
        invariant
            HEADER_LEN <= i <= b@.len(),
            payload@ == b@.subrange(HEADER_LEN as int, i as int),
        decreases b@.len() - i,
    {
        payload.push(b[i]);
        i = i + 1;
        assert(payload@ =~= b@.subrange(HEADER_LEN as int, i as int));
    }
    Ok((version, payload))
}

} // verus!
