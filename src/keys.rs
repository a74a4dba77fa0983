//! Storage keys: decimal names of sequential entries and read/write-set derivation.
use vstd::prelude::*;
use crate::CacheError;

verus! {

/// The character of a single decimal digit.
pub open spec fn digit_char(d: nat) -> char {
    if d == 0 { '0' }
    else if d == 1 { '1' }
    else if d == 2 { '2' }
    else if d == 3 { '3' }
    else if d == 4 { '4' }
    else if d == 5 { '5' }
    else if d == 6 { '6' }
    else if d == 7 { '7' }
    else if d == 8 { '8' }
    else { '9' }
}

/// The decimal representation of `n`, without leading zeros.
pub open spec fn decimal(n: nat) -> Seq<char>
    decreases n,
{
    if n < 10 {
        seq![digit_char(n)]
    } else {
        decimal(n / 10).push(digit_char(n % 10))
    }
}

/// The keys `str(lo), str(lo + 1), ..., str(hi - 1)`.
pub open spec fn key_range(lo: nat, hi: nat) -> Seq<Seq<char>> {
    Seq::new((hi - lo) as nat, |i: int| decimal((lo + i) as nat))
}

/// The keys of page `page_number` (1-based) of `page_size` entries.
pub open spec fn page_keys(page_number: nat, page_size: nat) -> Seq<Seq<char>> {
    key_range(((page_number - 1) * page_size) as nat, page_number * page_size)
}

/// A decimal key is never empty and starts with a digit.
pub proof fn lemma_decimal_starts_with_digit(n: nat)
    ensures
        decimal(n).len() >= 1,
        '0' <= decimal(n)[0] <= '9',
    decreases n,
{
    if n >= 10 {
        lemma_decimal_starts_with_digit(n / 10);
    }
}

fn digit_str(d: u64) -> (r: &'static str)
    requires
        d < 10,
    ensures
        r@ == seq![digit_char(d as nat)],
{
    if d == 0 {
        proof { reveal_strlit("0"); }
        "0"
    } else if d == 1 {
        proof { reveal_strlit("1"); }
        "1"
    } else if d == 2 {
        proof { reveal_strlit("2"); }
        "2"
    } else if d == 3 {
        proof { reveal_strlit("3"); }
        "3"
    } else if d == 4 {
        proof { reveal_strlit("4"); }
        "4"
    } else if d == 5 {
        proof { reveal_strlit("5"); }
        "5"
    } else if d == 6 {
        proof { reveal_strlit("6"); }
        "6"
    } else if d == 7 {
        proof { reveal_strlit("7"); }
        "7"
    } else if d == 8 {
        proof { reveal_strlit("8"); }
        "8"
    } else {
        proof { reveal_strlit("9"); }
        "9"
    }
}

/// The storage key of the sequential entry with index `n`.
pub fn key_of(n: u64) -> (r: String)
    ensures
        r@ == decimal(n as nat),
    decreases n,
{
    if n < 10 {
        String::from_str(digit_str(n))
    } else {
        let mut s = key_of(n / 10);
        s.append(digit_str(n % 10));
        s
    }
}

/// The keys `str(lo) .. str(hi - 1)`, in increasing order.
pub(crate) fn keys_between(lo: u64, hi: u64) -> (r: Vec<String>)
    requires
        lo <= hi,
    ensures
        r@.map_values(|s: String| s@) == key_range(lo as nat, hi as nat),
{
    let mut r: Vec<String> = Vec::new();
    let mut i: u64 = lo;
    while i < hi
        invariant
            lo <= i <= hi,
            r@.map_values(|s: String| s@) == key_range(lo as nat, i as nat),
        decreases hi - i,
    {
        let k = key_of(i);
        let ghost before = r@;
        r.push(k);
        assert(r@ == before.push(k));
        assert(r@.map_values(|s: String| s@) =~= before.map_values(|s: String| s@).push(k@));
        assert(key_range(lo as nat, (i + 1) as nat) =~= key_range(lo as nat, i as nat).push(
            decimal(i as nat),
        ));
        i = i + 1;
    }
    assert(r@.map_values(|s: String| s@) =~= key_range(lo as nat, hi as nat));
    r
}

/// The read set of one page of a sequential collection: the keys
/// `str((page_num - 1) * page_size) .. str(page_num * page_size - 1)`.
/// Pages are numbered from 1. Nothing is checked against the live counter:
/// keys past the end of the collection are simply absent when read.
pub fn get_index_rw_set(page_num: u32, page_size: u32) -> (r: Result<Vec<String>, CacheError>)
    ensures
        (page_num == 0 || page_size == 0) <==> r is Err,
        r is Err ==> r == Err::<Vec<String>, CacheError>(CacheError::InvalidPageRequest),
        r matches Ok(keys) ==> keys@.map_values(|s: String| s@) == page_keys(
            page_num as nat,
            page_size as nat,
        ),
{
    if page_num == 0 || page_size == 0 {
        return Err(CacheError::InvalidPageRequest);
    }
    let n = page_num as u64;
    let z = page_size as u64;
    assert(0 <= (n - 1) * z <= n * z <= 0xffff_ffff * 0xffff_ffff) by (nonlinear_arith)
        requires
            1 <= n <= 0xffff_ffff,
            1 <= z <= 0xffff_ffff,
    ;
    let lo: u64 = (n - 1) * z;
    let hi: u64 = n * z;
    Ok(keys_between(lo, hi))
}

} // verus!
