//! Checks around decoding a runtime call from fuzzer input and encoding it
//! again.
use vstd::prelude::*;

verus! {

/// Whether the two bytes `pair` occur next to each other somewhere in `data`.
pub open spec fn contains_pair(data: Seq<u8>, pair: Seq<u8>) -> bool {
    exists|i: int| 0 <= i && i + 1 < data.len() && #[trigger] data[i] == pair[0] && data[i + 1] == pair[1]
}

/// Whether `data` holds any of the byte pairs of `blocklist`.
pub open spec fn blocklisted(blocklist: Seq<[u8; 2]>, data: Seq<u8>) -> bool {
    exists|k: int| 0 <= k < blocklist.len() && contains_pair(data, #[trigger] blocklist[k]@)
}

fn pair_occurs(pair: &[u8; 2], data: &[u8]) -> (res: bool)
    ensures
        res == contains_pair(data@, pair@),
{
    let len = data.len();
    if len < 2 {
        return false;
    }
    let a = pair[0];
    let b = pair[1];
    let mut i: usize = 0;
    while i + 1 < len
        invariant
            len == data@.len(),
            len >= 2,
            i + 1 <= len,
            a == pair@[0],
            b == pair@[1],
            forall|j: int| 0 <= j < i ==> !(#[trigger] data@[j] == a && data@[j + 1] == b),
        decreases len - i,
    {
        if data[i] == a && data[i + 1] == b {
            return true;
        }
        i = i + 1;
    }
    proof {
        assert forall|j: int| 0 <= j && j + 1 < data@.len() implies !(#[trigger] data@[j] == pair@[0]
            && data@[j + 1] == pair@[1]) by {
            assert(j < i);
        }
    }
    false
}

/// Whether the input contains one of the blocked two-byte sequences, which
/// mark calls known to break the encoding round trip.
pub fn is_blocklisted(blocklist: &[[u8; 2]], data: &[u8]) -> (res: bool)
    ensures
        res == blocklisted(blocklist@, data@),
{
    let mut k: usize = 0;
    while k < blocklist.len()
        invariant
            k <= blocklist@.len(),
            forall|j: int| 0 <= j < k ==> !contains_pair(data@, #[trigger] blocklist@[j]@),
        decreases blocklist@.len() - k,
    {
        if pair_occurs(&blocklist[k], data) {
            return true;
        }
        k = k + 1;
    }
    false
}

/// Whether re-encoding a decoded value gives back exactly the bytes the
/// decoder consumed: the front of `data` up to the `remaining` bytes it
/// left unread.
pub fn reencoding_matches(data: &[u8], remaining: usize, re_encoding: &[u8]) -> (res: bool)
    requires
        remaining <= data@.len(),
    ensures
        res == (data@.subrange(0, data@.len() - remaining) == re_encoding@),
{
    let consumed = vstd::slice::slice_subrange(data, 0, data.len() - remaining);
    crate::bytes::bytes_eq(consumed, re_encoding)
}

} // verus!
