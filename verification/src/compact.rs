//! SCALE-encoded vectors stored as raw bytes: the compact length prefix and
//! appending one element in place.
use vstd::prelude::*;

use parity_scale_codec::{Compact, CompactLen, Decode, Encode};

verus! {

/// The codec's decoding error, carried through as it is.
#[verifier::external_type_specification]
#[verifier::external_body]
pub struct ExCodecError(parity_scale_codec::Error);

/// The little-endian value of the four bytes of `s` starting at `i`.
pub open spec fn le_u32_at(s: Seq<u8>, i: int) -> int {
    s[i] + 256 * s[i + 1] + 65536 * s[i + 2] + 16777216 * s[i + 3]
}

/// The SCALE compact encoding of a `u32`: one byte below 2^6, two below
/// 2^14, four below 2^30 (value shifted left by two, the low bits giving the
/// mode, little endian), else the byte `3` followed by the value's four bytes.
pub open spec fn compact_encoding(n: u32) -> Seq<u8> {
    if n < 64 {
        seq![(n * 4) as u8]
    } else if n < 16384 {
        let v = n * 4 + 1;
        seq![(v % 256) as u8, (v / 256) as u8]
    } else if n < 1073741824 {
        let v = n * 4 + 2;
        seq![
            (v % 256) as u8,
            ((v / 256) % 256) as u8,
            ((v / 65536) % 256) as u8,
            (v / 16777216) as u8,
        ]
    } else {
        seq![3u8, (n % 256) as u8, ((n / 256) % 256) as u8, ((n / 65536) % 256) as u8, (n / 16777216) as u8]
    }
}

/// The length of the compact encoding of `n`.
pub open spec fn compact_len(n: u32) -> nat {
    if n < 64 {
        1
    } else if n < 16384 {
        2
    } else if n < 1073741824 {
        4
    } else {
        5
    }
}

/// Decoding a compact `u32` from the front of `s`; `None` where the codec
/// refuses (input too short, or a value not in its shortest form).
pub open spec fn compact_decode(s: Seq<u8>) -> Option<u32> {
    if s.len() == 0 {
        None
    } else if s[0] % 4 == 0 {
        Some((s[0] / 4) as u32)
    } else if s[0] % 4 == 1 {
        if s.len() < 2 {
            None
        } else {
            let x = (s[0] + 256 * s[1]) / 4;
            if x > 63 {
                Some(x as u32)
            } else {
                None
            }
        }
    } else if s[0] % 4 == 2 {
        if s.len() < 4 {
            None
        } else {
            let x = le_u32_at(s, 0) / 4;
            if x > 16383 {
                Some(x as u32)
            } else {
                None
            }
        }
    } else {
        if s[0] / 4 != 0 || s.len() < 5 {
            None
        } else {
            let x = le_u32_at(s, 1);
            if x > 1073741823 {
                Some(x as u32)
            } else {
                None
            }
        }
    }
}

/// One more element, saturating at `u32::MAX`.
pub open spec fn saturating_inc(n: u32) -> u32 {
    if n == u32::MAX {
        n
    } else {
        (n + 1) as u32
    }
}

/// A stored vector with `element` appended: the count in the compact prefix
/// goes up by one and the element's bytes go at the end. An empty or
/// unreadable value starts over as a vector holding `element` alone.
pub open spec fn appended(current: Seq<u8>, element: Seq<u8>) -> Seq<u8> {
    if current.len() == 0 {
        compact_encoding(1) + element
    } else {
        match compact_decode(current) {
            None => compact_encoding(1) + element,
            Some(n) => compact_encoding(saturating_inc(n)) + current.skip(compact_len(n) as int)
                + element,
        }
    }
}

/// Appends the compact encoding of `n` to `dest`: the codec's
/// `Compact::<u32>::encode_to`, claimed to write exactly `compact_encoding(n)`.
#[verifier::external_body]
fn compact_encode_to(n: u32, dest: &mut Vec<u8>)
    ensures
        final(dest)@ == old(dest)@ + compact_encoding(n),
{
    Compact(n).encode_to(dest)
}

/// Reads a compact `u32` from the front of `input`: the codec's
/// `Compact::<u32>::decode`, claimed to succeed exactly where
/// `compact_decode` gives a value, and to give that value.
#[verifier::external_body]
fn compact_decode_from(input: &[u8]) -> (res: Result<u32, parity_scale_codec::Error>)
    ensures
        match res {
            Ok(n) => compact_decode(input@) == Some(n),
            Err(_) => compact_decode(input@) is None,
        },
{
    let mut rest = input;
    match Compact::<u32>::decode(&mut rest) {
        Ok(c) => Ok(c.0),
        Err(e) => Err(e),
    }
}

/// The encoded length of `n`: the codec's `Compact::<u32>::compact_len`.
#[verifier::external_body]
fn compact_len_of(n: u32) -> (res: usize)
    ensures
        res == compact_len(n),
{
    Compact::<u32>::compact_len(&n)
}

/// The encoding is `compact_len` bytes long.
pub proof fn lemma_compact_len(n: u32)
    ensures
        compact_encoding(n).len() == compact_len(n),
{
}

/// A value that decodes was read from at least `compact_len` bytes, so the
/// elements after the prefix start there.
pub proof fn lemma_decoded_len(s: Seq<u8>)
    requires
        compact_decode(s) is Some,
    ensures
        s.len() >= compact_len(compact_decode(s).unwrap()),
{
    let b0 = s[0];
    if b0 % 4 == 0 {
        assert(b0 / 4 < 64);
    } else if b0 % 4 == 1 {
        let x = (b0 + 256 * s[1]) / 4;
        assert(x < 16384);
    } else if b0 % 4 == 2 {
        let x = le_u32_at(s, 0) / 4;
        assert(x < 1073741824);
    }
}

/// Decoding reads back what encoding wrote, whatever follows it.
pub proof fn lemma_compact_roundtrip(n: u32, rest: Seq<u8>)
    ensures
        compact_decode(compact_encoding(n) + rest) == Some(n),
{
    let s = compact_encoding(n) + rest;
    if n < 64 {
        let b0: u32 = (n * 4) as u32;
        assert(b0 % 4 == 0 && b0 / 4 == n && b0 < 256) by (bit_vector)
            requires
                n < 64,
                b0 == (n * 4) as u32,
        ;
        assert(s[0] == b0);
    } else if n < 16384 {
        let v: u32 = (n * 4 + 1) as u32;
        let b0: u32 = v % 256;
        let b1: u32 = v / 256;
        assert(b0 % 4 == 1 && (b0 + 256 * b1) / 4 == n && b1 < 256) by (bit_vector)
            requires
                64 <= n < 16384,
                v == (n * 4 + 1) as u32,
                b0 == v % 256,
                b1 == v / 256,
        ;
        assert(s[0] == b0 && s[1] == b1);
    } else if n < 1073741824 {
        let v: u32 = (n * 4 + 2) as u32;
        let b0: u32 = v % 256;
        let b1: u32 = (v / 256) % 256;
        let b2: u32 = (v / 65536) % 256;
        let b3: u32 = v / 16777216;
        assert(b3 < 256 && b0 + 256 * b1 + 65536 * b2 + 16777216 * b3 == v) by (bit_vector)
            requires
                b0 == v % 256,
                b1 == (v / 256) % 256,
                b2 == (v / 65536) % 256,
                b3 == v / 16777216,
        ;
        assert(b0 % 4 == 2 && v / 4 == n) by (bit_vector)
            requires
                n < 1073741824,
                v == (n * 4 + 2) as u32,
                b0 == v % 256,
        ;
        assert(s[0] == b0 && s[1] == b1 && s[2] == b2 && s[3] == b3);
    } else {
        let b1: u32 = n % 256;
        let b2: u32 = (n / 256) % 256;
        let b3: u32 = (n / 65536) % 256;
        let b4: u32 = n / 16777216;
        assert(b4 < 256 && b1 + 256 * b2 + 65536 * b3 + 16777216 * b4 == n) by (bit_vector)
            requires
                b1 == n % 256,
                b2 == (n / 256) % 256,
                b3 == (n / 65536) % 256,
                b4 == n / 16777216,
        ;
        assert(s[0] == 3u8 && s[1] == b1 && s[2] == b2 && s[3] == b3 && s[4] == b4);
    }
}

/// Appending keeps the stored value a readable vector whose count is one
/// more than before (saturating), or one where it was empty or unreadable.
pub proof fn lemma_appended_count(current: Seq<u8>, element: Seq<u8>)
    ensures
        compact_decode(appended(current, element)) == Some(
            if current.len() > 0 && compact_decode(current) is Some {
                saturating_inc(compact_decode(current).unwrap())
            } else {
                1u32
            },
        ),
{
    if current.len() > 0 && compact_decode(current) is Some {
        let n = compact_decode(current).unwrap();
        let tail = current.skip(compact_len(n) as int) + element;
        assert(appended(current, element) =~= compact_encoding(saturating_inc(n)) + tail);
        lemma_compact_roundtrip(saturating_inc(n), tail);
    } else {
        lemma_compact_roundtrip(1, element);
    }
}

/// Appending to a stored vector lays it out as a new count prefix, then
/// the elements already stored (their bytes untouched), then the new
/// element's bytes exactly as given. An empty or unreadable value keeps
/// nothing but the prefix for one element and the new element.
pub proof fn lemma_append_layout(current: Seq<u8>, element: Seq<u8>)
    ensures
        ({
            let r = appended(current, element);
            &&& r.len() >= element.len()
            &&& r.skip(r.len() - element.len()) == element
            &&& if current.len() > 0 && compact_decode(current) is Some {
                let n = compact_decode(current).unwrap();
                let m = saturating_inc(n);
                let items = current.len() - compact_len(n);
                &&& compact_len(n) <= current.len()
                &&& compact_decode(r) == Some(m)
                &&& r.len() == compact_len(m) + items + element.len()
                &&& r.subrange(compact_len(m) as int, compact_len(m) + items) == current.skip(
                    compact_len(n) as int,
                )
            } else {
                &&& compact_decode(r) == Some(1u32)
                &&& r.len() == compact_len(1) + element.len()
            }
        }),
{
    let r = appended(current, element);
    lemma_appended_count(current, element);
    if current.len() > 0 && compact_decode(current) is Some {
        let n = compact_decode(current).unwrap();
        let m = saturating_inc(n);
        lemma_decoded_len(current);
        lemma_compact_len(m);
        let items = current.skip(compact_len(n) as int);
        assert(r == compact_encoding(m) + items + element);
        assert(r.skip(r.len() - element.len()) =~= element);
        assert(r.subrange(compact_len(m) as int, (compact_len(m) + items.len()) as int) =~= items);
    } else {
        lemma_compact_len(1);
        assert(r == compact_encoding(1) + element);
        assert(r.skip(r.len() - element.len()) =~= element);
    }
}

/// Pushes the bytes of `src` onto `dst`.
fn push_bytes(dst: &mut Vec<u8>, src: &[u8])
    ensures
        final(dst)@ == old(dst)@ + src@,
{
    let ghost start = dst@;
    let mut i: usize = 0;
    while i < src.len()
        invariant
            i <= src@.len(),
            dst@ == start + src@.take(i as int),
        decreases src@.len() - i,
    {
        dst.push(src[i]);
        i = i + 1;
        assert(dst@ =~= start + src@.take(i as int));
    }
    assert(src@.take(src@.len() as int) =~= src@);
}

/// Appends a SCALE-encoded element to a SCALE-encoded `Vec<T>` stored as raw
/// bytes, updating the length prefix.
pub fn append_to_storage_vec(current: &mut Vec<u8>, element: &[u8])
    ensures
        final(current)@ == appended(old(current)@, element@),
{
    let ghost old_bytes = current@;
    if current.len() == 0 {
        compact_encode_to(1, current);
        push_bytes(current, element);
        return;
    }
    let old_len = match compact_decode_from(current.as_slice()) {
        Ok(n) => n,
        Err(_) => {
            current.clear();
            compact_encode_to(1, current);
            push_bytes(current, element);
            assert(current@ =~= compact_encoding(1) + element@);
            return;
        },
    };
    proof {
        lemma_decoded_len(old_bytes);
        lemma_compact_len(old_len);
    }
    let old_prefix_len = compact_len_of(old_len);
    let new_len = old_len.saturating_add(1);
    let new_prefix_len = compact_len_of(new_len);
    proof {
        lemma_compact_len(new_len);
    }
    if old_prefix_len == new_prefix_len {
        let mut buf: Vec<u8> = Vec::with_capacity(new_prefix_len);
        compact_encode_to(new_len, &mut buf);
        assert(buf@ =~= compact_encoding(new_len));
        let mut i: usize = 0;
        while i < new_prefix_len
            invariant
                i <= new_prefix_len,
                new_prefix_len == buf@.len(),
                current@.len() == old_bytes.len(),
                new_prefix_len <= old_bytes.len(),
                forall|j: int| 0 <= j < i ==> current@[j] == buf@[j],
                forall|j: int| i <= j < old_bytes.len() ==> current@[j] == old_bytes[j],
            decreases new_prefix_len - i,
        {
            current.set(i, buf[i]);
            i = i + 1;
        }
        assert(current@ =~= compact_encoding(new_len) + old_bytes.skip(old_prefix_len as int));
        push_bytes(current, element);
    } else {
        let mut items: Vec<u8> = Vec::new();
        let mut i: usize = old_prefix_len;
        while i < current.len()
            invariant
                old_prefix_len <= i <= current@.len(),
                current@ == old_bytes,
                items@ == old_bytes.subrange(old_prefix_len as int, i as int),
            decreases current@.len() - i,
        {
            items.push(current[i]);
            i = i + 1;
            assert(items@ =~= old_bytes.subrange(old_prefix_len as int, i as int));
        }
        current.clear();
        compact_encode_to(new_len, current);
        push_bytes(current, items.as_slice());
        push_bytes(current, element);
        assert(items@ =~= old_bytes.skip(old_prefix_len as int));
    }
    assert(current@ =~= appended(old_bytes, element@));
}

} // verus!
