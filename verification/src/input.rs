//! Splitting a fuzzer input into extrinsics and deciding which of them run.
//!
//! An input is a sequence of chunks separated by the delimiter `********`.
//! Each chunk starts with a block lapse (`u32`) and an origin (`u16`), both
//! in native byte order, followed by the encoded extrinsic.
use vstd::prelude::*;
use vstd::endian::{endianness, Endian};

verus! {

/// The initial timestamp at the start of an input run.
pub const INITIAL_TIMESTAMP: u64 = 0;

/// The maximum number of blocks per fuzzer input.
/// If set to 0, then there is no limit at all.
pub const MAX_BLOCKS_PER_INPUT: usize = 4;

/// The maximum number of extrinsics per block.
/// If set to 0, then there is no limit at all.
pub const MAX_EXTRINSICS_PER_BLOCK: usize = 4;

/// Max number of seconds a block should run for.
pub const MAX_TIME_FOR_BLOCK: u64 = 6;

/// The max number of blocks we want the fuzzer to run to between extrinsics.
/// Considering 1 block every 6 seconds, 100_800 blocks correspond to 1 week.
pub const MAX_BLOCK_LAPSE: u32 = 100_800;

/// Length of the extrinsic delimiter.
pub const DELIMITER_LEN: usize = 8;

/// The byte the delimiter is made of (`*`).
pub const DELIMITER_BYTE: u8 = 42;

/// Whether the delimiter starts at position `i` of `data`.
pub open spec fn delimiter_at(data: Seq<u8>, i: int) -> bool {
    &&& 0 <= i
    &&& i + 8 <= data.len()
    &&& forall|j: int| i <= j < i + 8 ==> data[j] == 42u8
}

/// The position of the first delimiter at or after `from`, or the end of
/// the data if there is none.
pub open spec fn next_delimiter(data: Seq<u8>, from: int) -> int
    decreases data.len() - from,
{
    if from < 0 || from + 8 > data.len() {
        data.len() as int
    } else if delimiter_at(data, from) {
        from
    } else {
        next_delimiter(data, from + 1)
    }
}

/// Whether `size` chunks already reach the configured limit.
pub open spec fn limit_reached(size: int) -> bool {
    !(MAX_BLOCKS_PER_INPUT == 0 || MAX_EXTRINSICS_PER_BLOCK == 0) && size
        >= MAX_BLOCKS_PER_INPUT * MAX_EXTRINSICS_PER_BLOCK
}

proof fn lemma_next_delimiter_bounds(data: Seq<u8>, from: int)
    requires
        0 <= from <= data.len(),
    ensures
        from <= next_delimiter(data, from) <= data.len(),
    decreases data.len() - from,
{
    if from + 8 <= data.len() && !delimiter_at(data, from) {
        lemma_next_delimiter_bounds(data, from + 1);
    }
}

/// The chunks still to come when reading from `pointer` with `size` chunks
/// already read.
pub open spec fn remaining_chunks(data: Seq<u8>, pointer: int, size: int) -> Seq<Seq<u8>>
    decreases data.len() + 8 - pointer,
{
    if data.len() <= pointer || pointer < 0 || limit_reached(size) {
        Seq::empty()
    } else {
        let end = next_delimiter(data, pointer);
        if end < pointer || end > data.len() {
            Seq::empty()
        } else {
            seq![data.subrange(pointer, end)] + remaining_chunks(data, end + 8, size + 1)
        }
    }
}

proof fn lemma_no_delimiter_before(data: Seq<u8>, from: int, q: int)
    requires
        0 <= from <= q < next_delimiter(data, from),
    ensures
        !delimiter_at(data, q),
    decreases data.len() - from,
{
    if from + 8 <= data.len() && !delimiter_at(data, from) && q > from {
        lemma_no_delimiter_before(data, from + 1, q);
    }
}

/// An input yields at most the configured number of chunks.
pub proof fn lemma_chunk_count(data: Seq<u8>, pointer: int, size: int)
    requires
        0 <= size <= MAX_BLOCKS_PER_INPUT * MAX_EXTRINSICS_PER_BLOCK,
    ensures
        remaining_chunks(data, pointer, size).len() + size <= MAX_BLOCKS_PER_INPUT
            * MAX_EXTRINSICS_PER_BLOCK,
    decreases data.len() + 8 - pointer,
{
    if !(data.len() <= pointer || pointer < 0 || limit_reached(size)) {
        let end = next_delimiter(data, pointer);
        if !(end < pointer || end > data.len()) {
            lemma_chunk_count(data, end + 8, size + 1);
        }
    }
}

/// No chunk contains the delimiter.
pub proof fn lemma_chunks_hold_no_delimiter(data: Seq<u8>, pointer: int, size: int)
    ensures
        forall|i: int, j: int|
            0 <= i < remaining_chunks(data, pointer, size).len() ==> !#[trigger] delimiter_at(
                remaining_chunks(data, pointer, size)[i],
                j,
            ),
    decreases data.len() + 8 - pointer,
{
    let rc = remaining_chunks(data, pointer, size);
    if !(data.len() <= pointer || pointer < 0 || limit_reached(size)) {
        let end = next_delimiter(data, pointer);
        if !(end < pointer || end > data.len()) {
            let first = data.subrange(pointer, end);
            let rest = remaining_chunks(data, end + 8, size + 1);
            lemma_chunks_hold_no_delimiter(data, end + 8, size + 1);
            assert forall|i: int, j: int| 0 <= i < rc.len() implies !#[trigger] delimiter_at(rc[i], j) by {
                if i == 0 {
                    assert(rc[0] == first);
                    if delimiter_at(first, j) {
                        assert forall|t: int| pointer + j <= t < pointer + j + 8 implies data[t] == 42u8 by {
                            assert(first[t - pointer] == data[t]);
                        }
                        assert(delimiter_at(data, pointer + j));
                        lemma_no_delimiter_before(data, pointer, pointer + j);
                    }
                } else {
                    assert(rc[i] == rest[i - 1]);
                }
            }
        }
    }
}

/// The data structure used for iterating over extrinsics.
pub struct Data<'a> {
    data: &'a [u8],
    pointer: usize,
    size: usize,
}

impl<'a> Data<'a> {
    /// The chunks this iterator will still yield, in order.
    pub closed spec fn chunks(&self) -> Seq<Seq<u8>> {
        remaining_chunks(self.data@, self.pointer as int, self.size as int)
    }

    /// No more chunks were read than the limit allows.
    #[verifier::type_invariant]
    pub closed spec fn wf(&self) -> bool {
        self.size <= MAX_BLOCKS_PER_INPUT * MAX_EXTRINSICS_PER_BLOCK
    }

    /// How many chunks have been read.
    pub closed spec fn chunks_read(&self) -> nat {
        self.size as nat
    }

    /// The chunks of `data`, read from its start.
    pub open spec fn chunks_of(data: Seq<u8>) -> Seq<Seq<u8>> {
        remaining_chunks(data, 0, 0)
    }

    pub fn from_data(data: &'a [u8]) -> (res: Self)
        ensures
            res.chunks() == Self::chunks_of(data@),
            res.chunks_read() == 0,
    {
        Data { data, pointer: 0, size: 0 }
    }

    /// Whether the configured number of chunks has been read.
    pub fn size_limit_reached(&self) -> (res: bool)
        ensures
            res == limit_reached(self.chunks_read() as int),
    {
        !(MAX_BLOCKS_PER_INPUT == 0 || MAX_EXTRINSICS_PER_BLOCK == 0) && self.size
            >= MAX_BLOCKS_PER_INPUT * MAX_EXTRINSICS_PER_BLOCK
    }

    /// Whether the delimiter starts at `i`.
    fn delimiter_starts_at(&self, i: usize) -> (res: bool)
        requires
            i + 8 <= self.data@.len(),
        ensures
            res == delimiter_at(self.data@, i as int),
    {
        let len = self.data.len();
        let mut j: usize = 0;
        while j < DELIMITER_LEN
            invariant
                j <= 8,
                len == self.data@.len(),
                i + 8 <= self.data@.len(),
                forall|t: int| i <= t < i + j ==> self.data@[t] == 42u8,
            decreases 8 - j,
        {
            if self.data[i + j] != DELIMITER_BYTE {
                return false;
            }
            j = j + 1;
        }
        true
    }

    /// Yields the next chunk, up to the next delimiter or the end of the data.
    pub fn next(&mut self) -> (res: Option<&'a [u8]>)
        ensures
            match res {
                Some(c) => {
                    &&& old(self).chunks().len() > 0
                    &&& c@ == old(self).chunks()[0]
                    &&& final(self).chunks() == old(self).chunks().drop_first()
                    &&& final(self).chunks_read() == old(self).chunks_read() + 1
                },
                None => {
                    &&& old(self).chunks().len() == 0
                    &&& final(self).chunks() == old(self).chunks()
                    &&& final(self).chunks_read() == old(self).chunks_read()
                },
            },
            limit_reached(old(self).chunks_read() as int) ==> res is None,
    {
        proof {
            use_type_invariant(&*self);
        }
        if self.data.len() <= self.pointer || self.size_limit_reached() {
            return None;
        }
        let len = self.data.len();
        let mut i = self.pointer;
        while i < len && len - i >= DELIMITER_LEN && !self.delimiter_starts_at(i)
            invariant
                self.pointer <= i <= len,
                len == self.data@.len(),
                next_delimiter(self.data@, self.pointer as int) == next_delimiter(self.data@, i as int),
            decreases len - i,
        {
            i = i + 1;
        }
        let next_pointer = if i < len && len - i >= DELIMITER_LEN {
            i
        } else {
            len
        };
        proof {
            lemma_next_delimiter_bounds(self.data@, self.pointer as int);
            assert(next_pointer == next_delimiter(self.data@, self.pointer as int));
        }
        let res = vstd::slice::slice_subrange(self.data, self.pointer, next_pointer);
        self.pointer = next_pointer.saturating_add(DELIMITER_LEN);
        self.size = self.size + 1;
        proof {
            let d = self.data@;
            if next_pointer + 8 > usize::MAX {
                assert(self.chunks() =~= Seq::<Seq<u8>>::empty());
                assert(remaining_chunks(d, next_pointer + 8, self.size as int) =~= Seq::<Seq<u8>>::empty());
            }
        }
        Some(res)
    }
}

impl<'a> Data<'a> {
    /// Reads all remaining chunks and decodes the extrinsics of those the
    /// block and per-block limits admit with `decode`, keeping each decoded
    /// one (with its lapse and origin) until the block limit is reached.
    pub fn extract_extrinsics<T, F: Fn(&[u8]) -> Option<T>>(&mut self, decode: F) -> (res: Vec<
        (Option<u32>, usize, T),
    >)
        requires
            forall|b: &[u8]| call_requires(decode, (b,)),
        ensures
            final(self).chunks().len() == 0,
            exists|outs: Seq<Option<T>>|
                {
                    &&& outs.len() == old(self).chunks().len()
                    &&& decoded_by(decode, old(self).chunks(), outs)
                    &&& res@ == kept_extrinsics(old(self).chunks(), outs)
                },
    {
        let ghost all = self.chunks();
        let ghost mut outs: Seq<Option<T>> = Seq::empty();
        let mut filter = ExtrinsicFilter::new();
        let mut res: Vec<(Option<u32>, usize, T)> = Vec::new();
        loop
            invariant
                forall|b: &[u8]| call_requires(decode, (b,)),
                outs.len() <= all.len(),
                self.chunks() == all.skip(outs.len() as int),
                (filter.blocks(), filter.in_block()) == filter_counts(all, outs),
                decoded_by(decode, all, outs),
                res@ == kept_extrinsics(all, outs),
            ensures
                outs.len() == all.len(),
                self.chunks().len() == 0,
                decoded_by(decode, all, outs),
                res@ == kept_extrinsics(all, outs),
            decreases self.chunks().len(),
        {
            let ghost n = outs.len() as int;
            let chunk = match self.next() {
                Some(c) => c,
                None => {
                    proof {
                        assert(all.skip(n).len() == 0);
                    }
                    break;
                },
            };
            proof {
                assert(all[n] == chunk@) by {
                    assert(all.skip(n)[0] == all[n]);
                }
                assert(all.skip(n).drop_first() =~= all.skip(n + 1));
            }
            let ghost prev = outs;
            match filter.before_decode(chunk) {
                None => {
                    proof {
                        outs = outs.push(None);
                        assert(outs.drop_last() =~= prev);
                    }
                },
                Some((lapse, origin, payload)) => {
                    let out = decode(payload);
                    proof {
                        outs = outs.push(out);
                        assert(outs.drop_last() =~= prev);
                        assert(decodes_to(decode, chunk_header(all[n]).2, out));
                    }
                    match out {
                        Some(t) => {
                            if filter.after_decode(lapse) {
                                res.push((lapse, origin, t));
                            }
                        },
                        None => {},
                    }
                },
            }
        }
        res
    }
}

// ---------------------------------------------------------------------------
// Deciding which extrinsics run
// ---------------------------------------------------------------------------

/// The `u32` that four bytes stand for in the machine's byte order.
pub open spec fn ne_u32(b: Seq<u8>) -> u32 {
    if endianness() == Endian::Little {
        (b[0] + 256 * b[1] + 65536 * b[2] + 16777216 * b[3]) as u32
    } else {
        (b[3] + 256 * b[2] + 65536 * b[1] + 16777216 * b[0]) as u32
    }
}

/// The `u16` that two bytes stand for in the machine's byte order.
pub open spec fn ne_u16(b: Seq<u8>) -> u16 {
    if endianness() == Endian::Little {
        (b[0] + 256 * b[1]) as u16
    } else {
        (b[1] + 256 * b[0]) as u16
    }
}

/// `u32::from_ne_bytes`: reads four bytes in the machine's byte order.
#[verifier::external_body]
fn u32_from_ne_bytes(bytes: [u8; 4]) -> (res: u32)
    ensures
        res == ne_u32(bytes@),
{
    u32::from_ne_bytes(bytes)
}

/// `u16::from_ne_bytes`: reads two bytes in the machine's byte order.
#[verifier::external_body]
fn u16_from_ne_bytes(bytes: [u8; 2]) -> (res: u16)
    ensures
        res == ne_u16(bytes@),
{
    u16::from_ne_bytes(bytes)
}

/// A lapse counts (starts a new block) when it is in `1..=MAX_BLOCK_LAPSE`.
pub open spec fn valid_lapse(lapse: u32) -> Option<u32> {
    if 1 <= lapse <= MAX_BLOCK_LAPSE {
        Some(lapse)
    } else {
        None
    }
}

/// The header of a chunk: its lapse (when valid), its origin and the
/// encoded extrinsic that follows.
pub open spec fn chunk_header(chunk: Seq<u8>) -> (Option<u32>, usize, Seq<u8>) {
    (
        valid_lapse(ne_u32(chunk.subrange(0, 4))),
        ne_u16(chunk.subrange(4, 6)) as usize,
        chunk.skip(6),
    )
}

/// Whether a chunk gets decoded at all, with `counts` blocks and extrinsics
/// in the current block seen so far: not once the block limit is reached,
/// not when too short to hold a header, and not as one more extrinsic of a
/// full block.
pub open spec fn admitted(counts: (nat, nat), chunk: Seq<u8>) -> bool {
    &&& !(MAX_BLOCKS_PER_INPUT != 0 && counts.0 >= MAX_BLOCKS_PER_INPUT)
    &&& chunk.len() > 6
    &&& !(chunk_header(chunk).0 is None && MAX_EXTRINSICS_PER_BLOCK != 0 && counts.1
        >= MAX_EXTRINSICS_PER_BLOCK)
}

/// The counts after a chunk whose extrinsic decoded to `out` (`None` where
/// it was not decoded or failed to decode): a lapse starts a new block,
/// otherwise the extrinsic joins the current one.
pub open spec fn counts_after<T>(counts: (nat, nat), chunk: Seq<u8>, out: Option<T>) -> (nat, nat) {
    if admitted(counts, chunk) && out is Some {
        if chunk_header(chunk).0 is Some {
            (counts.0 + 1, 1)
        } else {
            (counts.0, counts.1 + 1)
        }
    } else {
        counts
    }
}

/// The counts after the first `outs.len()` chunks, with `outs` what their
/// extrinsics decoded to.
pub open spec fn filter_counts<T>(chunks: Seq<Seq<u8>>, outs: Seq<Option<T>>) -> (nat, nat)
    decreases outs.len(),
{
    if outs.len() == 0 || outs.len() > chunks.len() {
        (0, 0)
    } else {
        let i = outs.len() - 1;
        counts_after(filter_counts(chunks, outs.drop_last()), chunks[i], outs.last())
    }
}

/// The extrinsics kept from the first `outs.len()` chunks, with `outs` what
/// their extrinsics decoded to: each one decoded while the block limit is
/// not yet reached, with its lapse and origin.
pub open spec fn kept_extrinsics<T>(chunks: Seq<Seq<u8>>, outs: Seq<Option<T>>) -> Seq<(Option<u32>, usize, T)>
    decreases outs.len(),
{
    if outs.len() == 0 || outs.len() > chunks.len() {
        Seq::empty()
    } else {
        let i = outs.len() - 1;
        let before = filter_counts(chunks, outs.drop_last());
        let after = counts_after(before, chunks[i], outs.last());
        let rest = kept_extrinsics(chunks, outs.drop_last());
        if admitted(before, chunks[i]) && outs.last() is Some && !(MAX_BLOCKS_PER_INPUT != 0 && after.0
            >= MAX_BLOCKS_PER_INPUT) {
            let header = chunk_header(chunks[i]);
            rest.push((header.0, header.1, outs.last().unwrap()))
        } else {
            rest
        }
    }
}

/// `decode` may give `out` for the bytes `payload`.
pub open spec fn decodes_to<T, F: Fn(&[u8]) -> Option<T>>(decode: F, payload: Seq<u8>, out: Option<T>) -> bool {
    exists|b: &[u8]| b@ == payload && #[trigger] call_ensures(decode, (b,), out)
}

/// Each chunk of the first `outs.len()` that was admitted had its extrinsic
/// decoded by `decode`, giving what `outs` holds.
pub open spec fn decoded_by<T, F: Fn(&[u8]) -> Option<T>>(decode: F, chunks: Seq<Seq<u8>>, outs: Seq<Option<T>>) -> bool
    decreases outs.len(),
{
    if outs.len() == 0 || outs.len() > chunks.len() {
        true
    } else {
        let i = outs.len() - 1;
        &&& decoded_by(decode, chunks, outs.drop_last())
        &&& admitted(filter_counts(chunks, outs.drop_last()), chunks[i]) ==> decodes_to(
            decode,
            chunk_header(chunks[i]).2,
            outs.last(),
        )
    }
}

/// How many of `kept` carry a lapse, that is, start a block.
pub open spec fn lapse_count<T>(kept: Seq<(Option<u32>, usize, T)>) -> nat
    decreases kept.len(),
{
    if kept.len() == 0 {
        0
    } else {
        lapse_count(kept.drop_last()) + if kept.last().0 is Some {
            1nat
        } else {
            0nat
        }
    }
}

/// None of `run` carries a lapse.
pub open spec fn no_lapse<T>(run: Seq<(Option<u32>, usize, T)>) -> bool {
    forall|t: int| 0 <= t < run.len() ==> (#[trigger] run[t]).0 is None
}

/// Every run of consecutive extrinsics without a lapse holds at most
/// `MAX_EXTRINSICS_PER_BLOCK` of them, and one less right after a lapse,
/// so that with the extrinsic that carries the lapse a block holds at most
/// `MAX_EXTRINSICS_PER_BLOCK`.
pub open spec fn blocks_within_limit<T>(kept: Seq<(Option<u32>, usize, T)>) -> bool {
    forall|i: int, j: int|
        0 <= i <= j <= kept.len() && #[trigger] no_lapse(kept.subrange(i, j)) ==> {
            &&& j - i <= MAX_EXTRINSICS_PER_BLOCK
            &&& (i > 0 && kept[i - 1].0 is Some ==> j - i < MAX_EXTRINSICS_PER_BLOCK)
        }
}

/// The length of the run of extrinsics without a lapse at the end of `kept`.
spec fn trailing_plain<T>(kept: Seq<(Option<u32>, usize, T)>) -> nat
    decreases kept.len(),
{
    if kept.len() == 0 {
        0
    } else if kept.last().0 is None {
        trailing_plain(kept.drop_last()) + 1
    } else {
        0
    }
}

proof fn lemma_trailing_plain<T>(s: Seq<(Option<u32>, usize, T)>, i: int)
    requires
        0 <= i <= s.len(),
        no_lapse(s.subrange(i, s.len() as int)),
    ensures
        s.len() - i <= trailing_plain(s),
        i > 0 && s[i - 1].0 is Some ==> s.len() - i == trailing_plain(s),
    decreases s.len(),
{
    if i < s.len() {
        let n = s.len() as int;
        assert(s.subrange(i, n)[n - 1 - i] == s[n - 1]);
        assert(s.drop_last().subrange(i, n - 1) =~= s.subrange(i, n).drop_last());
        assert forall|t: int| 0 <= t < s.drop_last().subrange(i, n - 1).len() implies (#[trigger] s.drop_last().subrange(
            i,
            n - 1,
        )[t]).0 is None by {
            assert(s.subrange(i, n)[t] == s.drop_last().subrange(i, n - 1)[t]);
        }
        lemma_trailing_plain(s.drop_last(), i);
        if i > 0 {
            assert(s.drop_last()[i - 1] == s[i - 1]);
        }
    } else if s.len() > 0 && i > 0 {
    }
}

proof fn lemma_lapse_counted<T>(s: Seq<(Option<u32>, usize, T)>, t: int)
    requires
        0 <= t < s.len(),
        s[t].0 is Some,
    ensures
        lapse_count(s) > 0,
    decreases s.len(),
{
    if t < s.len() - 1 {
        assert(s.drop_last()[t] == s[t]);
        lemma_lapse_counted(s.drop_last(), t);
    }
}

proof fn lemma_extraction_step<T>(chunks: Seq<Seq<u8>>, outs: Seq<Option<T>>)
    requires
        outs.len() <= chunks.len(),
    ensures
        ({
            let c = filter_counts(chunks, outs);
            let k = kept_extrinsics(chunks, outs);
            &&& c.0 <= MAX_BLOCKS_PER_INPUT
            &&& c.1 <= MAX_EXTRINSICS_PER_BLOCK
            &&& lapse_count(k) == if c.0 < MAX_BLOCKS_PER_INPUT {
                c.0
            } else {
                (MAX_BLOCKS_PER_INPUT - 1) as nat
            }
            &&& c.0 < MAX_BLOCKS_PER_INPUT ==> trailing_plain(k) + (if c.0 > 0 {
                1nat
            } else {
                0nat
            }) == c.1
            &&& blocks_within_limit(k)
        }),
    decreases outs.len(),
{
    if outs.len() == 0 {
        let k = kept_extrinsics(chunks, outs);
        assert forall|i: int, j: int|
            0 <= i <= j <= k.len() && #[trigger] no_lapse(k.subrange(i, j)) implies {
            &&& j - i <= MAX_EXTRINSICS_PER_BLOCK
            &&& (i > 0 && k[i - 1].0 is Some ==> j - i < MAX_EXTRINSICS_PER_BLOCK)
        } by {}
    } else {
        let prev = outs.drop_last();
        lemma_extraction_step(chunks, prev);
        let c = filter_counts(chunks, prev);
        let k = kept_extrinsics(chunks, prev);
        let c2 = filter_counts(chunks, outs);
        let k2 = kept_extrinsics(chunks, outs);
        let n = k.len() as int;
        if k2 != k {
            let e = k2.last();
            assert(k2 == k.push(e));
            assert(k2.drop_last() =~= k);
            assert forall|i: int, j: int|
                0 <= i <= j <= k2.len() && #[trigger] no_lapse(k2.subrange(i, j)) implies {
                &&& j - i <= MAX_EXTRINSICS_PER_BLOCK
                &&& (i > 0 && k2[i - 1].0 is Some ==> j - i < MAX_EXTRINSICS_PER_BLOCK)
            } by {
                if j <= n {
                    assert(k2.subrange(i, j) =~= k.subrange(i, j));
                    assert(no_lapse(k.subrange(i, j)));
                    if i > 0 {
                        assert(k2[i - 1] == k[i - 1]);
                    }
                } else if i < j {
                    assert(k2.subrange(i, j) =~= k2.subrange(i, k2.len() as int));
                    lemma_trailing_plain(k2, i);
                    if i > 0 && k2[i - 1].0 is Some {
                        lemma_lapse_counted(k2, i - 1);
                    }
                }
            }
        }
    }
}

/// What extraction keeps stays within the limits: fewer than
/// `MAX_BLOCKS_PER_INPUT` kept extrinsics start a block, and no block
/// holds more than `MAX_EXTRINSICS_PER_BLOCK` extrinsics.
pub proof fn lemma_extraction_limits<T>(chunks: Seq<Seq<u8>>, outs: Seq<Option<T>>)
    ensures
        lapse_count(kept_extrinsics(chunks, outs)) < MAX_BLOCKS_PER_INPUT,
        blocks_within_limit(kept_extrinsics(chunks, outs)),
{
    if outs.len() <= chunks.len() {
        lemma_extraction_step(chunks, outs);
    } else {
        let k = kept_extrinsics(chunks, outs);
        assert(k =~= Seq::<(Option<u32>, usize, T)>::empty());
        assert forall|i: int, j: int|
            0 <= i <= j <= k.len() && #[trigger] no_lapse(k.subrange(i, j)) implies {
            &&& j - i <= MAX_EXTRINSICS_PER_BLOCK
            &&& (i > 0 && k[i - 1].0 is Some ==> j - i < MAX_EXTRINSICS_PER_BLOCK)
        } by {}
    }
}

/// Counts blocks and extrinsics while extracting, and decides which
/// extrinsics to decode and which to keep.
pub struct ExtrinsicFilter {
    block_count: usize,
    extrinsics_in_block: usize,
}

impl ExtrinsicFilter {
    pub closed spec fn blocks(&self) -> nat {
        self.block_count as nat
    }

    pub closed spec fn in_block(&self) -> nat {
        self.extrinsics_in_block as nat
    }

    /// The counts stay within the configured limits.
    #[verifier::type_invariant]
    pub closed spec fn wf(&self) -> bool {
        &&& self.block_count <= MAX_BLOCKS_PER_INPUT
        &&& self.extrinsics_in_block <= MAX_EXTRINSICS_PER_BLOCK
    }

    /// Whether a chunk with this header gets decoded at all.
    pub open spec fn admits(&self, chunk: Seq<u8>) -> bool {
        admitted((self.blocks(), self.in_block()), chunk)
    }

    pub fn new() -> (res: Self)
        ensures
            res.blocks() == 0,
            res.in_block() == 0,
    {
        ExtrinsicFilter { block_count: 0, extrinsics_in_block: 0 }
    }

    /// Reads the header of `chunk` and says whether its extrinsic is to be
    /// decoded: not once the block limit is reached, not for chunks too
    /// short to hold a header, and not for one more extrinsic in a full
    /// block.
    pub fn before_decode<'a>(&self, chunk: &'a [u8]) -> (res: Option<(Option<u32>, usize, &'a [u8])>)
        ensures
            res is Some <==> self.admits(chunk@),
            res matches Some((lapse, origin, payload)) ==> (lapse, origin, payload@) == chunk_header(
                chunk@,
            ),
    {
        // We have reached the limit of block we want to decode
        if MAX_BLOCKS_PER_INPUT != 0 && self.block_count >= MAX_BLOCKS_PER_INPUT {
            return None;
        }
        // lapse is u32 (4 bytes), origin is u16 (2 bytes) -> 6 bytes minimum
        let min_data_len: usize = 4 + 2;
        if chunk.len() <= min_data_len {
            return None;
        }
        let lapse: u32 = u32_from_ne_bytes([chunk[0], chunk[1], chunk[2], chunk[3]]);
        let origin: usize = u16_from_ne_bytes([chunk[4], chunk[5]]) as usize;
        let encoded_extrinsic = vstd::slice::slice_subrange(chunk, 6, chunk.len());
        proof {
            assert([chunk[0], chunk[1], chunk[2], chunk[3]]@ =~= chunk@.subrange(0, 4));
            assert([chunk[4], chunk[5]]@ =~= chunk@.subrange(4, 6));
            assert(encoded_extrinsic@ =~= chunk@.skip(6));
        }
        // If the lapse is in the range [1, MAX_BLOCK_LAPSE] it is valid.
        let maybe_lapse = if 1 <= lapse && lapse <= MAX_BLOCK_LAPSE {
            Some(lapse)
        } else {
            None
        };
        // We have reached the limit of extrinsics for this block
        if maybe_lapse.is_none() && MAX_EXTRINSICS_PER_BLOCK != 0 && self.extrinsics_in_block
            >= MAX_EXTRINSICS_PER_BLOCK {
            return None;
        }
        Some((maybe_lapse, origin, encoded_extrinsic))
    }

    /// Records a decoded extrinsic: a lapse starts a new block, otherwise it
    /// joins the current one. Says whether the extrinsic is kept, which it
    /// is not once the block limit is reached.
    pub fn after_decode(&mut self, lapse: Option<u32>) -> (keep: bool)
        requires
            old(self).blocks() < MAX_BLOCKS_PER_INPUT,
            lapse is None ==> old(self).in_block() < MAX_EXTRINSICS_PER_BLOCK,
        ensures
            lapse is Some ==> final(self).blocks() == old(self).blocks() + 1 && final(self).in_block() == 1,
            lapse is None ==> final(self).blocks() == old(self).blocks() && final(self).in_block()
                == old(self).in_block() + 1,
            keep == !(MAX_BLOCKS_PER_INPUT != 0 && final(self).blocks() >= MAX_BLOCKS_PER_INPUT),
    {
        proof {
            use_type_invariant(&*self);
        }
        if lapse.is_some() {
            self.block_count = self.block_count + 1;
            self.extrinsics_in_block = 1;
        } else {
            self.extrinsics_in_block = self.extrinsics_in_block + 1;
        }
        // We have reached the limit of block we want to decode
        !(MAX_BLOCKS_PER_INPUT != 0 && self.block_count >= MAX_BLOCKS_PER_INPUT)
    }
}

} // verus!
