//! The on-disk frame of one record: an eight-byte big-endian key, a four-byte
//! big-endian value length, then the value bytes.

use vstd::prelude::*;
use crate::error::StoreError;

verus! {

/// Bytes taken by the key of a frame.
pub const KEY_WIDTH: usize = 8;

/// Bytes taken by the key and the length prefix of a frame.
pub const HEADER_WIDTH: usize = 12;

/// The longest value that a frame can carry.
pub const MAX_VALUE_LEN: u64 = 0xFFFF_FFFF;

/// A key together with the value stored under it.
#[derive(Clone, Debug, PartialEq, Eq)]
pub struct Record {
    pub key: u64,
    pub value: Vec<u8>,
}

impl View for Record {
    type V = (u64, Seq<u8>);

    open spec fn view(&self) -> (u64, Seq<u8>) {
        (self.key, self.value@)
    }
}

/// The eight bytes of `k`, most significant first.
pub open spec fn be_u64(k: u64) -> Seq<u8> {
    seq![
        (k / 0x100_0000_0000_0000) as u8,
        ((k / 0x1_0000_0000_0000) % 256) as u8,
        ((k / 0x100_0000_0000) % 256) as u8,
        ((k / 0x1_0000_0000) % 256) as u8,
        ((k / 0x100_0000) % 256) as u8,
        ((k / 0x1_0000) % 256) as u8,
        ((k / 0x100) % 256) as u8,
        (k % 256) as u8,
    ]
}

/// The four bytes of `n`, most significant first.
pub open spec fn be_u32(n: u32) -> Seq<u8> {
    seq![
        (n / 0x100_0000) as u8,
        ((n / 0x1_0000) % 256) as u8,
        ((n / 0x100) % 256) as u8,
        (n % 256) as u8,
    ]
}

/// The number whose big-endian bytes are the eight bytes of `b` from `at` on.
pub open spec fn u64_at(b: Seq<u8>, at: int) -> u64 {
    (b[at] * 0x100_0000_0000_0000 + b[at + 1] * 0x1_0000_0000_0000 + b[at + 2] * 0x100_0000_0000
        + b[at + 3] * 0x1_0000_0000 + b[at + 4] * 0x100_0000 + b[at + 5] * 0x1_0000 + b[at + 6]
        * 0x100 + b[at + 7]) as u64
}

/// The number whose big-endian bytes are the four bytes of `b` from `at` on.
pub open spec fn u32_at(b: Seq<u8>, at: int) -> u32 {
    (b[at] * 0x100_0000 + b[at + 1] * 0x1_0000 + b[at + 2] * 0x100 + b[at + 3]) as u32
}

/// The frame of one record.
pub open spec fn frame(key: u64, value: Seq<u8>) -> Seq<u8> {
    be_u64(key) + be_u32(value.len() as u32) + value
}

/// The frame that starts at `pos`, with the position just behind it, if a
/// whole frame lies there.
pub open spec fn frame_at(bytes: Seq<u8>, pos: int) -> Option<((u64, Seq<u8>), int)> {
    if 0 <= pos && pos + 12 <= bytes.len() && pos + 12 + u32_at(bytes, pos + 8) <= bytes.len() {
        let end = pos + 12 + u32_at(bytes, pos + 8);
        Some(((u64_at(bytes, pos), bytes.subrange(pos + 12, end)), end))
    } else {
        None
    }
}

/// The records of the whole frames that follow one another from `pos` on.
pub open spec fn frames_from(bytes: Seq<u8>, pos: int) -> Seq<(u64, Seq<u8>)>
    decreases bytes.len() - pos,
{
    match frame_at(bytes, pos) {
        Some((rec, next)) => seq![rec] + frames_from(bytes, next),
        None => Seq::empty(),
    }
}

/// The position at which the run of whole frames from `pos` on ends.
pub open spec fn frames_end(bytes: Seq<u8>, pos: int) -> int
    decreases bytes.len() - pos,
{
    match frame_at(bytes, pos) {
        Some((rec, next)) => frames_end(bytes, next),
        None => pos,
    }
}

/// Whether `bytes` is a concatenation of whole frames and nothing else.
pub open spec fn well_framed(bytes: Seq<u8>) -> bool {
    frames_end(bytes, 0) == bytes.len()
}

/// The concatenated frames of `recs`, in order.
pub open spec fn encode_all(recs: Seq<(u64, Seq<u8>)>) -> Seq<u8>
    decreases recs.len(),
{
    if recs.len() == 0 {
        Seq::empty()
    } else {
        encode_all(recs.drop_last()) + frame(recs.last().0, recs.last().1)
    }
}

/// Whether every value of `recs` fits the length prefix.
pub open spec fn values_fit(recs: Seq<(u64, Seq<u8>)>) -> bool {
    forall|i: int| 0 <= i < recs.len() ==> (#[trigger] recs[i]).1.len() <= MAX_VALUE_LEN
}

/// The views of the records held by a vector.
pub open spec fn records_view(v: Seq<Record>) -> Seq<(u64, Seq<u8>)> {
    Seq::new(v.len(), |i: int| v[i]@)
}

/// Appends the big-endian bytes of `k` to `out`.
fn push_u64(out: &mut Vec<u8>, k: u64)
    ensures
        final(out)@ == old(out)@ + be_u64(k),
{
    out.push((k / 0x100_0000_0000_0000) as u8);
    out.push(((k / 0x1_0000_0000_0000) % 256) as u8);
    out.push(((k / 0x100_0000_0000) % 256) as u8);
    out.push(((k / 0x1_0000_0000) % 256) as u8);
    out.push(((k / 0x100_0000) % 256) as u8);
    out.push(((k / 0x1_0000) % 256) as u8);
    out.push(((k / 0x100) % 256) as u8);
    out.push((k % 256) as u8);
    assert(out@ =~= old(out)@ + be_u64(k));
}

/// Appends the big-endian bytes of `n` to `out`.
fn push_u32(out: &mut Vec<u8>, n: u32)
    ensures
        final(out)@ == old(out)@ + be_u32(n),
{
    out.push((n / 0x100_0000) as u8);
    out.push(((n / 0x1_0000) % 256) as u8);
    out.push(((n / 0x100) % 256) as u8);
    out.push((n % 256) as u8);
    assert(out@ =~= old(out)@ + be_u32(n));
}

/// Appends `src[from..to]` to `out`.
pub(crate) fn push_range(out: &mut Vec<u8>, src: &[u8], from: usize, to: usize)
    requires
        from <= to <= src@.len(),
    ensures
        final(out)@ == old(out)@ + src@.subrange(from as int, to as int),
{
    let mut i: usize = from;
    while i < to
        invariant
            from <= i <= to <= src@.len(),
            out@ == old(out)@ + src@.subrange(from as int, i as int),
        decreases to - i,
    {
        out.push(src[i]);
        i = i + 1;
        assert(out@ =~= old(out)@ + src@.subrange(from as int, i as int));
    }
}

/// Reads the big-endian number held in `bytes[at..at + 8]`.
fn read_u64(bytes: &[u8], at: usize) -> (k: u64)
    requires
        at + 8 <= bytes@.len(),
    ensures
        k == u64_at(bytes@, at as int),
{
    (bytes[at] as u64) * 0x100_0000_0000_0000 + (bytes[at + 1] as u64) * 0x1_0000_0000_0000 + (
    bytes[at + 2] as u64) * 0x100_0000_0000 + (bytes[at + 3] as u64) * 0x1_0000_0000 + (bytes[at
        + 4] as u64) * 0x100_0000 + (bytes[at + 5] as u64) * 0x1_0000 + (bytes[at + 6] as u64)
        * 0x100 + (bytes[at + 7] as u64)
}

/// Reads the big-endian number held in `bytes[at..at + 4]`.
fn read_u32(bytes: &[u8], at: usize) -> (n: u32)
    requires
        at + 4 <= bytes@.len(),
    ensures
        n == u32_at(bytes@, at as int),
{
    (bytes[at] as u32) * 0x100_0000 + (bytes[at + 1] as u32) * 0x1_0000 + (bytes[at + 2] as u32)
        * 0x100 + (bytes[at + 3] as u32)
}

/// Appends the frame of one record to `out`.
pub fn push_frame(out: &mut Vec<u8>, key: u64, value: &[u8])
    requires
        value@.len() <= MAX_VALUE_LEN,
    ensures
        final(out)@ == old(out)@ + frame(key, value@),
{
    push_u64(out, key);
    push_u32(out, value.len() as u32);
    push_range(out, value, 0, value.len());
    assert(value@.subrange(0, value@.len() as int) =~= value@);
    assert(out@ =~= old(out)@ + frame(key, value@));
}

/// A fresh vector with the bytes of `src`.
pub fn copy_bytes(src: &[u8]) -> (out: Vec<u8>)
    ensures
        out@ == src@,
{
    let mut out: Vec<u8> = Vec::new();
    push_range(&mut out, src, 0, src.len());
    assert(src@.subrange(0, src@.len() as int) =~= src@);
    out
}

/// Frames one record.
///
/// The value has to fit the length prefix; the store turns longer values
/// away before they get here.
pub fn encode(key: u64, value: &[u8]) -> (out: Vec<u8>)
    requires
        value@.len() <= MAX_VALUE_LEN,
    ensures
        out@ == frame(key, value@),
{
    let mut out: Vec<u8> = Vec::new();
    push_frame(&mut out, key, value);
    out
}

/// Finds the frame that starts at `pos` without copying its value: the
/// key, and where the value starts and ends.
///
/// `Ok(None)` is the end of the segment: no byte is left at `pos`. A frame
/// that the segment ends in the middle of is corrupt.
pub fn frame_span(bytes: &[u8], pos: usize) -> (r: Result<Option<(u64, usize, usize)>, StoreError>)
    ensures
        match r {
            Ok(None) => pos >= bytes@.len(),
            Ok(Some((key, start, end))) => {
                &&& pos < bytes@.len()
                &&& start == pos + 12
                &&& start <= end <= bytes@.len()
                &&& frame_at(bytes@, pos as int) == Some(
                    ((key, bytes@.subrange(start as int, end as int)), end as int),
                )
            },
            Err(e) => e == StoreError::CorruptSegment && pos < bytes@.len() && frame_at(
                bytes@,
                pos as int,
            ) is None,
        },
{
    let len = bytes.len();
    if pos >= len {
        return Ok(None);
    }
    if len - pos < HEADER_WIDTH {
        return Err(StoreError::CorruptSegment);
    }
    let key = read_u64(bytes, pos);
    let value_len = read_u32(bytes, pos + KEY_WIDTH) as usize;
    let start = pos + HEADER_WIDTH;
    if len - start < value_len {
        return Err(StoreError::CorruptSegment);
    }
    Ok(Some((key, start, start + value_len)))
}

/// Reads the frame that starts at `pos`: its record, and the position
/// behind it.
///
/// `Ok(None)` is the end of the segment: no byte is left at `pos`. A frame
/// that the segment ends in the middle of is corrupt.
pub fn decode_one(bytes: &[u8], pos: usize) -> (r: Result<Option<(Record, usize)>, StoreError>)
    ensures
        match r {
            Ok(None) => pos >= bytes@.len(),
            Ok(Some((rec, next))) => pos < bytes@.len() && frame_at(bytes@, pos as int) == Some(
                (rec@, next as int),
            ),
            Err(e) => e == StoreError::CorruptSegment && pos < bytes@.len() && frame_at(
                bytes@,
                pos as int,
            ) is None,
        },
{
    match frame_span(bytes, pos) {
        Ok(Some((key, start, end))) => {
            let mut value: Vec<u8> = Vec::new();
            push_range(&mut value, bytes, start, end);
            assert(value@ =~= bytes@.subrange(start as int, end as int));
            Ok(Some((Record { key, value }, end)))
        },
        Ok(None) => Ok(None),
        Err(e) => Err(StoreError::CorruptSegment),
    }
}

/// Reads a whole segment: its records in file order.
///
/// Fails with `CorruptSegment` exactly when the bytes are not a
/// concatenation of whole frames.
pub fn decode_all(bytes: &[u8]) -> (r: Result<Vec<Record>, StoreError>)
    ensures
        match r {
            Ok(recs) => well_framed(bytes@) && records_view(recs@) == frames_from(bytes@, 0),
            Err(e) => e == StoreError::CorruptSegment && !well_framed(bytes@),
        },
{
    let mut recs: Vec<Record> = Vec::new();
    let mut pos: usize = 0;
    loop
        invariant
            pos <= bytes@.len(),
            frames_from(bytes@, 0) == records_view(recs@) + frames_from(bytes@, pos as int),
            frames_end(bytes@, 0) == frames_end(bytes@, pos as int),
        decreases bytes@.len() - pos,
    {
        match decode_one(bytes, pos) {
            Ok(None) => {
                assert(records_view(recs@) + Seq::<(u64, Seq<u8>)>::empty() =~= records_view(
                    recs@,
                ));
                return Ok(recs);
            },
            Ok(Some((rec, next))) => {
                let ghost before = records_view(recs@);
                recs.push(rec);
                assert(records_view(recs@) =~= before + seq![rec@]);
                assert(before + (seq![rec@] + frames_from(bytes@, next as int)) =~= (before
                    + seq![rec@]) + frames_from(bytes@, next as int));
                pos = next;
            },
            Err(e) => {
                return Err(StoreError::CorruptSegment);
            },
        }
    }
}

/// A 64-bit number is the sum of its eight bytes, each at its place.
proof fn lemma_split_u64(k: u64)
    by (bit_vector)
    ensures
        k / 0x100_0000_0000_0000 < 256,
        (k / 0x100_0000_0000_0000) * 0x100_0000_0000_0000 + ((k / 0x1_0000_0000_0000) % 256)
            * 0x1_0000_0000_0000 + ((k / 0x100_0000_0000) % 256) * 0x100_0000_0000 + ((k
            / 0x1_0000_0000) % 256) * 0x1_0000_0000 + ((k / 0x100_0000) % 256) * 0x100_0000 + ((k
            / 0x1_0000) % 256) * 0x1_0000 + ((k / 0x100) % 256) * 0x100 + (k % 256) == k,
{
}

/// A 32-bit number is the sum of its four bytes, each at its place.
proof fn lemma_split_u32(n: u32)
    by (bit_vector)
    ensures
        n / 0x100_0000 < 256,
        (n / 0x100_0000) * 0x100_0000 + ((n / 0x1_0000) % 256) * 0x1_0000 + ((n / 0x100) % 256)
            * 0x100 + (n % 256) == n,
{
}

/// Eight bytes, each at its place, add up to a 64-bit number of which they
/// are the bytes.
proof fn lemma_join_u64(b0: u8, b1: u8, b2: u8, b3: u8, b4: u8, b5: u8, b6: u8, b7: u8, k: u64)
    by (bit_vector)
    requires
        k == b0 * 0x100_0000_0000_0000 + b1 * 0x1_0000_0000_0000 + b2 * 0x100_0000_0000 + b3
            * 0x1_0000_0000 + b4 * 0x100_0000 + b5 * 0x1_0000 + b6 * 0x100 + b7,
    ensures
        k / 0x100_0000_0000_0000 == b0,
        (k / 0x1_0000_0000_0000) % 256 == b1,
        (k / 0x100_0000_0000) % 256 == b2,
        (k / 0x1_0000_0000) % 256 == b3,
        (k / 0x100_0000) % 256 == b4,
        (k / 0x1_0000) % 256 == b5,
        (k / 0x100) % 256 == b6,
        k % 256 == b7,
{
}

/// Four bytes, each at its place, add up to a 32-bit number of which they
/// are the bytes.
proof fn lemma_join_u32(b0: u8, b1: u8, b2: u8, b3: u8, n: u32)
    by (bit_vector)
    requires
        n == b0 * 0x100_0000 + b1 * 0x1_0000 + b2 * 0x100 + b3,
    ensures
        n / 0x100_0000 == b0,
        (n / 0x1_0000) % 256 == b1,
        (n / 0x100) % 256 == b2,
        n % 256 == b3,
{
}

/// Reading back the big-endian bytes of a key gives the key.
pub proof fn lemma_u64_round_trip(b: Seq<u8>, at: int, k: u64)
    requires
        0 <= at,
        at + 8 <= b.len(),
        b.subrange(at, at + 8) == be_u64(k),
    ensures
        u64_at(b, at) == k,
{
    let w = b.subrange(at, at + 8);
    assert(b[at] == w[0] && b[at + 1] == w[1] && b[at + 2] == w[2] && b[at + 3] == w[3]);
    assert(b[at + 4] == w[4] && b[at + 5] == w[5] && b[at + 6] == w[6] && b[at + 7] == w[7]);
    lemma_split_u64(k);
}

/// Reading back the big-endian bytes of a length gives the length.
pub proof fn lemma_u32_round_trip(b: Seq<u8>, at: int, n: u32)
    requires
        0 <= at,
        at + 4 <= b.len(),
        b.subrange(at, at + 4) == be_u32(n),
    ensures
        u32_at(b, at) == n,
{
    let w = b.subrange(at, at + 4);
    assert(b[at] == w[0] && b[at + 1] == w[1] && b[at + 2] == w[2] && b[at + 3] == w[3]);
    lemma_split_u32(n);
}

/// A frame written behind `head` is read back from there as the record it
/// was made of.
pub proof fn lemma_frame_at_frame(head: Seq<u8>, key: u64, value: Seq<u8>, tail: Seq<u8>)
    requires
        value.len() <= MAX_VALUE_LEN,
    ensures
        frame_at(head + frame(key, value) + tail, head.len() as int) == Some(
            ((key, value), (head.len() + 12 + value.len()) as int),
        ),
{
    let all = head + frame(key, value) + tail;
    let at = head.len() as int;
    assert(all.subrange(at, at + 8) =~= be_u64(key));
    assert(all.subrange(at + 8, at + 12) =~= be_u32(value.len() as u32));
    lemma_u64_round_trip(all, at, key);
    lemma_u32_round_trip(all, at + 8, value.len() as u32);
    assert(all.subrange(at + 12, at + 12 + value.len()) =~= value);
}

/// Whether a frame lies at `pos` depends only on the bytes up to its end.
pub proof fn lemma_frame_at_extend(a: Seq<u8>, b: Seq<u8>, pos: int)
    requires
        frame_at(a, pos) is Some,
    ensures
        frame_at(a + b, pos) == frame_at(a, pos),
{
    let ab = a + b;
    assert(forall|i: int| 0 <= i < a.len() ==> ab[i] == a[i]);
    let end = pos + 12 + u32_at(a, pos + 8);
    assert(ab.subrange(pos + 12, end) =~= a.subrange(pos + 12, end));
}

/// Bytes added behind a run of whole frames leave the run as it was: it is
/// read first, and reading goes on behind it.
pub proof fn lemma_frames_extend(a: Seq<u8>, b: Seq<u8>, pos: int)
    requires
        0 <= pos <= a.len(),
        frames_end(a, pos) == a.len(),
    ensures
        frames_from(a + b, pos) == frames_from(a, pos) + frames_from(a + b, a.len() as int),
        frames_end(a + b, pos) == frames_end(a + b, a.len() as int),
    decreases a.len() - pos,
{
    match frame_at(a, pos) {
        Some((rec, next)) => {
            lemma_frame_at_extend(a, b, pos);
            lemma_frames_extend(a, b, next);
            assert(seq![rec] + (frames_from(a, next) + frames_from(a + b, a.len() as int)) =~= (
            seq![rec] + frames_from(a, next)) + frames_from(a + b, a.len() as int));
        },
        None => {
            assert(pos == a.len());
            assert(frames_from(a, pos) + frames_from(a + b, pos) =~= frames_from(a + b, pos));
        },
    }
}

/// Where the run of whole frames ends lies between its start and the end of
/// the bytes.
pub proof fn lemma_frames_end_bounds(bytes: Seq<u8>, pos: int)
    requires
        0 <= pos <= bytes.len(),
    ensures
        pos <= frames_end(bytes, pos) <= bytes.len(),
    decreases bytes.len() - pos,
{
    match frame_at(bytes, pos) {
        Some((rec, next)) => {
            lemma_frames_end_bounds(bytes, next);
        },
        None => {},
    }
}

/// Every value read from a segment fits the length prefix.
pub proof fn lemma_frames_fit(bytes: Seq<u8>, pos: int)
    ensures
        values_fit(frames_from(bytes, pos)),
    decreases bytes.len() - pos,
{
    match frame_at(bytes, pos) {
        Some((rec, next)) => {
            lemma_frames_fit(bytes, next);
            let rest = frames_from(bytes, next);
            assert forall|i: int| 0 <= i < frames_from(bytes, pos).len() implies (
            #[trigger] frames_from(bytes, pos)[i]).1.len() <= MAX_VALUE_LEN by {
                if i > 0 {
                    assert(frames_from(bytes, pos)[i] == rest[i - 1]);
                }
            }
        },
        None => {},
    }
}

/// One more frame behind a segment of whole frames gives a segment of whole
/// frames, with one more record.
pub proof fn lemma_frames_push(a: Seq<u8>, key: u64, value: Seq<u8>)
    requires
        well_framed(a),
        value.len() <= MAX_VALUE_LEN,
    ensures
        well_framed(a + frame(key, value)),
        frames_from(a + frame(key, value), 0) == frames_from(a, 0).push((key, value)),
{
    let f = frame(key, value);
    let all = a + f;
    let end: int = (a.len() + 12 + value.len()) as int;
    assert(f.len() == 12 + value.len());
    assert(end == all.len());
    lemma_frames_extend(a, f, 0);
    assert(frame_at(all, a.len() as int) == Some(((key, value), end))) by {
        lemma_frame_at_frame(a, key, value, Seq::empty());
        assert(a + f + Seq::<u8>::empty() =~= all);
    }
    assert(frame_at(all, end) is None);
    assert(frames_from(all, end) =~= Seq::<(u64, Seq<u8>)>::empty());
    assert(frames_end(all, end) == end);
    assert(frames_from(all, a.len() as int) =~= seq![(key, value)]);
    assert(frames_end(all, a.len() as int) == end);
    assert(frames_from(a, 0) + seq![(key, value)] =~= frames_from(a, 0).push((key, value)));
}

/// What is encoded is decoded again: a segment made of the frames of `recs`
/// consists of whole frames, and its records are `recs`.
pub proof fn lemma_decode_encode(recs: Seq<(u64, Seq<u8>)>)
    requires
        values_fit(recs),
    ensures
        well_framed(encode_all(recs)),
        frames_from(encode_all(recs), 0) == recs,
    decreases recs.len(),
{
    if recs.len() == 0 {
        assert(encode_all(recs).len() == 0);
        assert(frame_at(encode_all(recs), 0) is None);
    } else {
        let init = recs.drop_last();
        let last = recs.last();
        assert(values_fit(init)) by {
            assert forall|i: int| 0 <= i < init.len() implies (#[trigger] init[i]).1.len()
                <= MAX_VALUE_LEN by {
                assert(init[i] == recs[i]);
            }
        }
        lemma_decode_encode(init);
        lemma_frames_push(encode_all(init), last.0, last.1);
        assert(init.push(last) =~= recs);
    }
}

/// A segment of whole frames is the encoding of its records: between the
/// frames there is no padding.
pub proof fn lemma_encode_decode(bytes: Seq<u8>)
    requires
        well_framed(bytes),
    ensures
        encode_all(frames_from(bytes, 0)) == bytes,
{
    lemma_encode_frames(bytes, 0);
    assert(bytes.subrange(0, bytes.len() as int) =~= bytes);
}

/// The frames of `a` followed by those of `b` are the frames of `a + b`.
pub proof fn lemma_encode_all_concat(a: Seq<(u64, Seq<u8>)>, b: Seq<(u64, Seq<u8>)>)
    ensures
        encode_all(a + b) == encode_all(a) + encode_all(b),
    decreases b.len(),
{
    if b.len() == 0 {
        assert(a + b =~= a);
        assert(encode_all(a) + encode_all(b) =~= encode_all(a));
    } else {
        lemma_encode_all_concat(a, b.drop_last());
        assert((a + b).drop_last() =~= a + b.drop_last());
        assert((a + b).last() == b.last());
        assert(encode_all(a) + (encode_all(b.drop_last()) + frame(b.last().0, b.last().1)) =~= (
        encode_all(a) + encode_all(b.drop_last())) + frame(b.last().0, b.last().1));
    }
}

/// From a frame boundary on, the run of whole frames is the encoding of its
/// records.
pub proof fn lemma_encode_frames(bytes: Seq<u8>, pos: int)
    requires
        0 <= pos <= bytes.len(),
    ensures
        encode_all(frames_from(bytes, pos)) == bytes.subrange(pos, frames_end(bytes, pos)),
    decreases bytes.len() - pos,
{
    lemma_frames_end_bounds(bytes, pos);
    match frame_at(bytes, pos) {
        Some((rec, next)) => {
            lemma_encode_frames(bytes, next);
            lemma_frames_end_bounds(bytes, next);
            lemma_encode_all_concat(seq![rec], frames_from(bytes, next));
            let one = seq![rec];
            assert(one.drop_last() =~= Seq::<(u64, Seq<u8>)>::empty());
            assert(encode_all(one) =~= frame(rec.0, rec.1)) by {
                assert(encode_all(one.drop_last()) =~= Seq::<u8>::empty());
            }
            lemma_frame_bytes(bytes, pos);
            assert(bytes.subrange(pos, next) + bytes.subrange(next, frames_end(bytes, pos))
                =~= bytes.subrange(pos, frames_end(bytes, pos)));
        },
        None => {
            assert(bytes.subrange(pos, pos) =~= Seq::<u8>::empty());
        },
    }
}

/// The bytes of a whole frame are the frame of the record read from them.
pub proof fn lemma_frame_bytes(bytes: Seq<u8>, pos: int)
    requires
        frame_at(bytes, pos) is Some,
    ensures
        ({
            let (rec, next) = frame_at(bytes, pos)->0;
            bytes.subrange(pos, next) == frame(rec.0, rec.1)
        }),
{
    let (rec, next) = frame_at(bytes, pos)->0;
    let k = u64_at(bytes, pos);
    let n = u32_at(bytes, pos + 8);
    let f = frame(rec.0, rec.1);
    assert(rec.1.len() == n);
    assert(f.len() == 12 + n);
    assert(be_u64(k) =~= bytes.subrange(pos, pos + 8)) by {
        lemma_be_u64_of_bytes(bytes, pos);
    }
    assert(be_u32(n) =~= bytes.subrange(pos + 8, pos + 12)) by {
        lemma_be_u32_of_bytes(bytes, pos + 8);
    }
    assert(bytes.subrange(pos, next) =~= bytes.subrange(pos, pos + 8) + bytes.subrange(
        pos + 8,
        pos + 12,
    ) + bytes.subrange(pos + 12, next));
}

/// Eight bytes are the big-endian bytes of the number read from them.
pub proof fn lemma_be_u64_of_bytes(b: Seq<u8>, at: int)
    requires
        0 <= at,
        at + 8 <= b.len(),
    ensures
        be_u64(u64_at(b, at)) == b.subrange(at, at + 8),
{
    lemma_join_u64(
        b[at],
        b[at + 1],
        b[at + 2],
        b[at + 3],
        b[at + 4],
        b[at + 5],
        b[at + 6],
        b[at + 7],
        u64_at(b, at),
    );
    assert(be_u64(u64_at(b, at)) =~= b.subrange(at, at + 8));
}

/// Four bytes are the big-endian bytes of the number read from them.
pub proof fn lemma_be_u32_of_bytes(b: Seq<u8>, at: int)
    requires
        0 <= at,
        at + 4 <= b.len(),
    ensures
        be_u32(u32_at(b, at)) == b.subrange(at, at + 4),
{
    lemma_join_u32(b[at], b[at + 1], b[at + 2], b[at + 3], u32_at(b, at));
    assert(be_u32(u32_at(b, at)) =~= b.subrange(at, at + 4));
}

} // verus!
