//! Segments: immutable runs of frames, written in rising key order.

use vstd::prelude::*;
use crate::codec::{decode_all, frame_span, frames_end, frames_from, push_range, records_view,
    well_framed, Record};
use crate::error::StoreError;
use crate::records::{ascending, holds, to_map, lemma_to_map_contains, lemma_to_map_index};

verus! {

/// What a forward search for `k` finds in a run of records: the value beside
/// the first key that equals `k`, nothing once a greater key is met, and no
/// answer (`None`) where the run ends before either.
pub open spec fn search(recs: Seq<(u64, Seq<u8>)>, k: u64) -> Option<Option<Seq<u8>>>
    decreases recs.len(),
{
    if recs.len() == 0 {
        None
    } else if recs[0].0 == k {
        Some(Some(recs[0].1))
    } else if recs[0].0 > k {
        Some(None)
    } else {
        search(recs.skip(1), k)
    }
}

/// What a seek for `k` gives on a segment. The whole frames are searched
/// from the front; where they end without an answer, the key is absent if
/// the segment ends there too, and the segment is corrupt if it does not.
pub open spec fn seek_spec(bytes: Seq<u8>, k: u64) -> Result<Option<Seq<u8>>, StoreError> {
    match search(frames_from(bytes, 0), k) {
        Some(found) => Ok(found),
        None => if well_framed(bytes) {
            Ok(None)
        } else {
            Err(StoreError::CorruptSegment)
        },
    }
}

/// Whether `bytes` is a segment as a flush writes it: whole frames only, in
/// strictly rising key order.
pub open spec fn is_segment(bytes: Seq<u8>) -> bool {
    well_framed(bytes) && ascending(frames_from(bytes, 0))
}

/// The outcome of a lookup with its value taken as a sequence of bytes.
pub open spec fn value_view(r: Result<Option<Vec<u8>>, StoreError>) -> Result<
    Option<Seq<u8>>,
    StoreError,
> {
    match r {
        Ok(Some(v)) => Ok(Some(v@)),
        Ok(None) => Ok(None),
        Err(e) => Err(e),
    }
}

/// What a map holds under a key, if anything.
pub open spec fn map_get(m: Map<u64, Seq<u8>>, k: u64) -> Option<Seq<u8>> {
    if m.contains_key(k) {
        Some(m[k])
    } else {
        None
    }
}

/// Reads all records of a segment in file order.
///
/// Fails with `CorruptSegment` exactly when the bytes are not a
/// concatenation of whole frames.
pub fn scan(bytes: &[u8]) -> (r: Result<Vec<Record>, StoreError>)
    ensures
        match r {
            Ok(recs) => well_framed(bytes@) && records_view(recs@) == frames_from(bytes@, 0),
            Err(e) => e == StoreError::CorruptSegment && !well_framed(bytes@),
        },
{
    decode_all(bytes)
}

/// The smallest and the greatest key of a segment written in rising key
/// order: the keys of its first and of its last record. `Ok(None)` for a
/// segment without records.
pub fn bounds(bytes: &[u8]) -> (r: Result<Option<(u64, u64)>, StoreError>)
    ensures
        match r {
            Ok(Some((lo, hi))) => {
                &&& well_framed(bytes@)
                &&& frames_from(bytes@, 0).len() > 0
                &&& lo == frames_from(bytes@, 0)[0].0
                &&& hi == frames_from(bytes@, 0).last().0
            },
            Ok(None) => well_framed(bytes@) && frames_from(bytes@, 0).len() == 0,
            Err(e) => e == StoreError::CorruptSegment && !well_framed(bytes@),
        },
{
    let mut pos: usize = 0;
    let mut ends: Option<(u64, u64)> = None;
    let ghost mut seen: Seq<(u64, Seq<u8>)> = Seq::empty();
    assert(seen + frames_from(bytes@, 0) =~= frames_from(bytes@, 0));
    loop
        invariant
            pos <= bytes@.len(),
            frames_from(bytes@, 0) == seen + frames_from(bytes@, pos as int),
            frames_end(bytes@, 0) == frames_end(bytes@, pos as int),
            match ends {
                Some((lo, hi)) => seen.len() > 0 && lo == seen[0].0 && hi == seen.last().0,
                None => seen.len() == 0,
            },
        decreases bytes@.len() - pos,
    {
        match frame_span(bytes, pos) {
            Ok(None) => {
                assert(seen + Seq::<(u64, Seq<u8>)>::empty() =~= seen);
                return Ok(ends);
            },
            Ok(Some((key, start, end))) => {
                let ghost rec = (key, bytes@.subrange(start as int, end as int));
                proof {
                    assert(seen + (seq![rec] + frames_from(bytes@, end as int)) =~= seen.push(rec)
                        + frames_from(bytes@, end as int));
                    seen = seen.push(rec);
                }
                ends = match ends {
                    Some((lo, hi)) => Some((lo, key)),
                    None => Some((key, key)),
                };
                pos = end;
            },
            Err(e) => {
                return Err(StoreError::CorruptSegment);
            },
        }
    }
}

/// Looks for the record with key `key` by reading the segment from the
/// front, and stops at the first key that is not smaller.
pub fn seek(bytes: &[u8], key: u64) -> (r: Result<Option<Vec<u8>>, StoreError>)
    ensures
        value_view(r) == seek_spec(bytes@, key),
{
    let mut pos: usize = 0;
    loop
        invariant
            pos <= bytes@.len(),
            search(frames_from(bytes@, 0), key) == search(frames_from(bytes@, pos as int), key),
            frames_end(bytes@, 0) == frames_end(bytes@, pos as int),
        decreases bytes@.len() - pos,
    {
        match frame_span(bytes, pos) {
            Ok(None) => {
                return Ok(None);
            },
            Ok(Some((found, start, end))) => {
                let ghost rec = (found, bytes@.subrange(start as int, end as int));
                let ghost rest = frames_from(bytes@, end as int);
                assert(frames_from(bytes@, pos as int) == seq![rec] + rest);
                assert((seq![rec] + rest).skip(1) =~= rest);
                if found == key {
                    let mut value: Vec<u8> = Vec::new();
                    push_range(&mut value, bytes, start, end);
                    assert(value@ =~= rec.1);
                    return Ok(Some(value));
                }
                if found > key {
                    return Ok(None);
                }
                pos = end;
            },
            Err(e) => {
                return Err(StoreError::CorruptSegment);
            },
        }
    }
}

/// In a rising run the forward search finds a key exactly when the run has
/// it, and then the value beside it.
pub proof fn lemma_search_ascending(recs: Seq<(u64, Seq<u8>)>, k: u64)
    requires
        ascending(recs),
    ensures
        match search(recs, k) {
            Some(Some(v)) => to_map(recs).contains_key(k) && to_map(recs)[k] == v,
            Some(None) => !to_map(recs).contains_key(k),
            None => !to_map(recs).contains_key(k),
        },
    decreases recs.len(),
{
    lemma_to_map_contains(recs, k);
    if recs.len() == 0 {
    } else if recs[0].0 == k {
        lemma_to_map_index(recs, 0);
    } else if recs[0].0 > k {
        if holds(recs, k) {
            let i = choose|i: int| 0 <= i < recs.len() && (#[trigger] recs[i]).0 == k;
            assert(recs[0].0 <= recs[i].0);
        }
    } else {
        let rest = recs.skip(1);
        assert forall|i: int, j: int| 0 <= i < j < rest.len() implies rest[i].0 < rest[j].0 by {
            assert(rest[i] == recs[i + 1]);
            assert(rest[j] == recs[j + 1]);
        }
        lemma_search_ascending(rest, k);
        lemma_to_map_contains(rest, k);
        if holds(rest, k) {
            let i = choose|i: int| 0 <= i < rest.len() && (#[trigger] rest[i]).0 == k;
            assert(recs[i + 1].0 == k);
            lemma_to_map_index(rest, i);
            lemma_to_map_index(recs, i + 1);
        }
        if holds(recs, k) {
            let i = choose|i: int| 0 <= i < recs.len() && (#[trigger] recs[i]).0 == k;
            assert(i > 0);
            assert(rest[i - 1].0 == k);
        }
    }
}

/// A seek on a well-made segment answers as the map of its records does.
pub proof fn lemma_seek_segment(bytes: Seq<u8>, k: u64)
    requires
        is_segment(bytes),
    ensures
        seek_spec(bytes, k) == Ok::<Option<Seq<u8>>, StoreError>(
            map_get(to_map(frames_from(bytes, 0)), k),
        ),
{
    lemma_search_ascending(frames_from(bytes, 0), k);
}

} // verus!
