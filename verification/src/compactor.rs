//! Compaction: several segments merged into one run, the newer segment
//! winning wherever two of them hold one key.

use vstd::prelude::*;
use crate::codec::{frames_from, lemma_frames_fit, well_framed};
use crate::error::StoreError;
use crate::memtable::Memtable;
use crate::records::{ascending, holds, pour, to_map, lemma_pour_contains, lemma_pour_last_wins,
    lemma_pour_other, lemma_to_map_index};
use crate::segment::scan;

verus! {

/// The segments held by a vector, as sequences of bytes.
pub open spec fn segments_view(v: Seq<Vec<u8>>) -> Seq<Seq<u8>> {
    Seq::new(v.len(), |i: int| v[i]@)
}

/// Whether each of `inputs` consists of whole frames.
pub open spec fn all_well_framed(inputs: Seq<Seq<u8>>) -> bool {
    forall|i: int| 0 <= i < inputs.len() ==> well_framed(#[trigger] inputs[i])
}

/// What the merge of `inputs` holds, the newest segment standing first:
/// the records of the oldest are written first and those of the newest
/// last, so that a newer record replaces an older one with its key.
pub open spec fn merge_spec(inputs: Seq<Seq<u8>>) -> Map<u64, Seq<u8>>
    decreases inputs.len(),
{
    if inputs.len() == 0 {
        Map::empty()
    } else {
        pour(merge_spec(inputs.drop_first()), frames_from(inputs[0], 0))
    }
}

/// Merges segments, given newest first, into a memtable of their own that
/// nothing flushes on the way.
///
/// Fails with `CorruptSegment` exactly when one of the segments does not
/// consist of whole frames.
pub fn merge(inputs: &Vec<Vec<u8>>) -> (r: Result<Memtable, StoreError>)
    ensures
        match r {
            Ok(m) => all_well_framed(segments_view(inputs@)) && m.wf() && m@ == merge_spec(
                segments_view(inputs@),
            ),
            Err(e) => e == StoreError::CorruptSegment && !all_well_framed(segments_view(inputs@)),
        },
{
    let ghost segs = segments_view(inputs@);
    let mut merged = Memtable::new();
    let mut i: usize = inputs.len();
    assert(segs.skip(i as int) =~= Seq::<Seq<u8>>::empty());
    while i > 0
        invariant
            i <= inputs@.len(),
            segs == segments_view(inputs@),
            merged.wf(),
            merged@ == merge_spec(segs.skip(i as int)),
            forall|j: int| i <= j < segs.len() ==> well_framed(#[trigger] segs[j]),
        decreases i,
    {
        let ghost rest = segs.skip(i as int);
        let ghost here = segs.skip(i - 1);
        assert(here.drop_first() =~= rest);
        assert(here[0] == segs[i - 1]);
        assert(segs[i - 1] == inputs@[i - 1]@);
        match scan(inputs[i - 1].as_slice()) {
            Ok(recs) => {
                proof {
                    lemma_frames_fit(segs[i - 1], 0);
                }
                merged.absorb(&recs);
            },
            Err(e) => {
                return Err(StoreError::CorruptSegment);
            },
        }
        i = i - 1;
    }
    assert(segs.skip(0) =~= segs);
    Ok(merged)
}

/// The merge holds a key exactly when one of the segments holds it.
pub proof fn lemma_merge_contains(inputs: Seq<Seq<u8>>, k: u64)
    ensures
        merge_spec(inputs).contains_key(k) <==> exists|i: int|
            0 <= i < inputs.len() && holds(frames_from(#[trigger] inputs[i], 0), k),
    decreases inputs.len(),
{
    if inputs.len() > 0 {
        let rest = inputs.drop_first();
        lemma_merge_contains(rest, k);
        lemma_pour_contains(merge_spec(rest), frames_from(inputs[0], 0), k);
        if exists|i: int| 0 <= i < rest.len() && holds(frames_from(#[trigger] rest[i], 0), k) {
            let i = choose|i: int|
                0 <= i < rest.len() && holds(frames_from(#[trigger] rest[i], 0), k);
            assert(rest[i] == inputs[i + 1]);
        }
        if exists|i: int| 0 <= i < inputs.len() && holds(frames_from(#[trigger] inputs[i], 0), k) {
            let i = choose|i: int|
                0 <= i < inputs.len() && holds(frames_from(#[trigger] inputs[i], 0), k);
            if i > 0 {
                assert(rest[i - 1] == inputs[i]);
            }
        }
    }
}

/// The merge gives each key the value of the newest segment that holds
/// it: where segment `i` holds `k` and no segment before it does, the
/// merge holds for `k` what segment `i` holds.
pub proof fn lemma_merge_newest_wins(inputs: Seq<Seq<u8>>, i: int, k: u64)
    requires
        0 <= i < inputs.len(),
        ascending(frames_from(inputs[i], 0)),
        holds(frames_from(inputs[i], 0), k),
        forall|j: int| 0 <= j < i ==> !holds(frames_from(#[trigger] inputs[j], 0), k),
    ensures
        merge_spec(inputs).contains_key(k),
        merge_spec(inputs)[k] == to_map(frames_from(inputs[i], 0))[k],
    decreases inputs.len(),
{
    let rest = inputs.drop_first();
    let first = frames_from(inputs[0], 0);
    if i == 0 {
        let at = choose|at: int| 0 <= at < first.len() && (#[trigger] first[at]).0 == k;
        assert forall|j: int| at < j < first.len() implies (#[trigger] first[j]).0
            != first[at].0 by {
            assert(first[at].0 < first[j].0);
        }
        lemma_pour_last_wins(merge_spec(rest), first, at);
        lemma_to_map_index(first, at);
    } else {
        assert(rest[i - 1] == inputs[i]);
        assert forall|j: int| 0 <= j < i - 1 implies !holds(
            frames_from(#[trigger] rest[j], 0),
            k,
        ) by {
            assert(rest[j] == inputs[j + 1]);
        }
        lemma_merge_newest_wins(rest, i - 1, k);
        assert(!holds(first, k));
        lemma_pour_other(merge_spec(rest), first, k);
    }
}

} // verus!
