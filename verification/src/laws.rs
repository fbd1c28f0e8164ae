//! What holds of the engine together with the files its caller keeps for
//! it: what lookups find after inserts, flushes, compaction and reopening.
//!
//! The disk is a map from paths to file contents. A caller that does as the
//! engine says writes the planned bytes at the planned path before it
//! completes a flush, and hands `seek_key` the contents of the file that
//! `get` named. The whole operations of `memdisk` do so, and their
//! contracts are stated over the worlds defined here.

use vstd::prelude::*;
use crate::codec::{encode_all, frames_from, values_fit, lemma_decode_encode, lemma_frames_fit,
    MAX_VALUE_LEN};
use crate::compactor::{all_well_framed, merge_spec, lemma_merge_newest_wins};
use crate::directory::{covers, last_retired, locate_index, locate_spec, newest_first,
    replace_spec, without, EntryView};
use crate::error::StoreError;
use crate::records::{ascending, holds, pour, put_run, run_of, to_map, lemma_put_run, lemma_run_of,
    lemma_to_map_contains};
use crate::segment::{is_segment, seek_spec, lemma_seek_segment};
use crate::store::{later, registered, EngineView, FoundSegment, COMPACT_LIM};
use crate::naming::segment_name;

verus! {

/// The outcome of a lookup that found `v`.
pub open spec fn hit(v: Seq<u8>) -> Result<Option<Seq<u8>>, StoreError> {
    Ok(Some(v))
}

/// Whether a lookup found a value.
pub open spec fn is_hit(r: Result<Option<Seq<u8>>, StoreError>) -> bool {
    match r {
        Ok(Some(_)) => true,
        _ => false,
    }
}

/// The outcome of a lookup that found nothing.
pub open spec fn miss() -> Result<Option<Seq<u8>>, StoreError> {
    Ok(None)
}

/// What a lookup of `k` comes to: the answer of the memtable where it has
/// the key, else that of a seek in the segment that the directory names,
/// and nothing where it names none. A file that is not there cannot be
/// read.
pub open spec fn lookup(store: EngineView, disk: Map<Seq<char>, Seq<u8>>, k: u64) -> Result<
    Option<Seq<u8>>,
    StoreError,
> {
    if store.memtable.contains_key(k) {
        hit(store.memtable[k])
    } else {
        match locate_spec(store.directory, k) {
            None => miss(),
            Some(path) => if disk.contains_key(path) {
                seek_spec(disk[path], k)
            } else {
                Err(StoreError::IoError)
            },
        }
    }
}

/// Whether every key of `recs` lies between `lo` and `hi`.
pub open spec fn within(recs: Seq<(u64, Seq<u8>)>, lo: u64, hi: u64) -> bool {
    forall|i: int| 0 <= i < recs.len() ==> lo <= (#[trigger] recs[i]).0 <= hi
}

/// Whether the file of a registered segment is on disk, is a segment, and
/// keeps to the key range it is registered with.
pub open spec fn entry_sound(e: EntryView, disk: Map<Seq<char>, Seq<u8>>) -> bool {
    &&& disk.contains_key(e.path)
    &&& is_segment(disk[e.path])
    &&& within(frames_from(disk[e.path], 0), e.min_key, e.max_key)
}

/// Whether every registered segment is sound.
pub open spec fn sound(dir: Seq<EntryView>, disk: Map<Seq<char>, Seq<u8>>) -> bool {
    forall|i: int| 0 <= i < dir.len() ==> entry_sound(#[trigger] dir[i], disk)
}

/// Whether `m` is what a memtable can hold: the map of a rising run of
/// values that fit a frame.
pub open spec fn has_run(m: Map<u64, Seq<u8>>) -> bool {
    &&& ascending(run_of(m))
    &&& to_map(run_of(m)) == m
    &&& values_fit(run_of(m))
}

/// An engine with the files that belong to it.
pub struct World {
    pub store: EngineView,
    pub disk: Map<Seq<char>, Seq<u8>>,
}

impl World {
    /// Whether the memtable and every registered segment are in order.
    pub open spec fn ok(self) -> bool {
        has_run(self.store.memtable) && sound(self.store.directory, self.disk)
    }

    /// What a lookup of `k` comes to.
    pub open spec fn lookup(self, k: u64) -> Result<Option<Seq<u8>>, StoreError> {
        lookup(self.store, self.disk, k)
    }
}

/// One insert with the time at which it is made.
pub struct Put {
    pub key: u64,
    pub value: Seq<u8>,
    pub allow_flush: bool,
    pub now_ms: u64,
}

/// The world after a whole insert whose file operations succeed: where the
/// engine asks for a flush, the planned segment is written and registered
/// and the memtable starts afresh; then the pair is stored. Where no
/// segment name is to be had, the flush cannot be planned and nothing is
/// stored.
pub open spec fn put(w: World, op: Put) -> World {
    if w.store.must_flush(op.value.len(), op.allow_flush) {
        match w.store.fresh_path(op.now_ms) {
            Some(path) => World {
                store: w.store.issued(op.now_ms).flushed(path).stored(op.key, op.value),
                disk: w.disk.insert(path, encode_all(w.store.run())),
            },
            None => World { store: w.store.issued(op.now_ms), disk: w.disk },
        }
    } else {
        World { store: w.store.stored(op.key, op.value), disk: w.disk }
    }
}

/// The world after the inserts `ops`, made in order.
pub open spec fn puts(w: World, ops: Seq<Put>) -> World
    decreases ops.len(),
{
    if ops.len() == 0 {
        w
    } else {
        put(puts(w, ops.drop_last()), ops.last())
    }
}

/// Whether the flush that `op` brings about, if any, can be planned and
/// hides nothing: no key that a lookup finds in a segment lies in the key
/// range of the memtable without being in the memtable.
pub open spec fn clean_step(w: World, op: Put) -> bool {
    w.store.must_flush(op.value.len(), op.allow_flush) ==> {
        &&& w.store.fresh_path(op.now_ms) is Some
        &&& forall|q: u64|
            !w.store.memtable.contains_key(q) && w.store.run()[0].0 <= q
                <= w.store.run().last().0 ==> !is_hit(#[trigger] w.lookup(q))
    }
}

/// Whether each of the inserts `ops` is a clean step in the world it meets.
pub open spec fn clean(w: World, ops: Seq<Put>) -> bool
    decreases ops.len(),
{
    if ops.len() == 0 {
        true
    } else {
        clean(w, ops.drop_last()) && clean_step(puts(w, ops.drop_last()), ops.last())
    }
}

/// Whether every value of `ops` fits a frame.
pub open spec fn puts_fit(ops: Seq<Put>) -> bool {
    forall|i: int| 0 <= i < ops.len() ==> (#[trigger] ops[i]).value.len() <= MAX_VALUE_LEN
}

/// The empty map is what an empty memtable holds.
pub proof fn lemma_has_run_empty()
    ensures
        has_run(Map::<u64, Seq<u8>>::empty()),
        run_of(Map::<u64, Seq<u8>>::empty()) == Seq::<(u64, Seq<u8>)>::empty(),
{
    lemma_run_of(Seq::<(u64, Seq<u8>)>::empty());
}

/// What a memtable can hold, it can still hold with one more pair; its
/// run is then the old run with the pair put in.
pub proof fn lemma_has_run_insert(m: Map<u64, Seq<u8>>, k: u64, v: Seq<u8>)
    requires
        has_run(m),
        v.len() <= MAX_VALUE_LEN,
    ensures
        has_run(m.insert(k, v)),
        run_of(m.insert(k, v)) == put_run(run_of(m), k, v),
{
    lemma_put_run(run_of(m), k, v);
    lemma_run_of(put_run(run_of(m), k, v));
}

/// An insert that stores is seen by the next lookup of its key, and
/// changes the lookup of no other key.
pub proof fn lemma_stored_lookup(
    store: EngineView,
    disk: Map<Seq<char>, Seq<u8>>,
    k: u64,
    v: Seq<u8>,
    q: u64,
)
    ensures
        lookup(store.stored(k, v), disk, q) == if q == k {
            hit(v)
        } else {
            lookup(store, disk, q)
        },
{
}

/// The segment to read for a key that the newest range does not cover is
/// the one that was to be read before.
pub proof fn lemma_locate_push(dir: Seq<EntryView>, e: EntryView, k: u64)
    ensures
        covers(e, k) ==> locate_spec(dir.push(e), k) == Some(e.path),
        !covers(e, k) ==> locate_spec(dir.push(e), k) == locate_spec(dir, k),
{
    assert(dir.push(e).drop_last() =~= dir);
    assert(dir.push(e).last() == e);
    lemma_locate_index_bounds(dir, k);
    if !covers(e, k) {
        match locate_index(dir, k) {
            Some(i) => {
                assert(dir.push(e)[i] == dir[i]);
            },
            None => {},
        }
    }
}

/// The index of the segment to read lies in the directory, and its range
/// covers the key.
pub proof fn lemma_locate_index_bounds(dir: Seq<EntryView>, k: u64)
    ensures
        locate_index(dir, k) matches Some(i) ==> 0 <= i < dir.len() && covers(dir[i], k),
    decreases dir.len(),
{
    if dir.len() > 0 && !covers(dir.last(), k) {
        lemma_locate_index_bounds(dir.drop_last(), k);
        match locate_index(dir.drop_last(), k) {
            Some(i) => {
                assert(dir.drop_last()[i] == dir[i]);
            },
            None => {},
        }
    }
}

/// After a flush whose segment was written at a path that no segment was
/// registered under, every key of the memtable is found as before, in the
/// new segment. A key outside the range of the new segment is looked up
/// as before. A key inside the range that the memtable did not hold is
/// found nowhere.
pub proof fn lemma_flushed_lookup(
    store: EngineView,
    disk: Map<Seq<char>, Seq<u8>>,
    path: Seq<char>,
    q: u64,
)
    requires
        has_run(store.memtable),
        store.run().len() > 0,
        sound(store.directory, disk),
        !registered(store.directory, path),
    ensures
        ({
            let after = World {
                store: store.flushed(path),
                disk: disk.insert(path, encode_all(store.run())),
            };
            &&& after.ok()
            &&& after.lookup(q) == if store.memtable.contains_key(q) {
                hit(store.memtable[q])
            } else if store.run()[0].0 <= q <= store.run().last().0 {
                miss()
            } else {
                lookup(store, disk, q)
            }
        }),
{
    let run = store.run();
    let bytes = encode_all(run);
    let after = store.flushed(path);
    let disk2 = disk.insert(path, bytes);
    let e = EntryView { min_key: run[0].0, max_key: run.last().0, path };
    lemma_has_run_empty();
    lemma_decode_encode(run);
    assert(is_segment(bytes));
    assert(within(run, e.min_key, e.max_key)) by {
        assert forall|i: int| 0 <= i < run.len() implies e.min_key <= (#[trigger] run[i]).0
            <= e.max_key by {
            if 0 < i {
                assert(run[0].0 < run[i].0);
            }
            if i < run.len() - 1 {
                assert(run[i].0 < run[run.len() - 1].0);
            }
        }
    }
    assert forall|i: int| 0 <= i < after.directory.len() implies entry_sound(
        #[trigger] after.directory[i],
        disk2,
    ) by {
        if i < store.directory.len() {
            assert(after.directory[i] == store.directory[i]);
            assert(entry_sound(store.directory[i], disk));
            assert(store.directory[i].path != path);
        } else {
            assert(after.directory[i] == e);
        }
    }
    lemma_locate_push(store.directory, e, q);
    lemma_locate_index_bounds(store.directory, q);
    lemma_to_map_contains(run, q);
    if covers(e, q) {
        lemma_seek_segment(bytes, q);
    } else {
        if store.memtable.contains_key(q) {
            let i = choose|i: int| 0 <= i < run.len() && (#[trigger] run[i]).0 == q;
            assert(e.min_key <= run[i].0 <= e.max_key);
        }
        match locate_index(store.directory, q) {
            Some(i) => {
                assert(store.directory[i].path != path);
            },
            None => {},
        }
    }
}

/// One clean insert leaves the world in order, is seen by the next lookup
/// of its key, and leaves every other key that a lookup found to be found
/// with its value.
pub proof fn lemma_put_step(w: World, op: Put, q: u64, x: Seq<u8>)
    requires
        w.ok(),
        op.value.len() <= MAX_VALUE_LEN,
        clean_step(w, op),
    ensures
        put(w, op).ok(),
        put(w, op).lookup(op.key) == hit(op.value),
        q != op.key && w.lookup(q) == hit(x) ==> put(w, op).lookup(q) == hit(x),
{
    if w.store.must_flush(op.value.len(), op.allow_flush) {
        let path = w.store.fresh_path(op.now_ms)->0;
        let issued = w.store.issued(op.now_ms);
        let flushed = issued.flushed(path);
        let disk2 = w.disk.insert(path, encode_all(w.store.run()));
        assert(issued.memtable == w.store.memtable);
        assert(issued.directory == w.store.directory);
        lemma_flushed_lookup(issued, w.disk, path, q);
        lemma_flushed_lookup(issued, w.disk, path, op.key);
        lemma_has_run_insert(flushed.memtable, op.key, op.value);
        lemma_stored_lookup(flushed, disk2, op.key, op.value, q);
        lemma_stored_lookup(flushed, disk2, op.key, op.value, op.key);
        if q != op.key && w.lookup(q) == hit(x) {
            assert(lookup(issued, w.disk, q) == w.lookup(q));
        }
    } else {
        lemma_has_run_insert(w.store.memtable, op.key, op.value);
        lemma_stored_lookup(w.store, w.disk, op.key, op.value, q);
        lemma_stored_lookup(w.store, w.disk, op.key, op.value, op.key);
    }
}

/// Clean inserts leave the world in order.
pub proof fn lemma_puts_ok(w: World, ops: Seq<Put>)
    requires
        w.ok(),
        puts_fit(ops),
        clean(w, ops),
    ensures
        puts(w, ops).ok(),
    decreases ops.len(),
{
    if ops.len() > 0 {
        let init = ops.drop_last();
        assert(puts_fit(init)) by {
            assert forall|i: int| 0 <= i < init.len() implies (#[trigger] init[i]).value.len()
                <= MAX_VALUE_LEN by {
                assert(init[i] == ops[i]);
            }
        }
        lemma_puts_ok(w, init);
        assert(ops[ops.len() - 1].value.len() <= MAX_VALUE_LEN);
        lemma_put_step(puts(w, init), ops.last(), 0, Seq::empty());
    }
}

/// After clean inserts a key is found with the value of the last insert
/// under it, whether or not the memtable was flushed in between or since.
pub proof fn lemma_last_insert_found(w: World, ops: Seq<Put>, i: int)
    requires
        w.ok(),
        puts_fit(ops),
        clean(w, ops),
        0 <= i < ops.len(),
        forall|j: int| i < j < ops.len() ==> (#[trigger] ops[j]).key != ops[i].key,
    ensures
        puts(w, ops).lookup(ops[i].key) == hit(ops[i].value),
    decreases ops.len(),
{
    let init = ops.drop_last();
    let last = ops.last();
    assert(puts_fit(init)) by {
        assert forall|j: int| 0 <= j < init.len() implies (#[trigger] init[j]).value.len()
            <= MAX_VALUE_LEN by {
            assert(init[j] == ops[j]);
        }
    }
    lemma_puts_ok(w, init);
    assert(ops[ops.len() - 1].value.len() <= MAX_VALUE_LEN);
    if i == ops.len() - 1 {
        lemma_put_step(puts(w, init), last, 0, Seq::empty());
    } else {
        assert(init[i] == ops[i]);
        assert forall|j: int| i < j < init.len() implies (#[trigger] init[j]).key
            != init[i].key by {
            assert(init[j] == ops[j]);
        }
        lemma_last_insert_found(w, init, i);
        assert(ops[ops.len() - 1].key != ops[i].key);
        lemma_put_step(puts(w, init), last, ops[i].key, ops[i].value);
    }
}

/// Round trip: after inserts under keys that all differ, each key is found
/// with the value it was inserted with, whether or not the memtable was
/// flushed in between, as long as every flush could be planned and hid
/// nothing.
pub proof fn lemma_round_trip(w: World, ops: Seq<Put>, i: int)
    requires
        w.ok(),
        puts_fit(ops),
        clean(w, ops),
        forall|a: int, b: int| 0 <= a < b < ops.len() ==> ops[a].key != ops[b].key,
        0 <= i < ops.len(),
    ensures
        puts(w, ops).lookup(ops[i].key) == hit(ops[i].value),
{
    lemma_last_insert_found(w, ops, i);
}

/// Flush: the memtable starts afresh with a byte count of zero, and the
/// segment that was written is registered as the latest. Read back, it
/// gives the records that the memtable held, in strictly rising key order.
pub proof fn lemma_flush(store: EngineView, path: Seq<char>)
    requires
        has_run(store.memtable),
        store.run().len() > 0,
    ensures
        store.flushed(path).memtable == Map::<u64, Seq<u8>>::empty(),
        store.flushed(path).size() == 0,
        store.flushed(path).directory.len() == store.directory.len() + 1,
        store.flushed(path).directory.last().path == path,
        is_segment(encode_all(store.run())),
        frames_from(encode_all(store.run()), 0) == store.run(),
{
    lemma_has_run_empty();
    lemma_decode_encode(store.run());
}

/// A registered segment file stays as it is: inserts, with the flushes
/// they bring about, neither write to its path nor take it from the
/// directory.
pub proof fn lemma_registered_files_stay(w: World, ops: Seq<Put>, path: Seq<char>)
    requires
        registered(w.store.directory, path),
    ensures
        registered(puts(w, ops).store.directory, path),
        puts(w, ops).disk.contains_key(path) == w.disk.contains_key(path),
        puts(w, ops).disk[path] == w.disk[path],
    decreases ops.len(),
{
    if ops.len() > 0 {
        let init = ops.drop_last();
        lemma_registered_files_stay(w, init, path);
        let before = puts(w, init);
        let after = put(before, ops.last());
        let i = choose|i: int|
            0 <= i < before.store.directory.len() && (#[trigger] before.store.directory[i]).path
                == path;
        assert(after.store.directory[i] == before.store.directory[i]);
    }
}

/// Order in segments: after clean inserts every registered segment file
/// consists of whole frames whose keys rise strictly.
pub proof fn lemma_segments_ordered(w: World, ops: Seq<Put>, i: int)
    requires
        w.ok(),
        puts_fit(ops),
        clean(w, ops),
        0 <= i < puts(w, ops).store.directory.len(),
    ensures
        puts(w, ops).disk.contains_key(puts(w, ops).store.directory[i].path),
        is_segment(puts(w, ops).disk[puts(w, ops).store.directory[i].path]),
{
    lemma_puts_ok(w, ops);
}

/// Last writer wins: after inserts made without a flush, a key is found
/// with the value of the last insert under it.
pub proof fn lemma_last_writer_wins(w: World, ops: Seq<Put>, i: int)
    requires
        forall|j: int| 0 <= j < ops.len() ==> !(#[trigger] ops[j]).allow_flush,
        0 <= i < ops.len(),
        forall|j: int| i < j < ops.len() ==> (#[trigger] ops[j]).key != ops[i].key,
    ensures
        puts(w, ops).lookup(ops[i].key) == hit(ops[i].value),
        puts(w, ops).disk == w.disk,
        puts(w, ops).store.directory == w.store.directory,
    decreases ops.len(),
{
    let init = ops.drop_last();
    let last = ops.last();
    assert(!ops[ops.len() - 1].allow_flush);
    assert forall|j: int| 0 <= j < init.len() implies !(#[trigger] init[j]).allow_flush by {
        assert(init[j] == ops[j]);
    }
    lemma_no_flush_keeps_segments(w, init);
    let before = puts(w, init);
    if i < ops.len() - 1 {
        assert(init[i] == ops[i]);
        assert forall|j: int| i < j < init.len() implies (#[trigger] init[j]).key
            != init[i].key by {
            assert(init[j] == ops[j]);
        }
        lemma_last_writer_wins(w, init, i);
        assert(ops[ops.len() - 1].key != ops[i].key);
        lemma_stored_lookup(before.store, before.disk, last.key, last.value, ops[i].key);
    } else {
        lemma_stored_lookup(before.store, before.disk, last.key, last.value, last.key);
    }
}

/// Inserts that may not flush leave the disk and the directory alone.
pub proof fn lemma_no_flush_keeps_segments(w: World, ops: Seq<Put>)
    requires
        forall|j: int| 0 <= j < ops.len() ==> !(#[trigger] ops[j]).allow_flush,
    ensures
        puts(w, ops).disk == w.disk,
        puts(w, ops).store.directory == w.store.directory,
    decreases ops.len(),
{
    if ops.len() > 0 {
        let init = ops.drop_last();
        assert(!ops[ops.len() - 1].allow_flush);
        assert forall|j: int| 0 <= j < init.len() implies !(#[trigger] init[j]).allow_flush by {
            assert(init[j] == ops[j]);
        }
        lemma_no_flush_keeps_segments(w, init);
    }
}

/// The contents of the files at `paths`.
pub open spec fn files_at(disk: Map<Seq<char>, Seq<u8>>, paths: Seq<Seq<char>>) -> Seq<Seq<u8>> {
    Seq::new(paths.len(), |i: int| disk[paths[i]])
}

/// Records poured into what a memtable can hold give what a memtable can
/// hold.
pub proof fn lemma_pour_has_run(base: Map<u64, Seq<u8>>, recs: Seq<(u64, Seq<u8>)>)
    requires
        has_run(base),
        values_fit(recs),
    ensures
        has_run(pour(base, recs)),
    decreases recs.len(),
{
    if recs.len() > 0 {
        let init = recs.drop_last();
        assert(values_fit(init)) by {
            assert forall|i: int| 0 <= i < init.len() implies (#[trigger] init[i]).1.len()
                <= MAX_VALUE_LEN by {
                assert(init[i] == recs[i]);
            }
        }
        lemma_pour_has_run(base, init);
        assert(recs[recs.len() - 1].1.len() <= MAX_VALUE_LEN);
        lemma_has_run_insert(pour(base, init), recs.last().0, recs.last().1);
    }
}

/// The merge of segments is what a memtable can hold.
pub proof fn lemma_merge_has_run(inputs: Seq<Seq<u8>>)
    ensures
        has_run(merge_spec(inputs)),
    decreases inputs.len(),
{
    if inputs.len() == 0 {
        lemma_has_run_empty();
    } else {
        lemma_merge_has_run(inputs.drop_first());
        lemma_frames_fit(inputs[0], 0);
        lemma_pour_has_run(merge_spec(inputs.drop_first()), frames_from(inputs[0], 0));
    }
}

/// No range behind the segment to read covers the key.
pub proof fn lemma_locate_greatest(dir: Seq<EntryView>, k: u64)
    ensures
        locate_index(dir, k) matches Some(i) ==> forall|j: int|
            i < j < dir.len() ==> !covers(#[trigger] dir[j], k),
        locate_index(dir, k) is None ==> forall|j: int|
            0 <= j < dir.len() ==> !covers(#[trigger] dir[j], k),
    decreases dir.len(),
{
    if dir.len() > 0 && !covers(dir.last(), k) {
        let init = dir.drop_last();
        lemma_locate_greatest(init, k);
        lemma_locate_index_bounds(init, k);
        match locate_index(init, k) {
            Some(i) => {
                assert forall|j: int| i < j < dir.len() implies !covers(#[trigger] dir[j], k) by {
                    if j < init.len() {
                        assert(init[j] == dir[j]);
                    }
                }
            },
            None => {
                assert forall|j: int| 0 <= j < dir.len() implies !covers(#[trigger] dir[j], k) by {
                    if j < init.len() {
                        assert(init[j] == dir[j]);
                    }
                }
            },
        }
    }
}

/// Nothing is left of entries that are all retired.
pub proof fn lemma_without_all(dir: Seq<EntryView>, retired: Seq<Seq<char>>)
    requires
        forall|i: int| 0 <= i < dir.len() ==> retired.contains((#[trigger] dir[i]).path),
    ensures
        without(dir, retired) == Seq::<EntryView>::empty(),
    decreases dir.len(),
{
    if dir.len() > 0 {
        let init = dir.drop_last();
        assert(retired.contains(dir[dir.len() - 1].path));
        assert forall|i: int| 0 <= i < init.len() implies retired.contains(
            (#[trigger] init[i]).path,
        ) by {
            assert(init[i] == dir[i]);
        }
        lemma_without_all(init, retired);
    }
}

/// Where all registered segments are retired, the merged segment is the
/// only one left.
pub proof fn lemma_replace_all(dir: Seq<EntryView>, merged: EntryView)
    requires
        dir.len() > 0,
    ensures
        replace_spec(dir, newest_first(dir), merged) == seq![merged],
{
    let retired = newest_first(dir);
    assert forall|i: int| 0 <= i < dir.len() implies retired.contains(
        (#[trigger] dir[i]).path,
    ) by {
        assert(retired[dir.len() - 1 - i] == dir[i].path);
    }
    assert(retired.contains(dir[dir.len() - 1].path));
    assert(last_retired(dir, retired) == Some(dir.len() - 1));
    let head = dir.take(dir.len() - 1);
    assert forall|i: int| 0 <= i < head.len() implies retired.contains(
        (#[trigger] head[i]).path,
    ) by {
        assert(head[i] == dir[i]);
    }
    lemma_without_all(head, retired);
    assert(dir.skip(dir.len() as int) =~= Seq::<EntryView>::empty());
    assert(Seq::<EntryView>::empty().push(merged) + Seq::<EntryView>::empty() =~= seq![merged]);
}

/// The disk after the files at `paths` are deleted.
pub open spec fn without_files(disk: Map<Seq<char>, Seq<u8>>, paths: Seq<Seq<char>>) -> Map<
    Seq<char>,
    Seq<u8>,
>
    decreases paths.len(),
{
    if paths.len() == 0 {
        disk
    } else {
        without_files(disk, paths.drop_last()).remove(paths.last())
    }
}

/// Whether there is a file at each of `paths`.
pub open spec fn readable(disk: Map<Seq<char>, Seq<u8>>, paths: Seq<Seq<char>>) -> bool {
    forall|i: int| 0 <= i < paths.len() ==> disk.contains_key(#[trigger] paths[i])
}

/// How a whole compaction at the time `now_ms` ends. It does nothing
/// (`Ok(false)`) before `COMPACT_LIM` segments are registered and where
/// the segments hold no record. It fails where a segment file cannot be
/// read or is damaged, or where no segment name is to be had.
pub open spec fn compaction_result(w: World, now_ms: u64) -> Result<bool, StoreError> {
    let retired = newest_first(w.store.directory);
    let inputs = files_at(w.disk, retired);
    if w.store.directory.len() < COMPACT_LIM {
        Ok(false)
    } else if !readable(w.disk, retired) {
        Err(StoreError::IoError)
    } else if !all_well_framed(inputs) {
        Err(StoreError::CorruptSegment)
    } else if run_of(merge_spec(inputs)).len() == 0 {
        Ok(false)
    } else if w.store.fresh_path(now_ms) is None {
        Err(StoreError::IoError)
    } else {
        Ok(true)
    }
}

/// The world after a whole compaction at the time `now_ms`: where it
/// succeeds, all registered segments have given way to their merge, which
/// is written under a new name, and their files are deleted. Where it
/// does not, nothing changes but, possibly, the last name given out.
pub open spec fn compacted_world(w: World, now_ms: u64) -> World {
    let retired = newest_first(w.store.directory);
    let run = run_of(merge_spec(files_at(w.disk, retired)));
    match compaction_result(w, now_ms) {
        Ok(true) => {
            let path = w.store.fresh_path(now_ms)->0;
            let entry = EntryView { min_key: run[0].0, max_key: run.last().0, path };
            World {
                store: w.store.issued(now_ms).compacted(retired, entry),
                disk: without_files(w.disk.insert(path, encode_all(run)), retired),
            }
        },
        Ok(false) => w,
        Err(e) => if e == StoreError::IoError && readable(w.disk, retired) {
            World { store: w.store.issued(now_ms), disk: w.disk }
        } else {
            w
        },
    }
}

/// Deleting files leaves every other file as it was.
pub proof fn lemma_without_files(disk: Map<Seq<char>, Seq<u8>>, paths: Seq<Seq<char>>, q: Seq<char>)
    ensures
        without_files(disk, paths).contains_key(q) <==> disk.contains_key(q) && !paths.contains(q),
        without_files(disk, paths).contains_key(q) ==> without_files(disk, paths)[q] == disk[q],
    decreases paths.len(),
{
    if paths.len() > 0 {
        let init = paths.drop_last();
        lemma_without_files(disk, init, q);
        if init.contains(q) {
            let i = choose|i: int| 0 <= i < init.len() && init[i] == q;
            assert(paths[i] == q);
        }
        if paths.contains(q) {
            let i = choose|i: int| 0 <= i < paths.len() && paths[i] == q;
            if i < init.len() {
                assert(init[i] == q);
            }
        }
        if paths.last() == q {
            assert(paths[paths.len() - 1] == q);
        }
    }
}

/// Compaction keeps what lookups find. A whole compaction leaves the
/// world in order, and every key that a lookup found is found afterwards
/// with the same value. Where it succeeds, the merged segment is the only
/// one registered.
pub proof fn lemma_compacted_lookup(w: World, now_ms: u64, q: u64, x: Seq<u8>)
    requires
        w.ok(),
    ensures
        compacted_world(w, now_ms).ok(),
        compaction_result(w, now_ms) == Ok::<bool, StoreError>(true) ==> compacted_world(
            w,
            now_ms,
        ).store.directory.len() == 1,
        w.lookup(q) == hit(x) ==> compacted_world(w, now_ms).lookup(q) == hit(x),
{
    let dir = w.store.directory;
    let retired = newest_first(dir);
    let inputs = files_at(w.disk, retired);
    let merged = merge_spec(inputs);
    let run = run_of(merged);
    let after = compacted_world(w, now_ms);
    if compaction_result(w, now_ms) == Ok::<bool, StoreError>(true) {
        let path = w.store.fresh_path(now_ms)->0;
        let entry = EntryView { min_key: run[0].0, max_key: run.last().0, path };
        let disk2 = w.disk.insert(path, encode_all(run));
        lemma_merge_has_run(inputs);
        lemma_replace_all(dir, entry);
        lemma_decode_encode(run);
        assert(within(run, entry.min_key, entry.max_key)) by {
            assert forall|i: int| 0 <= i < run.len() implies entry.min_key <= (
            #[trigger] run[i]).0 <= entry.max_key by {
                if 0 < i {
                    assert(run[0].0 < run[i].0);
                }
                if i < run.len() - 1 {
                    assert(run[i].0 < run[run.len() - 1].0);
                }
            }
        }
        assert(!retired.contains(path)) by {
            if retired.contains(path) {
                let i = choose|i: int| 0 <= i < retired.len() && retired[i] == path;
                assert(dir[dir.len() - 1 - i].path == path);
            }
        }
        lemma_without_files(disk2, retired, path);
        assert(after.store.directory =~= seq![entry]);
        assert(after.store.directory[0] == entry);
        assert(entry_sound(entry, after.disk));
        if w.lookup(q) == hit(x) && !w.store.memtable.contains_key(q) {
            lemma_locate_index_bounds(dir, q);
            lemma_locate_greatest(dir, q);
            let i = locate_index(dir, q)->0;
            let j = dir.len() - 1 - i;
            assert(entry_sound(dir[i], w.disk));
            lemma_seek_segment(w.disk[dir[i].path], q);
            assert(inputs[j] == w.disk[dir[i].path]);
            let held = frames_from(inputs[j], 0);
            lemma_to_map_contains(held, q);
            assert forall|t: int| 0 <= t < j implies !holds(
                frames_from(#[trigger] inputs[t], 0),
                q,
            ) by {
                let newer = dir.len() - 1 - t;
                assert(inputs[t] == w.disk[dir[newer].path]);
                assert(entry_sound(dir[newer], w.disk));
                assert(!covers(dir[newer], q));
                let there = frames_from(inputs[t], 0);
                if holds(there, q) {
                    let at = choose|at: int|
                        0 <= at < there.len() && (#[trigger] there[at]).0 == q;
                    assert(dir[newer].min_key <= there[at].0 <= dir[newer].max_key);
                }
            }
            lemma_merge_newest_wins(inputs, j, q);
            lemma_to_map_contains(run, q);
            let at = choose|at: int| 0 <= at < run.len() && (#[trigger] run[at]).0 == q;
            assert(entry.min_key <= run[at].0 <= entry.max_key);
            assert(seq![entry].drop_last() =~= Seq::<EntryView>::empty());
            assert(locate_index(seq![entry], q) == Some(0int));
            lemma_seek_segment(encode_all(run), q);
        }
    }
}

/// Reopening: an engine opened for segment files whose names rise, oldest
/// first, registers them all, in that order, under the names they have on
/// disk, and remembers the last name.
pub proof fn lemma_open_registers_all(store: EngineView, found: Seq<FoundSegment>)
    requires
        forall|i: int, j: int|
            0 <= i < j < found.len() ==> later(
                Some((found[i].stamp, found[i].counter)),
                found[j].stamp,
                found[j].counter,
            ),
        found.len() > 0 ==> later(store.last_id, found[0].stamp, found[0].counter),
    ensures
        store.adopted_all(found).memtable == store.memtable,
        store.adopted_all(found).directory == store.directory + Seq::new(
            found.len(),
            |i: int|
                EntryView {
                    min_key: found[i].min_key,
                    max_key: found[i].max_key,
                    path: segment_name(store.prefix, found[i].stamp, found[i].counter),
                },
        ),
        store.adopted_all(found).last_id == if found.len() == 0 {
            store.last_id
        } else {
            Some((found.last().stamp, found.last().counter))
        },
        store.adopted_all(found).prefix == store.prefix,
    decreases found.len(),
{
    let entries = Seq::new(
        found.len(),
        |i: int|
            EntryView {
                min_key: found[i].min_key,
                max_key: found[i].max_key,
                path: segment_name(store.prefix, found[i].stamp, found[i].counter),
            },
    );
    if found.len() == 0 {
        assert(store.directory + entries =~= store.directory);
    } else {
        let init = found.drop_last();
        assert forall|i: int, j: int| 0 <= i < j < init.len() implies later(
            Some((init[i].stamp, init[i].counter)),
            init[j].stamp,
            init[j].counter,
        ) by {
            assert(init[i] == found[i]);
            assert(init[j] == found[j]);
        }
        if init.len() > 0 {
            assert(init[0] == found[0]);
            assert(init.last() == found[found.len() - 2]);
        }
        lemma_open_registers_all(store, init);
        let before = store.adopted_all(init);
        let init_entries = Seq::new(
            init.len(),
            |i: int|
                EntryView {
                    min_key: init[i].min_key,
                    max_key: init[i].max_key,
                    path: segment_name(store.prefix, init[i].stamp, init[i].counter),
                },
        );
        assert(later(before.last_id, found.last().stamp, found.last().counter));
        assert((store.directory + init_entries).push(entries[found.len() - 1]) =~= store.directory
            + entries);
    }
}

} // verus!
