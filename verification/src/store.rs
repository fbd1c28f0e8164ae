//! The engine: a memtable in front of a directory of segments.
//!
//! The engine decides and keeps the books; it leaves every file operation
//! to its caller. An insert that needs room first says so, a lookup names
//! the segment to read, a flush hands out the segment image and is
//! completed once the caller reports whether the file is safely on disk.

use vstd::prelude::*;
use crate::codec::{copy_bytes, encode, encode_all, frame, frames_from, well_framed,
    lemma_decode_encode, lemma_frames_fit, MAX_VALUE_LEN};
use crate::directory::{locate_spec, newest_first, paths_view, replace_spec, EntryView,
    SegmentDirectory};
use crate::error::StoreError;
use crate::memtable::Memtable;
use crate::naming::{segment_name, segment_path};
use crate::records::{pour, run_of, total_size, lemma_run_of};
use crate::segment::{is_segment, scan, seek, seek_spec, value_view};

verus! {

/// The memtable size, in bytes, beyond which an insert asks for a flush.
pub const SIZE_THRESH: u64 = 80000;

/// The number of registered segments from which on compaction is due.
pub const COMPACT_LIM: usize = 10;

/// The engine as a mathematical value.
pub struct EngineView {
    /// The prefix of the names of its segment files.
    pub prefix: Seq<char>,
    /// The flush threshold in bytes.
    pub threshold: u64,
    /// What the memtable holds.
    pub memtable: Map<u64, Seq<u8>>,
    /// The registered segments, oldest first.
    pub directory: Seq<EntryView>,
    /// Stamp and counter of the segment name given out last.
    pub last_id: Option<(u64, u64)>,
}

/// A segment that is ready to be written, as a mathematical value.
pub struct PlanView {
    pub path: Seq<char>,
    pub min_key: u64,
    pub max_key: u64,
    pub bytes: Seq<u8>,
}

/// Whether a segment is registered under `path`.
pub open spec fn registered(dir: Seq<EntryView>, path: Seq<char>) -> bool {
    exists|i: int| 0 <= i < dir.len() && (#[trigger] dir[i]).path == path
}

/// Stamp and counter of the name that follows `last` at the time `now_ms`:
/// the time itself where it has moved on, else the last stamp with the
/// next counter. `None` where the counter is used up.
pub open spec fn next_id(last: Option<(u64, u64)>, now_ms: u64) -> Option<(u64, u64)> {
    match last {
        None => Some((now_ms, 0u64)),
        Some((stamp, counter)) => if now_ms > stamp {
            Some((now_ms, 0u64))
        } else if counter < u64::MAX {
            Some((stamp, (counter + 1) as u64))
        } else {
            None
        },
    }
}

/// A segment file found on disk: stamp and counter of its name, and the
/// smallest and the greatest key that it holds.
#[derive(Clone, Copy, Debug, PartialEq, Eq)]
pub struct FoundSegment {
    pub stamp: u64,
    pub counter: u64,
    pub min_key: u64,
    pub max_key: u64,
}

/// Whether a name with the given stamp and counter follows `last`: a later
/// stamp, or the same stamp with a greater counter.
pub open spec fn later(last: Option<(u64, u64)>, stamp: u64, counter: u64) -> bool {
    match last {
        None => true,
        Some((s, c)) => stamp > s || (stamp == s && counter > c),
    }
}

/// The segment that holds the records `run`, to be written at `path`.
pub open spec fn plan_of(path: Seq<char>, run: Seq<(u64, Seq<u8>)>) -> PlanView {
    PlanView { path, min_key: run[0].0, max_key: run.last().0, bytes: encode_all(run) }
}

impl EngineView {
    /// The records of the memtable in rising key order.
    pub open spec fn run(self) -> Seq<(u64, Seq<u8>)> {
        run_of(self.memtable)
    }

    /// The bytes that the memtable would take in a segment.
    pub open spec fn size(self) -> nat {
        total_size(self.run())
    }

    /// Whether an insert of a value of `value_len` bytes has to wait for a
    /// flush: flushing is allowed, there is something to flush, and the
    /// record would take the memtable over the threshold.
    pub open spec fn must_flush(self, value_len: nat, allow: bool) -> bool {
        allow && self.run().len() > 0 && self.size() + 12 + value_len > self.threshold
    }

    /// The engine after `v` is stored under `k`.
    pub open spec fn stored(self, k: u64, v: Seq<u8>) -> EngineView {
        EngineView { memtable: self.memtable.insert(k, v), ..self }
    }

    /// The engine after a segment name is given out at the time `now_ms`.
    pub open spec fn issued(self, now_ms: u64) -> EngineView {
        match next_id(self.last_id, now_ms) {
            Some(id) => EngineView { last_id: Some(id), ..self },
            None => self,
        }
    }

    /// The name given out at the time `now_ms`, unless the counter is used
    /// up or a segment is registered under that name already.
    pub open spec fn fresh_path(self, now_ms: u64) -> Option<Seq<char>> {
        match next_id(self.last_id, now_ms) {
            Some(id) => {
                let path = segment_name(self.prefix, id.0, id.1);
                if registered(self.directory, path) {
                    None
                } else {
                    Some(path)
                }
            },
            None => None,
        }
    }

    /// The engine after its memtable is flushed to the segment at `path`.
    pub open spec fn flushed(self, path: Seq<char>) -> EngineView {
        EngineView {
            memtable: Map::empty(),
            directory: self.directory.push(
                EntryView { min_key: self.run()[0].0, max_key: self.run().last().0, path },
            ),
            ..self
        }
    }

    /// The engine after it has taken up a segment found on disk: where the
    /// name of the segment follows the last name known, the segment is
    /// registered as the latest and its name becomes the last; else
    /// nothing changes.
    pub open spec fn adopted(self, found: FoundSegment) -> EngineView {
        if later(self.last_id, found.stamp, found.counter) {
            EngineView {
                directory: self.directory.push(
                    EntryView {
                        min_key: found.min_key,
                        max_key: found.max_key,
                        path: segment_name(self.prefix, found.stamp, found.counter),
                    },
                ),
                last_id: Some((found.stamp, found.counter)),
                ..self
            }
        } else {
            self
        }
    }

    /// The engine after it has taken up the segments `found`, in order.
    pub open spec fn adopted_all(self, found: Seq<FoundSegment>) -> EngineView
        decreases found.len(),
    {
        if found.len() == 0 {
            self
        } else {
            self.adopted_all(found.drop_last()).adopted(found.last())
        }
    }

    /// The engine after the segments at `retired` have given way to the
    /// segment `merged`.
    pub open spec fn compacted(self, retired: Seq<Seq<char>>, merged: EntryView) -> EngineView {
        EngineView { directory: replace_spec(self.directory, retired, merged), ..self }
    }
}

/// What an insert did.
#[derive(Clone, Debug, PartialEq, Eq)]
pub enum InsertStep {
    /// The pair is stored; it is handed back as stored.
    Stored(u64, Vec<u8>),
    /// Nothing is stored: the memtable has to be flushed first. The pair is
    /// handed back for the insert that follows the flush.
    FlushFirst(u64, Vec<u8>),
}

/// Where a lookup stands after the memtable and the directory were asked.
#[derive(Clone, Debug, PartialEq, Eq)]
pub enum GetStep {
    /// The memtable holds the key, with this value.
    Found(Vec<u8>),
    /// Neither the memtable nor the range of any segment has the key.
    Absent,
    /// The segment at this path decides.
    Segment(String),
}

/// A segment that is ready to be written.
#[derive(Clone, Debug, PartialEq, Eq)]
pub struct FlushPlan {
    /// The name of the file to create.
    pub path: String,
    /// The smallest key of the segment.
    pub min_key: u64,
    /// The greatest key of the segment.
    pub max_key: u64,
    /// The segment itself.
    pub bytes: Vec<u8>,
}

impl View for FlushPlan {
    type V = PlanView;

    open spec fn view(&self) -> PlanView {
        PlanView {
            path: self.path@,
            min_key: self.min_key,
            max_key: self.max_key,
            bytes: self.bytes@,
        }
    }
}

/// The plan that an `Option` holds, as a mathematical value.
pub open spec fn plan_view(p: Option<FlushPlan>) -> Option<PlanView> {
    match p {
        Some(plan) => Some(plan@),
        None => None,
    }
}

/// The engine.
pub struct DingoStore<'a> {
    objs: Memtable,
    fname: &'a str,
    threshold: u64,
    flushed_files: SegmentDirectory,
    issued: bool,
    last_stamp: u64,
    last_counter: u64,
}

impl<'a> View for DingoStore<'a> {
    type V = EngineView;

    closed spec fn view(&self) -> EngineView {
        EngineView {
            prefix: self.fname@,
            threshold: self.threshold,
            memtable: self.objs@,
            directory: self.flushed_files@,
            last_id: if self.issued {
                Some((self.last_stamp, self.last_counter))
            } else {
                None
            },
        }
    }
}

impl<'a> DingoStore<'a> {
    /// The invariant of the engine: that of its memtable.
    pub closed spec fn wf(&self) -> bool {
        self.objs.wf()
    }

    /// An engine without records and without segments, whose segment files
    /// are named after `fname` and whose flush threshold is `SIZE_THRESH`.
    pub fn new(fname: &'a str) -> (store: DingoStore<'a>)
        ensures
            store.wf(),
            store@ == (EngineView {
                prefix: fname@,
                threshold: SIZE_THRESH,
                memtable: Map::empty(),
                directory: Seq::empty(),
                last_id: None,
            }),
    {
        DingoStore::with_threshold(fname, SIZE_THRESH)
    }

    /// As `new`, with a flush threshold of `threshold` bytes.
    pub fn with_threshold(fname: &'a str, threshold: u64) -> (store: DingoStore<'a>)
        ensures
            store.wf(),
            store@ == (EngineView {
                prefix: fname@,
                threshold,
                memtable: Map::empty(),
                directory: Seq::empty(),
                last_id: None,
            }),
    {
        DingoStore {
            objs: Memtable::new(),
            fname,
            threshold,
            flushed_files: SegmentDirectory::new(),
            issued: false,
            last_stamp: 0,
            last_counter: 0,
        }
    }

    /// An engine for the segment files found on disk, with an empty
    /// memtable. The segments are to be given oldest first; one whose name
    /// does not follow the names before it is left out.
    pub fn open(fname: &'a str, found: &Vec<FoundSegment>) -> (store: DingoStore<'a>)
        ensures
            store.wf(),
            store@ == (EngineView {
                prefix: fname@,
                threshold: SIZE_THRESH,
                memtable: Map::empty(),
                directory: Seq::empty(),
                last_id: None,
            }).adopted_all(found@),
    {
        let mut store = DingoStore::new(fname);
        let ghost fresh = store@;
        let mut i: usize = 0;
        assert(found@.take(0) =~= Seq::<FoundSegment>::empty());
        while i < found.len()
            invariant
                i <= found@.len(),
                store.wf(),
                store@ == fresh.adopted_all(found@.take(i as int)),
            decreases found@.len() - i,
        {
            let ghost next = found@.take(i + 1);
            assert(next.drop_last() =~= found@.take(i as int));
            assert(next.last() == found@[i as int]);
            let taken = store.adopt(&found[i]);
            i = i + 1;
        }
        assert(found@.take(i as int) =~= found@);
        store
    }

    /// Takes up a segment found on disk, and says whether it did: the name
    /// of the segment has to follow the last name known.
    pub fn adopt(&mut self, found: &FoundSegment) -> (taken: bool)
        requires
            old(self).wf(),
        ensures
            final(self).wf(),
            taken == later(old(self)@.last_id, found.stamp, found.counter),
            final(self)@ == old(self)@.adopted(*found),
    {
        if self.issued && (found.stamp < self.last_stamp || (found.stamp == self.last_stamp
            && found.counter <= self.last_counter)) {
            return false;
        }
        let path = segment_path(self.fname, found.stamp, found.counter);
        self.flushed_files.register(found.min_key, found.max_key, path);
        self.issued = true;
        self.last_stamp = found.stamp;
        self.last_counter = found.counter;
        true
    }

    /// The memtable, for reading.
    pub fn memtable(&self) -> (m: &Memtable)
        requires
            self.wf(),
        ensures
            m.wf(),
            m@ == self@.memtable,
            m.entries() == self@.run(),
            m.size_spec() == self@.size(),
    {
        proof {
            lemma_run_of(self.objs.entries());
        }
        &self.objs
    }

    /// The directory, for reading.
    pub fn directory(&self) -> (d: &SegmentDirectory)
        ensures
            d@ == self@.directory,
    {
        &self.flushed_files
    }

    /// Stores `val` under `key`, unless the memtable has to be flushed
    /// first.
    ///
    /// With `flush` set, an insert that would take a memtable that is not
    /// empty over the threshold stores nothing and asks for the flush; the
    /// caller flushes and inserts again. A value too long for a frame is
    /// turned away. In each case the pair comes back as given.
    pub fn insert(&mut self, key: u64, val: Vec<u8>, flush: bool) -> (r: Result<
        InsertStep,
        StoreError,
    >)
        requires
            old(self).wf(),
        ensures
            final(self).wf(),
            match r {
                Err(e) => {
                    &&& e == StoreError::ValueTooLarge
                    &&& val@.len() > MAX_VALUE_LEN
                    &&& final(self)@ == old(self)@
                },
                Ok(InsertStep::FlushFirst(k, v)) => {
                    &&& val@.len() <= MAX_VALUE_LEN
                    &&& old(self)@.must_flush(val@.len(), flush)
                    &&& k == key
                    &&& v@ == val@
                    &&& final(self)@ == old(self)@
                },
                Ok(InsertStep::Stored(k, v)) => {
                    &&& val@.len() <= MAX_VALUE_LEN
                    &&& !old(self)@.must_flush(val@.len(), flush)
                    &&& k == key
                    &&& v@ == val@
                    &&& final(self)@ == old(self)@.stored(key, val@)
                },
            },
    {
        if val.len() as u64 > MAX_VALUE_LEN {
            return Err(StoreError::ValueTooLarge);
        }
        proof {
            lemma_run_of(self.objs.entries());
        }
        if flush && !self.objs.is_empty() && self.objs.exceeds(val.len(), self.threshold) {
            return Ok(InsertStep::FlushFirst(key, val));
        }
        let echo = copy_bytes(val.as_slice());
        match self.objs.insert(key, val) {
            Ok(()) => Ok(InsertStep::Stored(key, echo)),
            Err(e) => Err(e),
        }
    }

    /// The frame of one record: the key in eight bytes, the length of the
    /// value in four, both big-endian, and the value. A value too long for
    /// the length prefix is turned away.
    pub fn serialize(&self, key: u64, val: &[u8]) -> (r: Result<Vec<u8>, StoreError>)
        ensures
            match r {
                Ok(bytes) => val@.len() <= MAX_VALUE_LEN && bytes@ == frame(key, val@),
                Err(e) => e == StoreError::ValueTooLarge && val@.len() > MAX_VALUE_LEN,
            },
    {
        if val.len() as u64 > MAX_VALUE_LEN {
            Err(StoreError::ValueTooLarge)
        } else {
            Ok(encode(key, val))
        }
    }

    /// Looks `key` up in the memtable and, where it is not there, names the
    /// segment to read: of those whose range covers the key the one
    /// registered last.
    pub fn get(&self, key: u64) -> (r: GetStep)
        requires
            self.wf(),
        ensures
            match r {
                GetStep::Found(v) => self@.memtable.contains_key(key) && v@ == self@.memtable[key],
                GetStep::Absent => !self@.memtable.contains_key(key) && locate_spec(
                    self@.directory,
                    key,
                ) is None,
                GetStep::Segment(p) => !self@.memtable.contains_key(key) && locate_spec(
                    self@.directory,
                    key,
                ) == Some(p@),
            },
    {
        match self.objs.get(key) {
            Some(v) => GetStep::Found(copy_bytes(v.as_slice())),
            None => match self.flushed_files.locate(key) {
                Some(p) => GetStep::Segment(p),
                None => GetStep::Absent,
            },
        }
    }

    /// Completes a lookup with what was read from the segment that `get`
    /// named: `None` where the file could not be read.
    pub fn seek_key(segment: Option<&[u8]>, key: u64) -> (r: Result<Option<Vec<u8>>, StoreError>)
        ensures
            match segment {
                Some(bytes) => value_view(r) == seek_spec(bytes@, key),
                None => r == Err::<Option<Vec<u8>>, StoreError>(StoreError::IoError),
            },
    {
        match segment {
            Some(bytes) => seek(bytes, key),
            None => Err(StoreError::IoError),
        }
    }

    /// Gives out the next segment name for the time `now_ms`, in
    /// milliseconds: stamps never fall, and a stamp that comes again gets
    /// the next counter. `None` where the counter is used up or a segment
    /// is registered under the name already.
    pub fn next_path(&mut self, now_ms: u64) -> (r: Option<String>)
        requires
            old(self).wf(),
        ensures
            final(self).wf(),
            final(self)@ == old(self)@.issued(now_ms),
            match r {
                Some(p) => old(self)@.fresh_path(now_ms) == Some(p@),
                None => old(self)@.fresh_path(now_ms) is None,
            },
    {
        let stamp: u64;
        let counter: u64;
        if !self.issued || now_ms > self.last_stamp {
            stamp = now_ms;
            counter = 0;
        } else if self.last_counter < u64::MAX {
            stamp = self.last_stamp;
            counter = self.last_counter + 1;
        } else {
            return None;
        }
        self.issued = true;
        self.last_stamp = stamp;
        self.last_counter = counter;
        let path = segment_path(self.fname, stamp, counter);
        if self.flushed_files.contains_path(&path) {
            None
        } else {
            Some(path)
        }
    }

    /// Plans the flush of the memtable: the name of the new segment file
    /// and its bytes, the frames of all records in rising key order.
    /// `None` where the memtable is empty or no name is to be had.
    ///
    /// The caller creates the file, writes and syncs it, and reports to
    /// `flush`.
    pub fn plan_flush(&mut self, now_ms: u64) -> (r: Option<FlushPlan>)
        requires
            old(self).wf(),
        ensures
            final(self).wf(),
            old(self)@.run().len() == 0 ==> r is None && final(self)@ == old(self)@,
            old(self)@.run().len() > 0 ==> final(self)@ == old(self)@.issued(now_ms) && plan_view(r)
                == match old(self)@.fresh_path(now_ms) {
                Some(path) => Some(plan_of(path, old(self)@.run())),
                None => None,
            },
            r matches Some(plan) ==> is_segment(plan.bytes@) && !registered(
                final(self)@.directory,
                plan.path@,
            ),
    {
        proof {
            lemma_run_of(self.objs.entries());
        }
        if self.objs.is_empty() {
            return None;
        }
        let ghost run = self.objs.entries();
        match self.next_path(now_ms) {
            Some(path) => {
                proof {
                    lemma_run_of(self.objs.entries());
                    assert(self.objs.entries() == run);
                }
                let min_key = match self.objs.first_key() {
                    Some(k) => k,
                    None => 0,
                };
                let max_key = match self.objs.last_key() {
                    Some(k) => k,
                    None => 0,
                };
                let bytes = self.objs.segment_image();
                proof {
                    lemma_decode_encode(run);
                }
                let plan = FlushPlan { path, min_key, max_key, bytes };
                assert(plan@ == plan_of(path@, run));
                Some(plan)
            },
            None => None,
        }
    }

    /// Completes a flush. `durable` says whether the segment was written
    /// and synced at `path`.
    ///
    /// If it was, the segment is registered with the key range of the
    /// memtable, the memtable starts afresh, and the path comes back. If it
    /// was not, nothing changes and the failure is passed on.
    pub fn flush(&mut self, path: String, durable: bool) -> (r: Result<String, StoreError>)
        requires
            old(self).wf(),
            old(self)@.run().len() > 0,
        ensures
            final(self).wf(),
            durable ==> final(self)@ == old(self)@.flushed(path@) && (r matches Ok(p) && p@
                == path@),
            !durable ==> final(self)@ == old(self)@ && r == Err::<String, StoreError>(
                StoreError::IoError,
            ),
    {
        if !durable {
            return Err(StoreError::IoError);
        }
        proof {
            lemma_run_of(self.objs.entries());
        }
        let min_key = match self.objs.first_key() {
            Some(k) => k,
            None => 0,
        };
        let max_key = match self.objs.last_key() {
            Some(k) => k,
            None => 0,
        };
        let registered_path = path.clone();
        self.flushed_files.register(min_key, max_key, registered_path);
        let drained = self.objs.drain_sorted();
        Ok(path)
    }

    /// The segments to merge, newest first, once `COMPACT_LIM` segments are
    /// registered: all of them. `None` before that.
    ///
    /// The caller reads the files, has `merge` merge them, plans the new
    /// segment with `plan_merge`, writes it, and reports to `compact`.
    pub fn plan_compaction(&self) -> (r: Option<Vec<String>>)
        ensures
            match r {
                Some(paths) => self@.directory.len() >= COMPACT_LIM && paths_view(paths@)
                    == newest_first(self@.directory),
                None => self@.directory.len() < COMPACT_LIM,
            },
    {
        if self.flushed_files.len() >= COMPACT_LIM {
            Some(self.flushed_files.paths_newest_first())
        } else {
            None
        }
    }

    /// Plans the segment that takes the records of `merged`: its name and
    /// its bytes. `None` where `merged` is empty or no name is to be had.
    pub fn plan_merge(&mut self, now_ms: u64, merged: &Memtable) -> (r: Option<FlushPlan>)
        requires
            old(self).wf(),
            merged.wf(),
        ensures
            final(self).wf(),
            merged.entries().len() == 0 ==> r is None && final(self)@ == old(self)@,
            merged.entries().len() > 0 ==> final(self)@ == old(self)@.issued(now_ms) && plan_view(r)
                == match old(self)@.fresh_path(now_ms) {
                Some(path) => Some(plan_of(path, merged.entries())),
                None => None,
            },
            r matches Some(plan) ==> is_segment(plan.bytes@) && !registered(
                final(self)@.directory,
                plan.path@,
            ),
    {
        if merged.is_empty() {
            return None;
        }
        match self.next_path(now_ms) {
            Some(path) => {
                let min_key = match merged.first_key() {
                    Some(k) => k,
                    None => 0,
                };
                let max_key = match merged.last_key() {
                    Some(k) => k,
                    None => 0,
                };
                let bytes = merged.segment_image();
                proof {
                    lemma_decode_encode(merged.entries());
                }
                let plan = FlushPlan { path, min_key, max_key, bytes };
                assert(plan@ == plan_of(path@, merged.entries()));
                Some(plan)
            },
            None => None,
        }
    }

    /// Completes a compaction. `durable` says whether the merged segment
    /// was written and synced at the path of `plan`.
    ///
    /// If it was, the segments at `retired` leave the directory and the
    /// merged segment takes the place of the last registered of them; the
    /// caller may then delete the retired files. If it was not, the
    /// directory stays as it is and the failure is passed on.
    pub fn compact(&mut self, retired: &Vec<String>, plan: &FlushPlan, durable: bool) -> (r:
        Result<(), StoreError>)
        requires
            old(self).wf(),
        ensures
            final(self).wf(),
            durable ==> r == Ok::<(), StoreError>(()) && final(self)@ == old(self)@.compacted(
                paths_view(retired@),
                (EntryView { min_key: plan.min_key, max_key: plan.max_key, path: plan.path@ }),
            ),
            !durable ==> r == Err::<(), StoreError>(StoreError::IoError) && final(self)@
                == old(self)@,
    {
        if !durable {
            return Err(StoreError::IoError);
        }
        self.flushed_files.replace(retired, plan.path.clone(), plan.min_key, plan.max_key);
        Ok(())
    }

    /// An engine of the same prefix and threshold that holds the records
    /// of one segment in its memtable and has no segments registered.
    ///
    /// Fails with `CorruptSegment` exactly when the bytes are not a
    /// concatenation of whole frames.
    pub fn try_deserialize(&self, bytes: &[u8]) -> (r: Result<DingoStore<'a>, StoreError>)
        ensures
            match r {
                Ok(store) => {
                    &&& well_framed(bytes@)
                    &&& store.wf()
                    &&& store@ == (EngineView {
                        prefix: self@.prefix,
                        threshold: self@.threshold,
                        memtable: pour(Map::empty(), frames_from(bytes@, 0)),
                        directory: Seq::empty(),
                        last_id: None,
                    })
                },
                Err(e) => e == StoreError::CorruptSegment && !well_framed(bytes@),
            },
    {
        match scan(bytes) {
            Ok(recs) => {
                proof {
                    lemma_frames_fit(bytes@, 0);
                }
                let mut store = DingoStore::with_threshold(self.fname, self.threshold);
                store.objs.absorb(&recs);
                Ok(store)
            },
            Err(e) => Err(StoreError::CorruptSegment),
        }
    }

    /// An engine of its own in the same state.
    pub fn clone(&self) -> (other: DingoStore<'a>)
        requires
            self.wf(),
        ensures
            other.wf(),
            other@ == self@,
    {
        DingoStore {
            objs: self.objs.copy(),
            fname: self.fname,
            threshold: self.threshold,
            flushed_files: self.flushed_files.copy(),
            issued: self.issued,
            last_stamp: self.last_stamp,
            last_counter: self.last_counter,
        }
    }
}

} // verus!
