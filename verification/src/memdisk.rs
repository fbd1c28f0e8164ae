//! Files kept in memory, and whole operations of the engine carried out on
//! them: what a caller with a real file system does, in a form that runs
//! anywhere and that the laws speak of exactly.

use vstd::prelude::*;
use crate::codec::{copy_bytes, MAX_VALUE_LEN};
use crate::error::StoreError;
use crate::compactor::{merge, segments_view};
use crate::directory::{newest_first, paths_view};
use crate::store::COMPACT_LIM;
use crate::laws::{compacted_world, compaction_result, files_at, lookup, put, without_files,
    lemma_has_run_empty, Put, World};
use crate::records::lemma_run_of;
use crate::segment::value_view;
use crate::store::{DingoStore, GetStep, InsertStep};

verus! {

/// What is found under `path` in a list of files in which a later file
/// replaces an earlier one of the same path.
pub open spec fn find_file(files: Seq<(Seq<char>, Seq<u8>)>, path: Seq<char>) -> Option<Seq<u8>>
    decreases files.len(),
{
    if files.len() == 0 {
        None
    } else if files.last().0 == path {
        Some(files.last().1)
    } else {
        find_file(files.drop_last(), path)
    }
}

/// The files of a vector as mathematical values.
pub open spec fn files_view(v: Seq<(String, Vec<u8>)>) -> Seq<(Seq<char>, Seq<u8>)> {
    Seq::new(v.len(), |i: int| (v[i].0@, v[i].1@))
}

/// Files by their paths, kept in memory.
pub struct MemDisk {
    files: Vec<(String, Vec<u8>)>,
}

impl View for MemDisk {
    type V = Map<Seq<char>, Seq<u8>>;

    closed spec fn view(&self) -> Map<Seq<char>, Seq<u8>> {
        Map::new(
            |path: Seq<char>| find_file(files_view(self.files@), path) is Some,
            |path: Seq<char>| find_file(files_view(self.files@), path)->0,
        )
    }
}

impl MemDisk {
    /// A disk without files.
    pub fn new() -> (disk: MemDisk)
        ensures
            disk@ == Map::<Seq<char>, Seq<u8>>::empty(),
    {
        let disk = MemDisk { files: Vec::new() };
        assert(disk@ =~= Map::<Seq<char>, Seq<u8>>::empty());
        disk
    }

    /// Writes a file; one that was there under the path gives way.
    pub fn write(&mut self, path: String, bytes: Vec<u8>)
        ensures
            final(self)@ == old(self)@.insert(path@, bytes@),
    {
        let ghost before = files_view(self.files@);
        self.files.push((path, bytes));
        proof {
            let after = files_view(self.files@);
            assert(after.drop_last() =~= before);
            assert(after.last() == (path@, bytes@));
            assert(self@ =~= old(self)@.insert(path@, bytes@));
        }
    }

    /// The contents of the file at `path`, if there is one.
    pub fn read(&self, path: &String) -> (r: Option<&Vec<u8>>)
        ensures
            match r {
                Some(bytes) => self@.contains_key(path@) && self@[path@] == bytes@,
                None => !self@.contains_key(path@),
            },
    {
        let ghost all = files_view(self.files@);
        let mut i: usize = self.files.len();
        assert(all.take(i as int) =~= all);
        while i > 0
            invariant
                i <= self.files@.len(),
                all == files_view(self.files@),
                find_file(all, path@) == find_file(all.take(i as int), path@),
            decreases i,
        {
            let ghost head = all.take(i as int);
            assert(head.last() == all[i - 1]);
            assert(all[i - 1] == (self.files@[i - 1].0@, self.files@[i - 1].1@));
            assert(head.drop_last() =~= all.take(i - 1));
            if self.files[i - 1].0 == *path {
                return Some(&self.files[i - 1].1);
            }
            i = i - 1;
        }
        assert(all.take(0).len() == 0);
        None
    }

    /// Whether there is a file at `path`.
    pub fn contains(&self, path: &String) -> (b: bool)
        ensures
            b == self@.contains_key(path@),
    {
        self.read(path).is_some()
    }

    /// Deletes the file at `path`, if there is one.
    pub fn remove(&mut self, path: &String)
        ensures
            final(self)@ == old(self)@.remove(path@),
    {
        let ghost all = files_view(self.files@);
        let mut kept: Vec<(String, Vec<u8>)> = Vec::new();
        let mut i: usize = 0;
        assert(all.take(0) =~= Seq::<(Seq<char>, Seq<u8>)>::empty());
        assert(files_view(kept@) =~= Seq::<(Seq<char>, Seq<u8>)>::empty());
        while i < self.files.len()
            invariant
                i <= self.files@.len(),
                all == files_view(self.files@),
                forall|q: Seq<char>|
                    #[trigger] find_file(files_view(kept@), q) == if q == path@ {
                        None
                    } else {
                        find_file(all.take(i as int), q)
                    },
            decreases self.files@.len() - i,
        {
            let ghost head = all.take(i + 1);
            let ghost so_far = files_view(kept@);
            assert(head.last() == all[i as int]);
            assert(all[i as int] == (self.files@[i as int].0@, self.files@[i as int].1@));
            assert(head.drop_last() =~= all.take(i as int));
            if self.files[i].0 != *path {
                let name = self.files[i].0.clone();
                let bytes = copy_bytes(self.files[i].1.as_slice());
                kept.push((name, bytes));
                proof {
                    let grown = files_view(kept@);
                    assert(grown.drop_last() =~= so_far);
                    assert(grown.last() == all[i as int]);
                    assert forall|q: Seq<char>|
                        #[trigger] find_file(grown, q) == if q == path@ {
                            None
                        } else {
                            find_file(head, q)
                        } by {
                        assert(find_file(so_far, q) == if q == path@ {
                            None
                        } else {
                            find_file(all.take(i as int), q)
                        });
                    }
                }
            } else {
                proof {
                    assert forall|q: Seq<char>|
                        #[trigger] find_file(so_far, q) == if q == path@ {
                            None
                        } else {
                            find_file(head, q)
                        } by {
                        assert(find_file(so_far, q) == if q == path@ {
                            None
                        } else {
                            find_file(all.take(i as int), q)
                        });
                    }
                }
            }
            i = i + 1;
        }
        assert(all.take(i as int) =~= all);
        self.files = kept;
        proof {
            assert forall|q: Seq<char>|
                self@.contains_key(q) == old(self)@.remove(path@).contains_key(q) && (
                self@.contains_key(q) ==> self@[q] == old(self)@.remove(path@)[q]) by {
                assert(find_file(files_view(self.files@), q) == if q == path@ {
                    None
                } else {
                    find_file(all, q)
                });
            }
            assert(self@ =~= old(self)@.remove(path@));
        }
    }
}

/// A whole insert at the time `now_ms`: where the engine asks for a flush,
/// the planned segment is written to `disk` and the flush completed, and
/// then the pair is stored.
///
/// Fails with `ValueTooLarge` for a value too long for a frame, and with
/// `IoError` where a flush is due and no segment name is to be had; the
/// pair is then not stored.
pub fn insert(
    store: &mut DingoStore,
    disk: &mut MemDisk,
    key: u64,
    val: Vec<u8>,
    allow_flush: bool,
    now_ms: u64,
) -> (r: Result<(u64, Vec<u8>), StoreError>)
    requires
        old(store).wf(),
    ensures
        final(store).wf(),
        val@.len() > MAX_VALUE_LEN ==> {
            &&& r == Err::<(u64, Vec<u8>), StoreError>(StoreError::ValueTooLarge)
            &&& final(store)@ == old(store)@
            &&& final(disk)@ == old(disk)@
        },
        val@.len() <= MAX_VALUE_LEN ==> {
            let before = World { store: old(store)@, disk: old(disk)@ };
            let op = Put { key, value: val@, allow_flush, now_ms };
            &&& (World { store: final(store)@, disk: final(disk)@ }) == put(before, op)
            &&& match r {
                Ok((k, v)) => {
                    &&& k == key
                    &&& v@ == val@
                    &&& !(before.store.must_flush(val@.len(), allow_flush)
                        && before.store.fresh_path(now_ms) is None)
                },
                Err(e) => {
                    &&& e == StoreError::IoError
                    &&& before.store.must_flush(val@.len(), allow_flush)
                    &&& before.store.fresh_path(now_ms) is None
                },
            }
        },
{
    match store.insert(key, val, allow_flush) {
        Err(e) => Err(e),
        Ok(InsertStep::Stored(k, v)) => Ok((k, v)),
        Ok(InsertStep::FlushFirst(k, v)) => {
            let plan = match store.plan_flush(now_ms) {
                Some(plan) => plan,
                None => {
                    return Err(StoreError::IoError);
                },
            };
            let ghost written = plan.path@;
            disk.write(plan.path.clone(), plan.bytes);
            match store.flush(plan.path, true) {
                Ok(p) => {},
                Err(e) => {},
            }
            proof {
                lemma_has_run_empty();
            }
            match store.insert(k, v, allow_flush) {
                Ok(InsertStep::Stored(k2, v2)) => Ok((k2, v2)),
                Ok(InsertStep::FlushFirst(k2, v2)) => Err(StoreError::IoError),
                Err(e) => Err(e),
            }
        },
    }
}

/// A whole lookup: the memtable first, then the segment that the
/// directory names, read from `disk`.
pub fn get(store: &DingoStore, disk: &MemDisk, key: u64) -> (r: Result<
    Option<Vec<u8>>,
    StoreError,
>)
    requires
        store.wf(),
    ensures
        value_view(r) == lookup(store@, disk@, key),
{
    match store.get(key) {
        GetStep::Found(v) => Ok(Some(v)),
        GetStep::Absent => Ok(None),
        GetStep::Segment(path) => match disk.read(&path) {
            Some(bytes) => DingoStore::seek_key(Some(bytes.as_slice()), key),
            None => DingoStore::seek_key(None, key),
        },
    }
}

/// A whole compaction at the time `now_ms`, once it is due: the registered
/// segments are read from `disk` and merged, the merged segment is written
/// under a new name and takes their place in the directory, and their
/// files are deleted. Says whether it compacted.
pub fn compact(store: &mut DingoStore, disk: &mut MemDisk, now_ms: u64) -> (r: Result<
    bool,
    StoreError,
>)
    requires
        old(store).wf(),
    ensures
        final(store).wf(),
        r == compaction_result((World { store: old(store)@, disk: old(disk)@ }), now_ms),
        (World { store: final(store)@, disk: final(disk)@ }) == compacted_world(
            (World { store: old(store)@, disk: old(disk)@ }),
            now_ms,
        ),
{
    let retired = match store.plan_compaction() {
        Some(paths) => paths,
        None => {
            return Ok(false);
        },
    };
    let ghost gone = paths_view(retired@);
    let ghost all = files_at(disk@, gone);
    let mut inputs: Vec<Vec<u8>> = Vec::new();
    let mut i: usize = 0;
    assert(segments_view(inputs@) =~= all.take(0));
    while i < retired.len()
        invariant
            i <= retired@.len(),
            store.wf(),
            store@ == old(store)@,
            disk@ == old(disk)@,
            old(store)@.directory.len() >= COMPACT_LIM,
            gone == paths_view(retired@),
            gone == newest_first(old(store)@.directory),
            all == files_at(disk@, gone),
            segments_view(inputs@) == all.take(i as int),
            forall|j: int| 0 <= j < i ==> disk@.contains_key(#[trigger] gone[j]),
        decreases retired@.len() - i,
    {
        assert(gone[i as int] == retired@[i as int]@);
        match disk.read(&retired[i]) {
            Some(bytes) => {
                let ghost so_far = segments_view(inputs@);
                inputs.push(copy_bytes(bytes.as_slice()));
                assert(segments_view(inputs@) =~= so_far.push(all[i as int]));
                assert(so_far.push(all[i as int]) =~= all.take(i + 1));
            },
            None => {
                return Err(StoreError::IoError);
            },
        }
        i = i + 1;
    }
    assert(all.take(i as int) =~= all);
    let merged = match merge(&inputs) {
        Ok(m) => m,
        Err(e) => {
            return Err(StoreError::CorruptSegment);
        },
    };
    proof {
        lemma_run_of(merged.entries());
    }
    if merged.is_empty() {
        return Ok(false);
    }
    let plan = match store.plan_merge(now_ms, &merged) {
        Some(plan) => plan,
        None => {
            return Err(StoreError::IoError);
        },
    };
    disk.write(plan.path.clone(), copy_bytes(plan.bytes.as_slice()));
    match store.compact(&retired, &plan, true) {
        Ok(done) => {},
        Err(e) => {},
    }
    let ghost written = disk@;
    let ghost after = store@;
    let mut k: usize = 0;
    assert(gone.take(0) =~= Seq::<Seq<char>>::empty());
    while k < retired.len()
        invariant
            k <= retired@.len(),
            store.wf(),
            store@ == after,
            gone == paths_view(retired@),
            disk@ == without_files(written, gone.take(k as int)),
        decreases retired@.len() - k,
    {
        assert(gone.take(k + 1).drop_last() =~= gone.take(k as int));
        assert(gone.take(k + 1).last() == retired@[k as int]@);
        disk.remove(&retired[k]);
        k = k + 1;
    }
    assert(gone.take(k as int) =~= gone);
    Ok(true)
}

} // verus!
