//! The memtable: the ordered in-memory buffer of recent writes.

use vstd::prelude::*;
use crate::codec::{copy_bytes, encode_all, push_frame, records_view, values_fit, Record,
    MAX_VALUE_LEN};
use crate::error::StoreError;
use crate::records::{account, ascending, holds, pour, put_run, rank, to_map, total_size,
    lemma_put_run, lemma_rank, lemma_to_map_contains, lemma_to_map_index, lemma_total_size_bound,
    lemma_total_size_update};

verus! {

/// Recent writes, kept in rising key order, with the bytes they would take
/// in a segment.
pub struct Memtable {
    entries: Vec<Record>,
    size: u128,
}

impl View for Memtable {
    type V = Map<u64, Seq<u8>>;

    /// The value held under each key.
    open spec fn view(&self) -> Map<u64, Seq<u8>> {
        to_map(self.entries())
    }
}

impl Memtable {
    /// The records held, in rising key order.
    pub closed spec fn entries(&self) -> Seq<(u64, Seq<u8>)> {
        records_view(self.entries@)
    }

    /// The running byte count.
    pub closed spec fn size_spec(&self) -> nat {
        self.size as nat
    }

    /// The invariant: keys rise strictly, every value fits a frame, and the
    /// byte count is that of the records held.
    pub open spec fn wf(&self) -> bool {
        &&& ascending(self.entries())
        &&& values_fit(self.entries())
        &&& self.size_spec() == total_size(self.entries())
    }

    /// An empty memtable.
    pub fn new() -> (m: Memtable)
        ensures
            m.wf(),
            m.entries() == Seq::<(u64, Seq<u8>)>::empty(),
            m@ == Map::<u64, Seq<u8>>::empty(),
            m.size_spec() == 0,
    {
        let m = Memtable { entries: Vec::new(), size: 0 };
        assert(m.entries() =~= Seq::<(u64, Seq<u8>)>::empty());
        m
    }

    /// A memtable of its own with the same records.
    pub fn copy(&self) -> (m: Memtable)
        ensures
            m.entries() == self.entries(),
            m.size_spec() == self.size_spec(),
            m@ == self@,
    {
        let mut entries: Vec<Record> = Vec::new();
        let mut i: usize = 0;
        while i < self.entries.len()
            invariant
                i <= self.entries@.len(),
                records_view(entries@) == records_view(self.entries@).take(i as int),
            decreases self.entries@.len() - i,
        {
            let ghost so_far = records_view(entries@);
            let e = &self.entries[i];
            entries.push(Record { key: e.key, value: copy_bytes(e.value.as_slice()) });
            assert(records_view(entries@) =~= so_far.push(self.entries@[i as int]@));
            i = i + 1;
            assert(so_far.push(self.entries@[i - 1]@) =~= records_view(self.entries@).take(
                i as int,
            ));
        }
        assert(records_view(self.entries@).take(i as int) =~= records_view(self.entries@));
        Memtable { entries, size: self.size }
    }

    /// The index of the first record whose key is not below `key`.
    fn position(&self, key: u64) -> (at: usize)
        requires
            self.wf(),
        ensures
            at <= self.entries().len(),
            forall|i: int| 0 <= i < at ==> (#[trigger] self.entries()[i]).0 < key,
            forall|i: int| at <= i < self.entries().len() ==> (#[trigger] self.entries()[i]).0
                >= key,
    {
        let mut lo: usize = 0;
        let mut hi: usize = self.entries.len();
        while lo < hi
            invariant
                self.wf(),
                lo <= hi <= self.entries().len(),
                self.entries().len() == self.entries@.len(),
                forall|i: int| 0 <= i < lo ==> (#[trigger] self.entries()[i]).0 < key,
                forall|i: int| hi <= i < self.entries().len() ==> (#[trigger] self.entries()[i]).0
                    >= key,
            decreases hi - lo,
        {
            let mid = lo + (hi - lo) / 2;
            assert(self.entries()[mid as int] == self.entries@[mid as int]@);
            if self.entries[mid].key < key {
                assert forall|i: int| 0 <= i < mid + 1 implies (#[trigger] self.entries()[i]).0
                    < key by {
                    if i < mid {
                        assert(self.entries()[i].0 < self.entries()[mid as int].0);
                    }
                }
                lo = mid + 1;
            } else {
                assert forall|i: int| mid <= i < self.entries().len() implies (
                #[trigger] self.entries()[i]).0 >= key by {
                    if i > mid {
                        assert(self.entries()[mid as int].0 < self.entries()[i].0);
                    }
                }
                hi = mid;
            }
        }
        lo
    }

    /// Stores `value` under `key`: a new record at its place in the order,
    /// or a new value for the record that has the key.
    ///
    /// A value too long for a frame is turned away and nothing changes.
    pub fn insert(&mut self, key: u64, value: Vec<u8>) -> (r: Result<(), StoreError>)
        requires
            old(self).wf(),
        ensures
            final(self).wf(),
            value@.len() > MAX_VALUE_LEN ==> {
                &&& r == Err::<(), StoreError>(StoreError::ValueTooLarge)
                &&& final(self).entries() == old(self).entries()
                &&& final(self).size_spec() == old(self).size_spec()
            },
            value@.len() <= MAX_VALUE_LEN ==> {
                &&& r == Ok::<(), StoreError>(())
                &&& final(self).entries() == put_run(old(self).entries(), key, value@)
                &&& final(self)@ == old(self)@.insert(key, value@)
                &&& final(self).size_spec() == account(old(self).size_spec(), old(self)@, key, value@)
            },
    {
        if value.len() as u64 > MAX_VALUE_LEN {
            return Err(StoreError::ValueTooLarge);
        }
        let at = self.position(key);
        let ghost before = self.entries();
        let value_len = value.len();
        let held = self.entries.len();
        proof {
            assert(before.len() == held);
            lemma_rank(before, key);
            if at < rank(before, key) {
                assert(before[at as int].0 < key);
            }
            if rank(before, key) < at {
                assert(before[rank(before, key)].0 >= key);
            }
            lemma_put_run(before, key, value@);
            lemma_to_map_contains(before, key);
            lemma_total_size_bound(before);
            assert(before.len() * 0x1_0000_000B <= 0xFFFF_FFFF_FFFF_FFFF * 0x1_0000_000B)
                by (nonlinear_arith)
                requires
                    before.len() <= 0xFFFF_FFFF_FFFF_FFFF,
            ;
        }
        if at < self.entries.len() && self.entries[at].key == key {
            let old_len = self.entries[at].value.len();
            proof {
                assert(before[at as int] == self.entries@[at as int]@);
                lemma_to_map_index(before, at as int);
                lemma_total_size_update(before, at as int, value@);
            }
            self.entries.set(at, Record { key, value });
            self.size = self.size - old_len as u128 + value_len as u128;
        } else {
            proof {
                if at < before.len() {
                    assert(before[at as int] == self.entries@[at as int]@);
                }
            }
            self.entries.insert(at, Record { key, value });
            self.size = self.size + 12 + value_len as u128;
        }
        assert(self.entries() =~= put_run(before, key, value@));
        Ok(())
    }

    /// Stores the records of `recs` one after the other: of two records
    /// with one key the later one stays.
    pub fn absorb(&mut self, recs: &Vec<Record>)
        requires
            old(self).wf(),
            values_fit(records_view(recs@)),
        ensures
            final(self).wf(),
            final(self)@ == pour(old(self)@, records_view(recs@)),
    {
        let ghost all = records_view(recs@);
        let mut i: usize = 0;
        assert(all.take(0) =~= Seq::<(u64, Seq<u8>)>::empty());
        while i < recs.len()
            invariant
                i <= recs@.len(),
                all == records_view(recs@),
                values_fit(all),
                self.wf(),
                self@ == pour(old(self)@, all.take(i as int)),
            decreases recs@.len() - i,
        {
            let ghost next = all.take(i + 1);
            assert(next.drop_last() =~= all.take(i as int));
            assert(next.last() == all[i as int]);
            assert(all[i as int] == recs@[i as int]@);
            assert(all[i as int].1.len() <= MAX_VALUE_LEN);
            let rec = &recs[i];
            let stored = self.insert(rec.key, copy_bytes(rec.value.as_slice()));
            i = i + 1;
        }
        assert(all.take(i as int) =~= all);
    }

    /// The value held under `key`, if any. No segment is consulted.
    pub fn get(&self, key: u64) -> (r: Option<&Vec<u8>>)
        requires
            self.wf(),
        ensures
            match r {
                Some(v) => self@.contains_key(key) && v@ == self@[key],
                None => !self@.contains_key(key),
            },
    {
        let at = self.position(key);
        proof {
            lemma_to_map_contains(self.entries(), key);
        }
        if at < self.entries.len() {
            assert(self.entries()[at as int] == self.entries@[at as int]@);
            if self.entries[at].key == key {
                proof {
                    lemma_to_map_index(self.entries(), at as int);
                }
                return Some(&self.entries[at].value);
            }
        }
        proof {
            if holds(self.entries(), key) {
                let i = choose|i: int|
                    0 <= i < self.entries().len() && (#[trigger] self.entries()[i]).0 == key;
                if i > at {
                    assert(self.entries()[at as int].0 < self.entries()[i].0);
                }
            }
        }
        None
    }

    /// Hands out all records in rising key order and leaves the memtable
    /// empty.
    pub fn drain_sorted(&mut self) -> (recs: Vec<Record>)
        requires
            old(self).wf(),
        ensures
            final(self).wf(),
            records_view(recs@) == old(self).entries(),
            ascending(records_view(recs@)),
            final(self).entries() == Seq::<(u64, Seq<u8>)>::empty(),
            final(self)@ == Map::<u64, Seq<u8>>::empty(),
            final(self).size_spec() == 0,
    {
        let mut recs: Vec<Record> = Vec::new();
        std::mem::swap(&mut recs, &mut self.entries);
        self.size = 0;
        assert(self.entries() =~= Seq::<(u64, Seq<u8>)>::empty());
        recs
    }

    /// The bytes that the records held would take in a segment: for each
    /// key twelve and the length of its value.
    pub fn size(&self) -> (s: u128)
        ensures
            s == self.size_spec(),
    {
        self.size
    }

    /// Whether no record is held.
    pub fn is_empty(&self) -> (b: bool)
        ensures
            b == (self.entries().len() == 0),
    {
        self.entries.len() == 0
    }

    /// The number of records held.
    pub fn len(&self) -> (n: usize)
        ensures
            n == self.entries().len(),
    {
        self.entries.len()
    }

    /// The smallest key held.
    pub fn first_key(&self) -> (k: Option<u64>)
        ensures
            match k {
                Some(key) => self.entries().len() > 0 && key == self.entries()[0].0,
                None => self.entries().len() == 0,
            },
    {
        if self.entries.len() == 0 {
            None
        } else {
            assert(self.entries()[0] == self.entries@[0]@);
            Some(self.entries[0].key)
        }
    }

    /// The greatest key held.
    pub fn last_key(&self) -> (k: Option<u64>)
        ensures
            match k {
                Some(key) => self.entries().len() > 0 && key == self.entries().last().0,
                None => self.entries().len() == 0,
            },
    {
        let n = self.entries.len();
        if n == 0 {
            None
        } else {
            assert(self.entries()[n - 1] == self.entries@[n - 1]@);
            Some(self.entries[n - 1].key)
        }
    }

    /// Whether the memtable would outgrow `threshold` bytes with a further
    /// record whose value has `value_len` bytes.
    pub fn exceeds(&self, value_len: usize, threshold: u64) -> (b: bool)
        requires
            self.wf(),
        ensures
            b == (self.size_spec() + 12 + value_len > threshold),
    {
        let held = self.entries.len();
        proof {
            assert(self.entries().len() == held);
            lemma_total_size_bound(self.entries());
            assert(self.entries().len() * 0x1_0000_000B <= 0xFFFF_FFFF_FFFF_FFFF * 0x1_0000_000B)
                by (nonlinear_arith)
                requires
                    self.entries().len() <= 0xFFFF_FFFF_FFFF_FFFF,
            ;
        }
        self.size + 12 + value_len as u128 > threshold as u128
    }

    /// The segment that holds the records of the memtable: their frames in
    /// rising key order.
    pub fn segment_image(&self) -> (bytes: Vec<u8>)
        requires
            self.wf(),
        ensures
            bytes@ == encode_all(self.entries()),
    {
        let mut bytes: Vec<u8> = Vec::new();
        let mut i: usize = 0;
        while i < self.entries.len()
            invariant
                self.wf(),
                i <= self.entries@.len(),
                self.entries().len() == self.entries@.len(),
                bytes@ == encode_all(self.entries().take(i as int)),
            decreases self.entries@.len() - i,
        {
            let ghost done = self.entries().take(i as int);
            let ghost next = self.entries().take(i + 1);
            assert(self.entries()[i as int] == self.entries@[i as int]@);
            assert(next.drop_last() =~= done);
            assert(next.last() == self.entries()[i as int]);
            push_frame(&mut bytes, self.entries[i].key, self.entries[i].value.as_slice());
            i = i + 1;
        }
        assert(self.entries().take(i as int) =~= self.entries());
        bytes
    }
}

} // verus!
