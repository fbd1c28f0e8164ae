use dingostore::{
    bounds, decode_all, merge, parse_segment_name, DingoStore, FlushPlan, FoundSegment, GetStep,
    InsertStep, Record, StoreError,
};
use std::collections::HashMap;

/// The files of an engine, kept in memory, with a clock that the test sets.
struct Disk {
    files: HashMap<String, Vec<u8>>,
    now_ms: u64,
}

fn disk() -> Disk {
    Disk { files: HashMap::new(), now_ms: 1000 }
}

fn flush_now(store: &mut DingoStore, disk: &mut Disk) -> Result<String, StoreError> {
    disk.now_ms += 1;
    let plan = store.plan_flush(disk.now_ms).expect("a memtable with records can be planned");
    disk.files.insert(plan.path.clone(), plan.bytes);
    store.flush(plan.path, true)
}

fn put(
    store: &mut DingoStore,
    disk: &mut Disk,
    key: u64,
    value: &[u8],
    allow_flush: bool,
) -> Result<(u64, Vec<u8>), StoreError> {
    match store.insert(key, value.to_vec(), allow_flush)? {
        InsertStep::Stored(k, v) => Ok((k, v)),
        InsertStep::FlushFirst(k, v) => {
            flush_now(store, disk)?;
            match store.insert(k, v, allow_flush)? {
                InsertStep::Stored(k, v) => Ok((k, v)),
                InsertStep::FlushFirst(..) => panic!("an empty memtable never asks for a flush"),
            }
        }
    }
}

fn fetch(store: &DingoStore, disk: &Disk, key: u64) -> Result<Option<Vec<u8>>, StoreError> {
    match store.get(key) {
        GetStep::Found(v) => Ok(Some(v)),
        GetStep::Absent => Ok(None),
        GetStep::Segment(path) => {
            DingoStore::seek_key(disk.files.get(&path).map(|b| b.as_slice()), key)
        }
    }
}

fn records(pairs: &[(u64, &[u8])]) -> Vec<Record> {
    pairs.iter().map(|(k, v)| Record { key: *k, value: v.to_vec() }).collect()
}

#[test]
fn new_engine_is_empty() {
    let store = DingoStore::new("dingostore");
    assert!(store.memtable().is_empty());
    assert_eq!(store.memtable().size(), 0);
    assert_eq!(store.directory().len(), 0);
    assert_eq!(store.get(1), GetStep::Absent);
    assert_eq!(store.plan_compaction(), None);
}

#[test]
fn in_memory_round_trip() {
    let mut store = DingoStore::new("s1");
    let mut d = disk();
    assert_eq!(put(&mut store, &mut d, 1, b"a", true), Ok((1, b"a".to_vec())));
    assert_eq!(put(&mut store, &mut d, 2, b"bb", true), Ok((2, b"bb".to_vec())));
    assert_eq!(fetch(&store, &d, 1), Ok(Some(b"a".to_vec())));
    assert_eq!(fetch(&store, &d, 2), Ok(Some(b"bb".to_vec())));
    assert_eq!(fetch(&store, &d, 3), Ok(None));
    assert!(d.files.is_empty());
}

#[test]
fn forced_flush_on_threshold() {
    let mut store = DingoStore::with_threshold("s2", 100);
    let mut d = disk();
    put(&mut store, &mut d, 10, &[b'x'; 30], true).unwrap();
    put(&mut store, &mut d, 11, &[b'y'; 30], true).unwrap();
    assert!(d.files.is_empty());
    put(&mut store, &mut d, 12, &[b'z'; 30], true).unwrap();
    assert_eq!(d.files.len(), 1);
    let (path, bytes) = d.files.iter().next().unwrap();
    assert_eq!(path, "s2_1001.data");
    assert_eq!(
        decode_all(bytes),
        Ok(vec![
            Record { key: 10, value: vec![b'x'; 30] },
            Record { key: 11, value: vec![b'y'; 30] }
        ])
    );
    assert_eq!(store.memtable().len(), 1);
    assert_eq!(store.memtable().get(12), Some(&vec![b'z'; 30]));
    assert_eq!(store.memtable().size(), 42);
    assert_eq!(fetch(&store, &d, 10), Ok(Some(vec![b'x'; 30])));
    assert_eq!(fetch(&store, &d, 11), Ok(Some(vec![b'y'; 30])));
    assert_eq!(fetch(&store, &d, 12), Ok(Some(vec![b'z'; 30])));
}

#[test]
fn insert_asks_for_a_flush_exactly_above_the_threshold() {
    let mut store = DingoStore::with_threshold("t", 100);
    store.insert(1, vec![0; 30], true).unwrap();
    store.insert(2, vec![0; 30], true).unwrap();
    // 84 held; 84 + 12 + 4 is the threshold itself and still fits.
    assert_eq!(store.insert(3, vec![1; 4], true), Ok(InsertStep::Stored(3, vec![1; 4])));
    assert_eq!(store.memtable().size(), 100);
    assert_eq!(store.insert(4, vec![], true), Ok(InsertStep::FlushFirst(4, vec![])));
    assert_eq!(store.memtable().len(), 3);
    assert_eq!(store.get(4), GetStep::Absent);
}

#[test]
fn insert_without_leave_to_flush_always_stores() {
    let mut store = DingoStore::with_threshold("t", 20);
    for k in 0..10u64 {
        assert_eq!(store.insert(k, vec![9; 50], false), Ok(InsertStep::Stored(k, vec![9; 50])));
    }
    assert_eq!(store.memtable().len(), 10);
    assert_eq!(store.memtable().size(), 620);
    assert_eq!(store.directory().len(), 0);
}

#[test]
fn insert_into_an_empty_memtable_never_asks_for_a_flush() {
    let mut store = DingoStore::with_threshold("t", 10);
    assert_eq!(store.insert(1, vec![0; 500], true), Ok(InsertStep::Stored(1, vec![0; 500])));
    assert_eq!(store.insert(2, vec![], true), Ok(InsertStep::FlushFirst(2, vec![])));
}

#[test]
fn update_in_memtable() {
    let mut store = DingoStore::new("s3");
    let mut d = disk();
    put(&mut store, &mut d, 5, b"old", true).unwrap();
    put(&mut store, &mut d, 5, b"new", true).unwrap();
    assert_eq!(fetch(&store, &d, 5), Ok(Some(b"new".to_vec())));
    assert_eq!(store.memtable().len(), 1);
    assert_eq!(store.memtable().size(), 15);
}

#[test]
fn read_after_flush() {
    let mut store = DingoStore::new("s4");
    let mut d = disk();
    put(&mut store, &mut d, 1, b"a", true).unwrap();
    let path = flush_now(&mut store, &mut d).unwrap();
    assert_eq!(path, "s4_1001.data");
    assert!(store.memtable().is_empty());
    assert_eq!(store.memtable().size(), 0);
    assert_eq!(store.get(1), GetStep::Segment("s4_1001.data".to_string()));
    assert_eq!(fetch(&store, &d, 1), Ok(Some(b"a".to_vec())));
    assert_eq!(fetch(&store, &d, 2), Ok(None));
}

#[test]
fn two_segments_with_disjoint_ranges() {
    let mut store = DingoStore::new("s5");
    let mut d = disk();
    for k in 1..=50u64 {
        put(&mut store, &mut d, k, format!("a{}", k).as_bytes(), true).unwrap();
    }
    let a = flush_now(&mut store, &mut d).unwrap();
    for k in 51..=100u64 {
        put(&mut store, &mut d, k, format!("b{}", k).as_bytes(), true).unwrap();
    }
    let b = flush_now(&mut store, &mut d).unwrap();
    assert_ne!(a, b);
    assert_eq!(store.get(25), GetStep::Segment(a));
    assert_eq!(store.get(75), GetStep::Segment(b));
    assert_eq!(fetch(&store, &d, 25), Ok(Some(b"a25".to_vec())));
    assert_eq!(fetch(&store, &d, 75), Ok(Some(b"b75".to_vec())));
    assert_eq!(fetch(&store, &d, 101), Ok(None));
    assert_eq!(fetch(&store, &d, 0), Ok(None));
}

#[test]
fn newer_segment_shadows_older_one_for_an_updated_key() {
    let mut store = DingoStore::new("upd");
    let mut d = disk();
    put(&mut store, &mut d, 5, b"first", true).unwrap();
    put(&mut store, &mut d, 9, b"nine", true).unwrap();
    flush_now(&mut store, &mut d).unwrap();
    put(&mut store, &mut d, 3, b"three", true).unwrap();
    put(&mut store, &mut d, 5, b"second", true).unwrap();
    flush_now(&mut store, &mut d).unwrap();
    assert_eq!(fetch(&store, &d, 5), Ok(Some(b"second".to_vec())));
    assert_eq!(fetch(&store, &d, 9), Ok(Some(b"nine".to_vec())));
    assert_eq!(fetch(&store, &d, 3), Ok(Some(b"three".to_vec())));
}

#[test]
fn a_later_flush_hides_older_keys_inside_its_range() {
    let mut store = DingoStore::new("hide");
    let mut d = disk();
    for k in [1u64, 50, 100] {
        put(&mut store, &mut d, k, b"old", true).unwrap();
    }
    flush_now(&mut store, &mut d).unwrap();
    for k in [40u64, 60] {
        put(&mut store, &mut d, k, b"new", true).unwrap();
    }
    flush_now(&mut store, &mut d).unwrap();
    assert_eq!(fetch(&store, &d, 40), Ok(Some(b"new".to_vec())));
    assert_eq!(fetch(&store, &d, 1), Ok(Some(b"old".to_vec())));
    assert_eq!(fetch(&store, &d, 100), Ok(Some(b"old".to_vec())));
    // One lookup reads one segment: the later range covers 50 without holding it.
    assert_eq!(fetch(&store, &d, 50), Ok(None));
}

#[test]
fn flush_failure_changes_nothing() {
    let mut store = DingoStore::new("fail");
    store.insert(1, b"a".to_vec(), true).unwrap();
    let plan = store.plan_flush(5).unwrap();
    assert_eq!(store.flush(plan.path, false), Err(StoreError::IoError));
    assert_eq!(store.memtable().len(), 1);
    assert_eq!(store.memtable().size(), 13);
    assert_eq!(store.directory().len(), 0);
    assert_eq!(store.get(1), GetStep::Found(b"a".to_vec()));
}

#[test]
fn plan_flush_of_an_empty_memtable_is_none() {
    let mut store = DingoStore::new("none");
    assert_eq!(store.plan_flush(5), None);
    assert_eq!(store.next_path(5), Some("none_5.data".to_string()));
}

#[test]
fn plan_flush_hands_out_the_range_and_the_image() {
    let mut store = DingoStore::new("plan");
    store.insert(7, b"g".to_vec(), true).unwrap();
    store.insert(2, b"bb".to_vec(), true).unwrap();
    let plan = store.plan_flush(42).unwrap();
    assert_eq!(
        plan,
        FlushPlan {
            path: "plan_42.data".to_string(),
            min_key: 2,
            max_key: 7,
            bytes: vec![
                0, 0, 0, 0, 0, 0, 0, 2, 0, 0, 0, 2, b'b', b'b', 0, 0, 0, 0, 0, 0, 0, 7, 0, 0, 0,
                1, b'g'
            ],
        }
    );
    // Planning alone stores and registers nothing.
    assert_eq!(store.memtable().len(), 2);
    assert_eq!(store.directory().len(), 0);
}

#[test]
fn segment_names_stay_apart_within_one_millisecond() {
    let mut store = DingoStore::new("n");
    assert_eq!(store.next_path(100), Some("n_100.data".to_string()));
    assert_eq!(store.next_path(100), Some("n_100_1.data".to_string()));
    assert_eq!(store.next_path(100), Some("n_100_2.data".to_string()));
    assert_eq!(store.next_path(101), Some("n_101.data".to_string()));
    // A clock that falls back does not bring an old stamp again.
    assert_eq!(store.next_path(50), Some("n_101_1.data".to_string()));
}

#[test]
fn a_name_that_is_registered_is_not_given_out() {
    let mut store = DingoStore::new("n");
    store.insert(1, b"a".to_vec(), true).unwrap();
    assert_eq!(store.flush("n_7.data".to_string(), true), Ok("n_7.data".to_string()));
    assert_eq!(store.next_path(7), None);
    assert_eq!(store.next_path(7), Some("n_7_1.data".to_string()));
}

#[test]
fn seek_key_reports_an_unreadable_file() {
    assert_eq!(DingoStore::seek_key(None, 1), Err(StoreError::IoError));
}

#[test]
fn lookup_surfaces_corruption() {
    let mut store = DingoStore::new("c");
    let mut d = disk();
    put(&mut store, &mut d, 1, b"a", true).unwrap();
    put(&mut store, &mut d, 9, b"i", true).unwrap();
    let path = flush_now(&mut store, &mut d).unwrap();
    d.files.get_mut(&path).unwrap().truncate(20);
    assert_eq!(fetch(&store, &d, 1), Ok(Some(b"a".to_vec())));
    assert_eq!(fetch(&store, &d, 9), Err(StoreError::CorruptSegment));
    d.files.remove(&path);
    assert_eq!(fetch(&store, &d, 9), Err(StoreError::IoError));
}

#[test]
fn clone_is_an_engine_of_its_own() {
    let mut store = DingoStore::new("cl");
    let mut d = disk();
    put(&mut store, &mut d, 1, b"a", true).unwrap();
    flush_now(&mut store, &mut d).unwrap();
    put(&mut store, &mut d, 2, b"b", true).unwrap();
    let copy = store.clone();
    put(&mut store, &mut d, 2, b"changed", true).unwrap();
    flush_now(&mut store, &mut d).unwrap();
    assert_eq!(fetch(&copy, &d, 2), Ok(Some(b"b".to_vec())));
    assert_eq!(fetch(&copy, &d, 1), Ok(Some(b"a".to_vec())));
    assert_eq!(copy.directory().len(), 1);
    assert_eq!(store.directory().len(), 2);
}

#[test]
fn try_deserialize_loads_a_segment_into_a_memtable() {
    let store = DingoStore::with_threshold("td", 64);
    let mut seg = dingostore::encode(3, b"three");
    seg.extend(dingostore::encode(8, b"eight"));
    let loaded = store.try_deserialize(&seg).ok().unwrap();
    assert_eq!(loaded.get(3), GetStep::Found(b"three".to_vec()));
    assert_eq!(loaded.get(8), GetStep::Found(b"eight".to_vec()));
    assert_eq!(loaded.memtable().size(), 34);
    assert_eq!(loaded.directory().len(), 0);
    seg.push(1);
    assert!(matches!(store.try_deserialize(&seg), Err(StoreError::CorruptSegment)));
}

#[test]
fn merge_lets_the_newest_segment_win() {
    let mut oldest = dingostore::encode(1, b"one-old");
    oldest.extend(dingostore::encode(2, b"two-old"));
    let mut middle = dingostore::encode(2, b"two-mid");
    middle.extend(dingostore::encode(3, b"three-mid"));
    let newest = dingostore::encode(3, b"three-new");
    let mut merged = merge(&vec![newest, middle, oldest]).ok().unwrap();
    assert_eq!(merged.size(), (12 + 7) + (12 + 7) + (12 + 9));
    assert_eq!(
        merged.drain_sorted(),
        records(&[(1, b"one-old"), (2, b"two-mid"), (3, b"three-new")])
    );
}

#[test]
fn merge_of_nothing_is_empty_and_damage_is_reported() {
    assert!(merge(&vec![]).ok().unwrap().is_empty());
    let good = dingostore::encode(1, b"a");
    let bad = vec![1, 2, 3];
    assert!(matches!(merge(&vec![good.clone(), bad.clone()]), Err(StoreError::CorruptSegment)));
    assert!(matches!(merge(&vec![bad, good]), Err(StoreError::CorruptSegment)));
}

#[test]
fn compaction_is_due_at_ten_segments_and_keeps_every_value() {
    let mut store = DingoStore::new("cmp");
    let mut d = disk();
    for round in 0..10u64 {
        assert_eq!(store.plan_compaction(), None);
        for k in 0..5u64 {
            let key = round * 3 + k;
            put(&mut store, &mut d, key, format!("r{}k{}", round, key).as_bytes(), true).unwrap();
        }
        flush_now(&mut store, &mut d).unwrap();
    }
    let paths = store.plan_compaction().expect("ten segments are registered");
    assert_eq!(paths.len(), 10);
    assert_eq!(paths[0], "cmp_1010.data");
    assert_eq!(paths[9], "cmp_1001.data");
    let before: Vec<Result<Option<Vec<u8>>, StoreError>> =
        (0..40u64).map(|k| fetch(&store, &d, k)).collect();
    let inputs: Vec<Vec<u8>> = paths.iter().map(|p| d.files[p].clone()).collect();
    let merged = merge(&inputs).ok().unwrap();
    d.now_ms += 1;
    let plan = store.plan_merge(d.now_ms, &merged).unwrap();
    assert_eq!(plan.min_key, 0);
    assert_eq!(plan.max_key, 31);
    d.files.insert(plan.path.clone(), plan.bytes.clone());
    assert_eq!(store.compact(&paths, &plan, true), Ok(()));
    for p in &paths {
        d.files.remove(p);
    }
    assert_eq!(store.directory().len(), 1);
    assert_eq!(store.directory().paths_newest_first(), vec![plan.path.clone()]);
    for k in 0..40u64 {
        if let Ok(Some(v)) = &before[k as usize] {
            assert_eq!(fetch(&store, &d, k), Ok(Some(v.clone())));
        }
    }
    // The newest round that wrote a key decides its value.
    assert_eq!(fetch(&store, &d, 4), Ok(Some(b"r1k4".to_vec())));
    assert_eq!(fetch(&store, &d, 31), Ok(Some(b"r9k31".to_vec())));
    let keys: Vec<u64> = decode_all(&plan.bytes).unwrap().iter().map(|r| r.key).collect();
    assert!(keys.windows(2).all(|w| w[0] < w[1]));
}

#[test]
fn compaction_failure_leaves_the_directory_unchanged() {
    let mut store = DingoStore::new("cf");
    let mut d = disk();
    put(&mut store, &mut d, 1, b"a", true).unwrap();
    let a = flush_now(&mut store, &mut d).unwrap();
    put(&mut store, &mut d, 2, b"b", true).unwrap();
    let b = flush_now(&mut store, &mut d).unwrap();
    let merged = merge(&vec![d.files[&b].clone(), d.files[&a].clone()]).ok().unwrap();
    let plan = store.plan_merge(2000, &merged).unwrap();
    assert_eq!(store.compact(&vec![b.clone(), a.clone()], &plan, false), Err(StoreError::IoError));
    assert_eq!(store.directory().paths_newest_first(), vec![b, a]);
}

#[test]
fn plan_merge_of_an_empty_memtable_is_none() {
    let mut store = DingoStore::new("pm");
    let merged = merge(&vec![]).ok().unwrap();
    assert_eq!(store.plan_merge(7, &merged), None);
}

#[test]
fn round_trip_with_rising_keys_across_many_flushes() {
    let mut store = DingoStore::with_threshold("rt", 200);
    let mut d = disk();
    let mut written = Vec::new();
    for k in 0..300u64 {
        let value = vec![(k % 251) as u8; (k % 40) as usize];
        assert_eq!(put(&mut store, &mut d, k, &value, true), Ok((k, value.clone())));
        written.push((k, value));
        assert!(store.memtable().size() <= 200 || store.memtable().len() == 1);
    }
    assert!(d.files.len() > 10);
    for (k, v) in &written {
        assert_eq!(fetch(&store, &d, *k), Ok(Some(v.clone())));
    }
    for bytes in d.files.values() {
        let keys: Vec<u64> = decode_all(bytes).unwrap().iter().map(|r| r.key).collect();
        assert!(!keys.is_empty());
        assert!(keys.windows(2).all(|w| w[0] < w[1]));
    }
}

#[test]
fn last_writer_wins_in_the_memtable() {
    let mut store = DingoStore::new("lww");
    let d = disk();
    for (k, v) in [(1u64, "a1"), (2, "b1"), (1, "a2"), (3, "c1"), (1, "a3"), (2, "b2")] {
        store.insert(k, v.as_bytes().to_vec(), false).unwrap();
    }
    assert_eq!(fetch(&store, &d, 1), Ok(Some(b"a3".to_vec())));
    assert_eq!(fetch(&store, &d, 2), Ok(Some(b"b2".to_vec())));
    assert_eq!(fetch(&store, &d, 3), Ok(Some(b"c1".to_vec())));
    assert_eq!(store.memtable().size(), 3 * 14);
}

#[test]
fn registered_files_are_never_planned_again() {
    let mut store = DingoStore::with_threshold("im", 40);
    let mut d = disk();
    d.now_ms = 5;
    let mut seen: Vec<(String, Vec<u8>)> = Vec::new();
    for k in 0..40u64 {
        // The clock stands still, so that names have to differ by their counter.
        match store.insert(k, vec![k as u8; 10], true).unwrap() {
            InsertStep::Stored(..) => {}
            InsertStep::FlushFirst(key, value) => {
                let plan = store.plan_flush(d.now_ms).unwrap();
                assert!(!d.files.contains_key(&plan.path));
                d.files.insert(plan.path.clone(), plan.bytes.clone());
                seen.push((plan.path.clone(), plan.bytes));
                store.flush(plan.path, true).unwrap();
                store.insert(key, value, true).unwrap();
            }
        }
    }
    assert!(seen.len() > 5);
    for (path, bytes) in &seen {
        assert_eq!(&d.files[path], bytes);
    }
}

fn reopen<'a>(prefix: &'a str, disk: &Disk) -> DingoStore<'a> {
    let mut found: Vec<FoundSegment> = Vec::new();
    for (name, bytes) in &disk.files {
        if let Some((stamp, counter)) = parse_segment_name(prefix, name) {
            if let Ok(Some((min_key, max_key))) = bounds(bytes) {
                found.push(FoundSegment { stamp, counter, min_key, max_key });
            }
        }
    }
    found.sort_by_key(|f| (f.stamp, f.counter));
    DingoStore::open(prefix, &found)
}

#[test]
fn reopen_finds_what_was_flushed() {
    let mut d = disk();
    {
        let mut store = DingoStore::new("s6");
        for (k, v) in [(1u64, "one"), (2, "two"), (3, "three")] {
            put(&mut store, &mut d, k, v.as_bytes(), true).unwrap();
        }
        flush_now(&mut store, &mut d).unwrap();
    }
    d.files.insert("other_5.data".to_string(), dingostore::encode(2, b"not ours"));
    let store = reopen("s6", &d);
    assert!(store.memtable().is_empty());
    assert_eq!(store.directory().len(), 1);
    assert_eq!(fetch(&store, &d, 2), Ok(Some(b"two".to_vec())));
    assert_eq!(fetch(&store, &d, 1), Ok(Some(b"one".to_vec())));
    assert_eq!(fetch(&store, &d, 4), Ok(None));
}

#[test]
fn reopen_keeps_the_order_of_the_segments_and_loses_the_memtable() {
    let mut d = disk();
    let mut store = DingoStore::new("ro");
    put(&mut store, &mut d, 5, b"first", true).unwrap();
    put(&mut store, &mut d, 9, b"nine", true).unwrap();
    flush_now(&mut store, &mut d).unwrap();
    put(&mut store, &mut d, 5, b"second", true).unwrap();
    flush_now(&mut store, &mut d).unwrap();
    put(&mut store, &mut d, 7, b"unflushed", true).unwrap();
    let before = store.directory().paths_newest_first();
    let mut again = reopen("ro", &d);
    assert_eq!(again.directory().paths_newest_first(), before);
    assert_eq!(fetch(&again, &d, 5), Ok(Some(b"second".to_vec())));
    assert_eq!(fetch(&again, &d, 9), Ok(Some(b"nine".to_vec())));
    assert_eq!(fetch(&again, &d, 7), Ok(None));
    // Names given out after reopening follow those found.
    assert_eq!(again.next_path(0), Some("ro_1002_1.data".to_string()));
}

#[test]
fn open_leaves_out_a_segment_that_does_not_follow() {
    let found = vec![
        FoundSegment { stamp: 5, counter: 0, min_key: 1, max_key: 2 },
        FoundSegment { stamp: 5, counter: 0, min_key: 3, max_key: 4 },
        FoundSegment { stamp: 4, counter: 9, min_key: 5, max_key: 6 },
        FoundSegment { stamp: 5, counter: 1, min_key: 7, max_key: 8 },
    ];
    let store = DingoStore::open("o", &found);
    assert_eq!(
        store.directory().paths_newest_first(),
        vec!["o_5_1.data".to_string(), "o_5.data".to_string()]
    );
    assert_eq!(store.get(7), GetStep::Segment("o_5_1.data".to_string()));
    assert_eq!(store.get(3), GetStep::Absent);
}

#[test]
fn adopt_says_whether_it_took_the_segment() {
    let mut store = DingoStore::new("ad");
    assert!(store.adopt(&FoundSegment { stamp: 2, counter: 0, min_key: 1, max_key: 9 }));
    assert!(!store.adopt(&FoundSegment { stamp: 1, counter: 5, min_key: 1, max_key: 9 }));
    assert!(!store.adopt(&FoundSegment { stamp: 2, counter: 0, min_key: 1, max_key: 9 }));
    assert!(store.adopt(&FoundSegment { stamp: 2, counter: 1, min_key: 1, max_key: 9 }));
    assert_eq!(store.directory().len(), 2);
}

#[test]
fn serialize_frames_a_record() {
    let store = DingoStore::new("ser");
    assert_eq!(
        store.serialize(258, b"hi"),
        Ok(vec![0, 0, 0, 0, 0, 0, 1, 2, 0, 0, 0, 2, b'h', b'i'])
    );
    assert_eq!(store.serialize(0, b""), Ok(vec![0; 12]));
}
