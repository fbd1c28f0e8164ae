use dingostore::memdisk::{compact, get, insert};
use dingostore::{decode_all, segment_path, DingoStore, MemDisk, StoreError};

#[test]
fn memdisk_write_read_remove() {
    let mut disk = MemDisk::new();
    let a = "a".to_string();
    let b = "b".to_string();
    assert_eq!(disk.read(&a), None);
    assert!(!disk.contains(&a));
    disk.write(a.clone(), vec![1, 2]);
    disk.write(b.clone(), vec![3]);
    assert_eq!(disk.read(&a), Some(&vec![1, 2]));
    assert_eq!(disk.read(&b), Some(&vec![3]));
    disk.write(a.clone(), vec![9]);
    assert_eq!(disk.read(&a), Some(&vec![9]));
    disk.remove(&a);
    assert_eq!(disk.read(&a), None);
    assert_eq!(disk.read(&b), Some(&vec![3]));
    disk.remove(&a);
    assert!(disk.contains(&b));
}

#[test]
fn whole_insert_flushes_when_the_threshold_is_passed() {
    let mut store = DingoStore::with_threshold("w", 100);
    let mut disk = MemDisk::new();
    assert_eq!(insert(&mut store, &mut disk, 10, vec![b'x'; 30], true, 7), Ok((10, vec![b'x'; 30])));
    assert_eq!(insert(&mut store, &mut disk, 11, vec![b'y'; 30], true, 8), Ok((11, vec![b'y'; 30])));
    assert!(!disk.contains(&"w_9.data".to_string()));
    assert_eq!(insert(&mut store, &mut disk, 12, vec![b'z'; 30], true, 9), Ok((12, vec![b'z'; 30])));
    let segment = disk.read(&"w_9.data".to_string()).expect("the flush wrote the segment");
    let keys: Vec<u64> = decode_all(segment).unwrap().iter().map(|r| r.key).collect();
    assert_eq!(keys, vec![10, 11]);
    assert_eq!(store.memtable().len(), 1);
    assert_eq!(get(&store, &disk, 10), Ok(Some(vec![b'x'; 30])));
    assert_eq!(get(&store, &disk, 12), Ok(Some(vec![b'z'; 30])));
    assert_eq!(get(&store, &disk, 13), Ok(None));
}

#[test]
fn whole_insert_fails_where_no_name_is_to_be_had() {
    let mut store = DingoStore::with_threshold("w", 10);
    let mut disk = MemDisk::new();
    insert(&mut store, &mut disk, 1, vec![0; 20], true, 5).unwrap();
    // A segment that someone registered under the name that comes next.
    let taken = segment_path("w", 5, 0);
    assert_eq!(store.flush(taken, true), Ok("w_5.data".to_string()));
    insert(&mut store, &mut disk, 2, vec![0; 20], true, 5).unwrap();
    assert_eq!(insert(&mut store, &mut disk, 3, vec![], true, 5), Err(StoreError::IoError));
    assert_eq!(get(&store, &disk, 3), Ok(None));
    assert_eq!(get(&store, &disk, 2), Ok(Some(vec![0; 20])));
    // The name is used up; the next one is free.
    assert_eq!(insert(&mut store, &mut disk, 3, vec![], true, 5), Ok((3, vec![])));
    assert!(disk.contains(&"w_5_1.data".to_string()));
}

#[test]
fn whole_lookup_reports_a_missing_file() {
    let mut store = DingoStore::with_threshold("w", 10);
    let mut disk = MemDisk::new();
    insert(&mut store, &mut disk, 1, vec![0; 20], true, 5).unwrap();
    insert(&mut store, &mut disk, 2, vec![0; 20], true, 6).unwrap();
    assert_eq!(get(&store, &disk, 1), Ok(Some(vec![0; 20])));
    disk.remove(&"w_6.data".to_string());
    assert_eq!(get(&store, &disk, 1), Err(StoreError::IoError));
    assert_eq!(get(&store, &disk, 2), Ok(Some(vec![0; 20])));
}

#[test]
fn whole_compaction_merges_all_segments_and_deletes_their_files() {
    let mut store = DingoStore::with_threshold("c", 1);
    let mut disk = MemDisk::new();
    let mut now = 100;
    // Every insert but the first flushes the record before it.
    for k in 0..10u64 {
        now += 1;
        assert_eq!(compact(&mut store, &mut disk, now), Ok(false));
        insert(&mut store, &mut disk, k % 4, format!("v{}", k).into_bytes(), true, now).unwrap();
    }
    now += 1;
    insert(&mut store, &mut disk, 99, b"last".to_vec(), true, now).unwrap();
    assert_eq!(store.directory().len(), 10);
    let retired = store.directory().paths_newest_first();
    let before: Vec<_> = (0..5u64).map(|k| get(&store, &disk, k)).collect();
    assert_eq!(before[1], Ok(Some(b"v9".to_vec())));
    assert_eq!(before[3], Ok(Some(b"v7".to_vec())));
    now += 1;
    assert_eq!(compact(&mut store, &mut disk, now), Ok(true));
    assert_eq!(store.directory().len(), 1);
    let merged_path = store.directory().paths_newest_first().remove(0);
    assert_eq!(merged_path, format!("c_{}.data", now));
    for path in &retired {
        assert!(!disk.contains(path));
    }
    let merged = decode_all(disk.read(&merged_path).unwrap()).unwrap();
    let pairs: Vec<(u64, Vec<u8>)> = merged.into_iter().map(|r| (r.key, r.value)).collect();
    assert_eq!(
        pairs,
        vec![
            (0, b"v8".to_vec()),
            (1, b"v9".to_vec()),
            (2, b"v6".to_vec()),
            (3, b"v7".to_vec())
        ]
    );
    for k in 0..5u64 {
        assert_eq!(get(&store, &disk, k), before[k as usize]);
    }
    assert_eq!(get(&store, &disk, 99), Ok(Some(b"last".to_vec())));
    assert_eq!(compact(&mut store, &mut disk, now + 1), Ok(false));
}

#[test]
fn whole_compaction_reports_unreadable_and_damaged_segments() {
    let mut store = DingoStore::with_threshold("e", 1);
    let mut disk = MemDisk::new();
    for k in 0..11u64 {
        insert(&mut store, &mut disk, k, vec![k as u8], true, 50 + k).unwrap();
    }
    assert_eq!(store.directory().len(), 10);
    let paths = store.directory().paths_newest_first();
    let saved = disk.read(&paths[3]).unwrap().clone();
    disk.write(paths[3].clone(), vec![1, 2, 3]);
    assert_eq!(compact(&mut store, &mut disk, 500), Err(StoreError::CorruptSegment));
    disk.remove(&paths[3]);
    assert_eq!(compact(&mut store, &mut disk, 500), Err(StoreError::IoError));
    assert_eq!(store.directory().paths_newest_first(), paths);
    disk.write(paths[3].clone(), saved);
    assert_eq!(compact(&mut store, &mut disk, 500), Ok(true));
    assert_eq!(store.directory().paths_newest_first(), vec!["e_500.data".to_string()]);
}
