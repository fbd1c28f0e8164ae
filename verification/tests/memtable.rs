use dingostore::{decode_all, Memtable, Record};

#[test]
fn memtable_starts_empty() {
    let m = Memtable::new();
    assert!(m.is_empty());
    assert_eq!(m.len(), 0);
    assert_eq!(m.size(), 0);
    assert_eq!(m.get(1), None);
    assert_eq!(m.first_key(), None);
    assert_eq!(m.last_key(), None);
}

#[test]
fn memtable_insert_then_get() {
    let mut m = Memtable::new();
    assert_eq!(m.insert(2, b"bb".to_vec()), Ok(()));
    assert_eq!(m.insert(1, b"a".to_vec()), Ok(()));
    assert_eq!(m.get(1), Some(&b"a".to_vec()));
    assert_eq!(m.get(2), Some(&b"bb".to_vec()));
    assert_eq!(m.get(3), None);
    assert_eq!(m.len(), 2);
    assert!(!m.is_empty());
}

#[test]
fn memtable_size_is_twelve_plus_value_per_key() {
    let mut m = Memtable::new();
    m.insert(10, vec![0; 30]).unwrap();
    assert_eq!(m.size(), 42);
    m.insert(11, vec![0; 5]).unwrap();
    assert_eq!(m.size(), 42 + 17);
    m.insert(12, vec![]).unwrap();
    assert_eq!(m.size(), 42 + 17 + 12);
}

#[test]
fn memtable_update_replaces_value_and_adjusts_size() {
    let mut m = Memtable::new();
    m.insert(5, b"old".to_vec()).unwrap();
    assert_eq!(m.size(), 15);
    m.insert(5, b"newer".to_vec()).unwrap();
    assert_eq!(m.get(5), Some(&b"newer".to_vec()));
    assert_eq!(m.len(), 1);
    assert_eq!(m.size(), 17);
    m.insert(5, b"".to_vec()).unwrap();
    assert_eq!(m.size(), 12);
}

#[test]
fn memtable_drain_sorted_is_ascending_and_empties() {
    let mut m = Memtable::new();
    for k in [7u64, 3, 9, 1, 5] {
        m.insert(k, vec![k as u8]).unwrap();
    }
    let recs = m.drain_sorted();
    let keys: Vec<u64> = recs.iter().map(|r| r.key).collect();
    assert_eq!(keys, vec![1, 3, 5, 7, 9]);
    assert_eq!(recs[2], Record { key: 5, value: vec![5] });
    assert!(m.is_empty());
    assert_eq!(m.size(), 0);
    assert_eq!(m.get(5), None);
}

#[test]
fn memtable_first_and_last_key() {
    let mut m = Memtable::new();
    for k in [7u64, 3, 9] {
        m.insert(k, vec![]).unwrap();
    }
    assert_eq!(m.first_key(), Some(3));
    assert_eq!(m.last_key(), Some(9));
}

#[test]
fn memtable_exceeds_compares_the_projected_size() {
    let mut m = Memtable::new();
    m.insert(1, vec![0; 30]).unwrap();
    m.insert(2, vec![0; 30]).unwrap();
    // 84 bytes held; a further value of 4 bytes makes exactly 100.
    assert!(!m.exceeds(4, 100));
    assert!(m.exceeds(5, 100));
    assert!(m.exceeds(30, 100));
}

#[test]
fn memtable_segment_image_is_the_frames_in_key_order() {
    let mut m = Memtable::new();
    m.insert(2, b"bb".to_vec()).unwrap();
    m.insert(1, b"a".to_vec()).unwrap();
    let image = m.segment_image();
    assert_eq!(
        image,
        vec![
            0, 0, 0, 0, 0, 0, 0, 1, 0, 0, 0, 1, b'a', 0, 0, 0, 0, 0, 0, 0, 2, 0, 0, 0, 2, b'b',
            b'b'
        ]
    );
    assert_eq!(image.len() as u128, m.size());
    let recs = decode_all(&image).unwrap();
    assert_eq!(recs.len(), 2);
}

#[test]
fn memtable_absorb_lets_the_later_record_win() {
    let mut m = Memtable::new();
    m.insert(1, b"kept".to_vec()).unwrap();
    m.absorb(&vec![
        Record { key: 2, value: b"first".to_vec() },
        Record { key: 3, value: b"three".to_vec() },
        Record { key: 2, value: b"second".to_vec() },
    ]);
    assert_eq!(m.get(1), Some(&b"kept".to_vec()));
    assert_eq!(m.get(2), Some(&b"second".to_vec()));
    assert_eq!(m.get(3), Some(&b"three".to_vec()));
    assert_eq!(m.size(), (12 + 4) + (12 + 6) + (12 + 5));
}

#[test]
fn memtable_copy_is_independent() {
    let mut m = Memtable::new();
    m.insert(1, b"a".to_vec()).unwrap();
    let c = m.copy();
    m.insert(1, b"changed".to_vec()).unwrap();
    assert_eq!(c.get(1), Some(&b"a".to_vec()));
    assert_eq!(c.size(), 13);
}

#[test]
fn memtable_many_keys_keep_order_and_size() {
    let mut m = Memtable::new();
    let mut expected: u128 = 0;
    for i in 0..200u64 {
        let k = (i * 7919) % 1009;
        let v = vec![1u8; (k % 13) as usize];
        if let Some(old) = m.get(k) {
            expected -= 12 + old.len() as u128;
        }
        expected += 12 + v.len() as u128;
        m.insert(k, v).unwrap();
    }
    assert_eq!(m.size(), expected);
    let recs = m.drain_sorted();
    assert!(recs.windows(2).all(|w| w[0].key < w[1].key));
}
