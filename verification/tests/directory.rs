use dingostore::SegmentDirectory;

fn paths(names: &[&str]) -> Vec<String> {
    names.iter().map(|n| n.to_string()).collect()
}

#[test]
fn directory_locate_on_empty_is_none() {
    let d = SegmentDirectory::new();
    assert_eq!(d.len(), 0);
    assert_eq!(d.locate(5), None);
}

#[test]
fn directory_locate_picks_the_covering_segment() {
    let mut d = SegmentDirectory::new();
    d.register(1, 50, "a".to_string());
    d.register(51, 100, "b".to_string());
    assert_eq!(d.locate(25), Some("a".to_string()));
    assert_eq!(d.locate(75), Some("b".to_string()));
    assert_eq!(d.locate(1), Some("a".to_string()));
    assert_eq!(d.locate(50), Some("a".to_string()));
    assert_eq!(d.locate(51), Some("b".to_string()));
    assert_eq!(d.locate(100), Some("b".to_string()));
}

#[test]
fn directory_locate_outside_every_range_is_none() {
    let mut d = SegmentDirectory::new();
    d.register(10, 20, "a".to_string());
    d.register(30, 40, "b".to_string());
    assert_eq!(d.locate(9), None);
    assert_eq!(d.locate(25), None);
    assert_eq!(d.locate(41), None);
}

#[test]
fn directory_locate_prefers_the_latest_of_overlapping_segments() {
    let mut d = SegmentDirectory::new();
    d.register(5, 50, "older".to_string());
    d.register(3, 9, "newer".to_string());
    assert_eq!(d.locate(7), Some("newer".to_string()));
    assert_eq!(d.locate(20), Some("older".to_string()));
    assert_eq!(d.locate(3), Some("newer".to_string()));
}

#[test]
fn directory_contains_path_and_newest_first() {
    let mut d = SegmentDirectory::new();
    d.register(1, 2, "a".to_string());
    d.register(3, 4, "b".to_string());
    d.register(5, 6, "c".to_string());
    assert!(d.contains_path(&"b".to_string()));
    assert!(!d.contains_path(&"x".to_string()));
    assert_eq!(d.paths_newest_first(), paths(&["c", "b", "a"]));
    assert_eq!(d.len(), 3);
}

#[test]
fn directory_replace_puts_the_merged_segment_in_place_of_the_latest_retired() {
    let mut d = SegmentDirectory::new();
    d.register(1, 10, "a".to_string());
    d.register(20, 30, "b".to_string());
    d.register(5, 25, "c".to_string());
    d.register(7, 8, "d".to_string());
    d.replace(&paths(&["c", "a"]), "m".to_string(), 1, 25);
    assert_eq!(d.paths_newest_first(), paths(&["d", "m", "b"]));
    // `d` was registered after the retired segments and stays ahead of `m`.
    assert_eq!(d.locate(7), Some("d".to_string()));
    assert_eq!(d.locate(9), Some("m".to_string()));
    assert_eq!(d.locate(28), Some("b".to_string()));
}

#[test]
fn directory_replace_of_everything_leaves_the_merged_segment_alone() {
    let mut d = SegmentDirectory::new();
    d.register(1, 10, "a".to_string());
    d.register(20, 30, "b".to_string());
    d.replace(&paths(&["b", "a"]), "m".to_string(), 1, 30);
    assert_eq!(d.paths_newest_first(), paths(&["m"]));
    assert_eq!(d.locate(15), Some("m".to_string()));
}

#[test]
fn directory_replace_of_unknown_paths_registers_the_segment_as_latest() {
    let mut d = SegmentDirectory::new();
    d.register(1, 10, "a".to_string());
    d.replace(&paths(&["zzz"]), "m".to_string(), 5, 6);
    assert_eq!(d.paths_newest_first(), paths(&["m", "a"]));
}

#[test]
fn directory_copy_is_independent() {
    let mut d = SegmentDirectory::new();
    d.register(1, 10, "a".to_string());
    let c = d.copy();
    d.register(11, 20, "b".to_string());
    assert_eq!(c.len(), 1);
    assert_eq!(c.locate(15), None);
}
