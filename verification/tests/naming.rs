use dingostore::{parse_segment_name, segment_path};

#[test]
fn segment_path_without_counter() {
    assert_eq!(segment_path("dingostore", 1700000000123, 0), "dingostore_1700000000123.data");
    assert_eq!(segment_path("p", 0, 0), "p_0.data");
    assert_eq!(segment_path("", 7, 0), "_7.data");
}

#[test]
fn segment_path_with_counter() {
    assert_eq!(segment_path("dingostore", 1700000000123, 1), "dingostore_1700000000123_1.data");
    assert_eq!(segment_path("p", 10, 25), "p_10_25.data");
}

#[test]
fn segment_path_writes_every_digit() {
    assert_eq!(segment_path("x", 1234567890, 0), "x_1234567890.data");
    assert_eq!(
        segment_path("x", u64::MAX, u64::MAX),
        "x_18446744073709551615_18446744073709551615.data"
    );
    assert_eq!(segment_path("x", 100, 0), format!("x_{}.data", 100));
}

#[test]
fn parse_segment_name_reads_back_what_segment_path_wrote() {
    for (stamp, counter) in
        [(0u64, 0u64), (7, 0), (10, 0), (1700000000123, 0), (5, 1), (5, 10), (u64::MAX, u64::MAX)]
    {
        let name = segment_path("dingostore", stamp, counter);
        assert_eq!(parse_segment_name("dingostore", &name), Some((stamp, counter)));
    }
}

#[test]
fn parse_segment_name_takes_the_prefix_literally() {
    assert_eq!(parse_segment_name("a_1", "a_1_5.data"), Some((5, 0)));
    assert_eq!(parse_segment_name("a", "a_1_5.data"), Some((1, 5)));
    assert_eq!(parse_segment_name("", "_3.data"), Some((3, 0)));
    assert_eq!(parse_segment_name("b", "a_1.data"), None);
    assert_eq!(parse_segment_name("abc", "ab_1.data"), None);
}

#[test]
fn parse_segment_name_rejects_other_names() {
    for name in [
        "",
        "p",
        "p_.data",
        "p_1",
        "p_1.dat",
        "p_1.datA",
        "p1.data",
        "p_x.data",
        "p_1x.data",
        "p_1_.data",
        "p_1__2.data",
        "p_1_2_3.data",
        "p_-1.data",
        "p_1.data.data",
        "p_ 1.data",
        "q_1.data",
    ] {
        assert_eq!(parse_segment_name("p", name), None, "{}", name);
    }
}

#[test]
fn parse_segment_name_wants_the_form_that_segment_path_writes() {
    // Leading zeros and a counter of zero are never written.
    assert_eq!(parse_segment_name("p", "p_01.data"), None);
    assert_eq!(parse_segment_name("p", "p_1_0.data"), None);
    assert_eq!(parse_segment_name("p", "p_1_02.data"), None);
    assert_eq!(parse_segment_name("p", "p_0.data"), Some((0, 0)));
    assert_eq!(parse_segment_name("p", "p_0_1.data"), Some((0, 1)));
}

#[test]
fn parse_segment_name_rejects_numbers_beyond_64_bits() {
    assert_eq!(parse_segment_name("p", "p_18446744073709551615.data"), Some((u64::MAX, 0)));
    assert_eq!(parse_segment_name("p", "p_18446744073709551616.data"), None);
    assert_eq!(parse_segment_name("p", "p_99999999999999999999999.data"), None);
    assert_eq!(parse_segment_name("p", "p_1_18446744073709551616.data"), None);
}

#[test]
fn parse_segment_name_handles_prefixes_beyond_ascii() {
    let name = segment_path("données", 12, 3);
    assert_eq!(name, "données_12_3.data");
    assert_eq!(parse_segment_name("données", &name), Some((12, 3)));
    assert_eq!(parse_segment_name("donnees", &name), None);
}

#[test]
fn segment_names_differ_where_stamp_or_counter_differ() {
    let ids = [(1u64, 0u64), (1, 1), (11, 0), (1, 11), (111, 0), (10, 1), (101, 0)];
    for a in ids {
        for b in ids {
            assert_eq!(segment_path("p", a.0, a.1) == segment_path("p", b.0, b.1), a == b);
        }
    }
}
