use wal_db::Lsn;

#[test]
fn test_lsn_get_roundtrips_value() {
    assert_eq!(Lsn::new(0).get(), 0);
    assert_eq!(Lsn::new(u64::MAX).get(), u64::MAX);
}

#[test]
fn test_lsn_ordering_is_numeric() {
    assert!(Lsn::new(0) < Lsn::new(1));
    assert!(Lsn::new(100) > Lsn::new(99));
    assert_eq!(Lsn::new(5), Lsn::new(5));
}

#[test]
fn test_lsn_converts_to_u64() {
    assert_eq!(u64::from(Lsn::new(123)), 123);
}

#[test]
fn test_lsn_display_is_the_number() {
    assert_eq!(Lsn::new(42).to_string(), "42");
}

#[test]
fn lsn_displays_the_extremes() {
    assert_eq!(Lsn::new(0).to_string(), "0");
    assert_eq!(Lsn::new(u64::MAX).to_string(), "18446744073709551615");
    assert_eq!(Lsn::new(1_000_000).to_string(), "1000000");
}

#[test]
fn lsns_compare_and_sort_by_value() {
    assert_eq!(Lsn::new(3).partial_cmp(&Lsn::new(7)), Some(std::cmp::Ordering::Less));
    assert_eq!(Lsn::new(7).partial_cmp(&Lsn::new(7)), Some(std::cmp::Ordering::Equal));
    assert_eq!(Lsn::new(9).cmp(&Lsn::new(7)), std::cmp::Ordering::Greater);
    let mut lsns = vec![Lsn::new(9), Lsn::new(u64::MAX), Lsn::new(0)];
    lsns.sort();
    assert_eq!(lsns, vec![Lsn::new(0), Lsn::new(9), Lsn::new(u64::MAX)]);
}
