use mara::lsn::{Lsn, LsnParseError};

#[test]
fn display_matches_postgres_style() {
    let lsn = Lsn::new(0, 0x1A2B3C);
    assert_eq!(lsn.to_text(), "0/1A2B3C");
}

#[test]
fn round_trips_through_string() {
    let lsn = Lsn::new(7, 0xDEADBEEF);
    let s = lsn.to_text();
    let parsed: Lsn = s.parse().unwrap();
    assert_eq!(lsn, parsed);
}

#[test]
fn ordering_is_segment_major() {
    let a = Lsn::new(0, u32::MAX);
    let b = Lsn::new(1, 0);
    assert!(a < b, "segment boundary must order above any offset in the prior segment");
}

#[test]
fn rejects_malformed_strings() {
    assert!("not-an-lsn".parse::<Lsn>().is_err());
    assert!("zz/10".parse::<Lsn>().is_err());
    assert!("0/zz".parse::<Lsn>().is_err());
}

#[test]
fn round_trips_through_serde_json() {
    let lsn = Lsn::new(1, 42);
    let json = serde_json::to_string(&lsn.to_text()).unwrap();
    assert_eq!(json, "\"1/2A\"");
    let text: String = serde_json::from_str(&json).unwrap();
    assert_eq!(lsn, text.parse::<Lsn>().unwrap());
}

#[test]
fn each_part_has_its_own_error() {
    assert_eq!(Lsn::parse("1").err(), Some(LsnParseError::BadFormat("1".into())));
    assert_eq!(Lsn::parse("g/1").err(), Some(LsnParseError::BadSegment("g".into())));
    assert_eq!(Lsn::parse("1/100000000").err(), Some(LsnParseError::BadOffset("100000000".into())));
    assert_eq!(LsnParseError::BadFormat("1".into()).to_text(), "invalid LSN format \"1\", expected \"segment/offset\" hex");
    assert_eq!(LsnParseError::BadSegment("g".into()).to_text(), "invalid LSN segment hex \"g\"");
    assert_eq!(LsnParseError::BadOffset("".into()).to_text(), "invalid LSN offset hex \"\"");
}

#[test]
fn positions_split_into_segment_and_offset() {
    let lsn = Lsn::new(3, 9);
    assert_eq!((lsn.segment_id(), lsn.byte_offset()), (3, 9));
    assert_eq!(lsn.as_u64(), (3 << 32) + 9);
    assert_eq!(Lsn::from_u64(lsn.as_u64()), lsn);
    assert_eq!(Lsn::zero().to_text(), "0/0");
}
