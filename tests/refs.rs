use wikt::error::StoreError;
use wikt::refid::Ref;

#[test]
fn ref_parse_and_u64_round_trip() {
    let r = Ref::from_str("42/7").unwrap();
    let x = r.as_u64();
    assert_eq!(x, 42 + (7u64 << 32));
    let back = Ref::from_u64(x);
    assert_eq!((back.block_id, back.entry_id), (42, 7));
}

#[test]
fn ref_u64_layout_is_little_endian() {
    let r = Ref::new(0x0403_0201, 0x0807_0605);
    assert_eq!(r.as_u64().to_le_bytes(), [1, 2, 3, 4, 5, 6, 7, 8]);
}

#[test]
fn ref_extremes_round_trip() {
    for (b, e) in [(0u32, 0u32), (u32::MAX, 0), (0, u32::MAX), (u32::MAX, u32::MAX)] {
        let r = Ref::new(b, e);
        assert_eq!(Ref::from_u64(r.as_u64()), r);
        assert_eq!(Ref::from_str(&r.to_string()).unwrap(), r);
    }
}

#[test]
fn ref_text_form() {
    assert_eq!(Ref::new(12, 0).to_string(), "12/0");
}

#[test]
fn ref_parse_errors() {
    assert_eq!(Ref::from_str("42").unwrap_err(), StoreError::BadRef);
    assert_eq!(Ref::from_str("a/1").unwrap_err(), StoreError::BadRef);
    assert_eq!(Ref::from_str("1/2/3").unwrap_err(), StoreError::BadRef);
    assert_eq!(Ref::from_str("4294967296/1").unwrap_err(), StoreError::BadRef);
    assert_eq!(Ref::from_str("/1").unwrap_err(), StoreError::BadRef);
    assert_eq!(Ref::from_str("+3/4").unwrap(), Ref::new(3, 4));
}

#[test]
fn ref_text_of_large_numbers() {
    assert_eq!(Ref::new(4294967295, 1000000007).to_string(), "4294967295/1000000007");
    assert_eq!(Ref::new(9, 10).to_string(), "9/10");
}
