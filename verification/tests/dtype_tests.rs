use micrograd_rs::dtype::DType;

#[test]
fn as_str_names_every_tag() {
    assert_eq!(DType::U8.as_str(), "u8");
    assert_eq!(DType::U16.as_str(), "u16");
    assert_eq!(DType::U32.as_str(), "u32");
    assert_eq!(DType::U64.as_str(), "u64");
    assert_eq!(DType::I8.as_str(), "i8");
    assert_eq!(DType::I16.as_str(), "i16");
    assert_eq!(DType::I32.as_str(), "i32");
    assert_eq!(DType::I64.as_str(), "i64");
    assert_eq!(DType::F16.as_str(), "f16");
    assert_eq!(DType::F32.as_str(), "f32");
    assert_eq!(DType::F64.as_str(), "f64");
}

#[test]
fn from_str_round_trips_every_tag() {
    let tags = [
        "u8", "u16", "u32", "u64", "i8", "i16", "i32", "i64", "f16", "f32", "f64",
    ];
    for tag in tags {
        let parsed = DType::from_str(tag).unwrap();
        assert_eq!(parsed.as_str(), tag);
    }
}

#[test]
fn from_str_rejects_unknown_tags() {
    for bad in ["", "u128", "f8", "int", "u 8", "U8", "x64"] {
        let err = DType::from_str(bad).unwrap_err();
        assert_eq!(err.text(), bad);
    }
}

#[test]
fn is_int_matches_its_exact_subset() {
    assert!(DType::U8.is_int());
    assert!(DType::U32.is_int());
    assert!(DType::I32.is_int());
    assert!(DType::I64.is_int());
    assert!(!DType::U16.is_int());
    assert!(!DType::U64.is_int());
    assert!(!DType::I8.is_int());
    assert!(!DType::I16.is_int());
    assert!(!DType::F32.is_int());
}

#[test]
fn is_float_matches_wide_floats_only() {
    assert!(DType::F32.is_float());
    assert!(DType::F64.is_float());
    assert!(!DType::F16.is_float());
    assert!(!DType::U8.is_float());
    assert!(!DType::I64.is_float());
}

#[test]
fn is_unsigned_and_is_signed_partition_integers() {
    for d in [DType::U8, DType::U16, DType::U32, DType::U64] {
        assert!(d.is_unsigned());
        assert!(!d.is_signed());
    }
    for d in [DType::I8, DType::I16, DType::I32, DType::I64] {
        assert!(d.is_signed());
        assert!(!d.is_unsigned());
    }
    assert!(!DType::F64.is_signed());
    assert!(!DType::F64.is_unsigned());
}
