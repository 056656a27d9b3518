use achan::Value;

fn bits(v: &Value) -> u64 {
    v.as_number().unwrap()
}

#[test]
fn integer_beyond_2_53_loses_precision() {
    let n: u64 = (1u64 << 53) + 1;
    let v = Value::from(n);
    assert_eq!(bits(&v), 9007199254740992f64.to_bits());
    assert_eq!(f64::from_bits(bits(&v)), 9007199254740992.0);
    assert_ne!(f64::from_bits(bits(&v)) as u64, n);
}

#[test]
fn integers_up_to_2_53_are_exact() {
    for n in [0u64, 1, 2, 3, 7, 255, 1000, 123456789, (1u64 << 52) + 1, (1u64 << 53) - 1, 1u64 << 53] {
        let v = Value::from(n);
        assert_eq!(bits(&v), (n as f64).to_bits(), "{}", n);
        assert_eq!(f64::from_bits(bits(&v)) as u64, n);
    }
}

#[test]
fn u64_conversion_matches_nearest_double() {
    let cases = [
        (1u64 << 53) + 2,
        (1u64 << 53) + 3,
        (1u64 << 54) + 2,
        (1u64 << 54) + 6,
        u64::MAX,
        u64::MAX - 1024,
        u64::MAX - 1025,
        0x8000_0000_0000_0400,
        0x8000_0000_0000_0c00,
        0x1234_5678_9abc_def1,
    ];
    for n in cases {
        assert_eq!(bits(&Value::from(n)), (n as f64).to_bits(), "{}", n);
    }
}

#[test]
fn signed_conversion_matches_nearest_double() {
    for n in [0i64, -1, 1, -2, i64::MIN, i64::MAX, -(1i64 << 53) - 1, -123456789] {
        assert_eq!(bits(&Value::from(n)), (n as f64).to_bits(), "{}", n);
    }
    assert_eq!(bits(&Value::from(-5i32)), (-5.0f64).to_bits());
    assert_eq!(bits(&Value::from(i32::MIN)), (i32::MIN as f64).to_bits());
    assert_eq!(bits(&Value::from(-128i8)), (-128.0f64).to_bits());
    assert_eq!(bits(&Value::from(i16::MAX)), (i16::MAX as f64).to_bits());
    assert_eq!(bits(&Value::from(-3isize)), (-3.0f64).to_bits());
}

#[test]
fn small_unsigned_conversions() {
    assert_eq!(bits(&Value::from(200u8)), 200.0f64.to_bits());
    assert_eq!(bits(&Value::from(65535u16)), 65535.0f64.to_bits());
    assert_eq!(bits(&Value::from(u32::MAX)), (u32::MAX as f64).to_bits());
    assert_eq!(bits(&Value::from(42usize)), 42.0f64.to_bits());
}

#[test]
fn other_conversions() {
    assert!(Value::from(()).is_null());
    assert_eq!(Value::from(true).as_boolean(), Some(true));
    assert_eq!(Value::from("s".to_string()).as_str(), Some("s"));
    let l = Value::from(vec![Value::from(1u8), Value::from(2u8)]);
    assert_eq!(l.as_slice().unwrap().len(), 2);
    assert_eq!(
        l.render_with(|b: u64| f64::from_bits(b).to_string()),
        r#"["1","2",]"#
    );
}
