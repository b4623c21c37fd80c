use eye::consts::{
    apply_binary, apply_cast, apply_int, apply_unary, const_range_error, folded_array_len, int_range,
    int_type_range, literal_array_len, parse_int_literal, wrap_int, BinOp, ConstValue, UnaryOp,
};
use eye::errors::ConstError;

#[test]
fn integer_arithmetic_wraps() {
    assert_eq!(apply_int(BinOp::Add, i128::MAX, 1), Ok(ConstValue::Int(i128::MIN)));
    assert_eq!(apply_int(BinOp::Sub, 5, 7), Ok(ConstValue::Int(-2)));
    assert_eq!(apply_int(BinOp::Mul, 6, 7), Ok(ConstValue::Int(42)));
}

#[test]
fn division_truncates_toward_zero() {
    assert_eq!(apply_int(BinOp::Div, -7, 2), Ok(ConstValue::Int(-3)));
    assert_eq!(apply_int(BinOp::Rem, -7, 2), Ok(ConstValue::Int(-1)));
    assert_eq!(apply_int(BinOp::Div, 7, -2), Ok(ConstValue::Int(-3)));
    assert_eq!(apply_int(BinOp::Rem, 7, -2), Ok(ConstValue::Int(1)));
    assert_eq!(apply_int(BinOp::Div, i128::MIN, -1), Ok(ConstValue::Int(i128::MIN)));
    assert_eq!(apply_int(BinOp::Rem, i128::MIN, -1), Ok(ConstValue::Int(0)));
}

#[test]
fn division_by_zero_is_an_error() {
    assert_eq!(apply_int(BinOp::Div, 1, 0), Err(ConstError::ConstDivByZero));
    assert_eq!(apply_int(BinOp::Rem, 1, 0), Err(ConstError::ConstDivByZero));
}

#[test]
fn bitwise_shift_and_comparison() {
    assert_eq!(apply_int(BinOp::BitAnd, 12, 10), Ok(ConstValue::Int(8)));
    assert_eq!(apply_int(BinOp::BitOr, 12, 10), Ok(ConstValue::Int(14)));
    assert_eq!(apply_int(BinOp::BitXor, 12, 10), Ok(ConstValue::Int(6)));
    assert_eq!(apply_int(BinOp::Shl, 1, 4), Ok(ConstValue::Int(16)));
    assert_eq!(apply_int(BinOp::Shr, -16, 2), Ok(ConstValue::Int(-4)));
    assert_eq!(apply_int(BinOp::Lt, 1, 2), Ok(ConstValue::Bool(true)));
    assert_eq!(apply_int(BinOp::Geq, 1, 2), Ok(ConstValue::Bool(false)));
    assert_eq!(apply_int(BinOp::And, 1, 2), Err(ConstError::NotAConstExpr));
}

#[test]
fn unary_operators() {
    assert_eq!(apply_unary(UnaryOp::Neg, ConstValue::Int(5)), Ok(ConstValue::Int(-5)));
    assert_eq!(apply_unary(UnaryOp::BitNot, ConstValue::Int(0)), Ok(ConstValue::Int(-1)));
    assert_eq!(apply_unary(UnaryOp::Not, ConstValue::Bool(true)), Ok(ConstValue::Bool(false)));
    assert_eq!(apply_unary(UnaryOp::Not, ConstValue::Int(1)), Err(ConstError::NotAConstExpr));
}

#[test]
fn binary_operators_on_bools_and_chars() {
    let t = ConstValue::Bool(true);
    let f = ConstValue::Bool(false);
    assert_eq!(apply_binary(BinOp::And, t, f), Ok(ConstValue::Bool(false)));
    assert_eq!(apply_binary(BinOp::Or, t, f), Ok(ConstValue::Bool(true)));
    assert_eq!(apply_binary(BinOp::Add, t, f), Err(ConstError::NotAConstExpr));
    assert_eq!(
        apply_binary(BinOp::Lt, ConstValue::Char('a'), ConstValue::Char('b')),
        Ok(ConstValue::Bool(true))
    );
    assert_eq!(
        apply_binary(BinOp::Add, ConstValue::Int(1), ConstValue::Bool(true)),
        Err(ConstError::NotAConstExpr)
    );
}

#[test]
fn casts_truncate_to_integer_width() {
    assert_eq!(wrap_int(200, "int8"), -56);
    assert_eq!(wrap_int(-1, "uint8"), 255);
    assert_eq!(wrap_int(-1, "usize"), u64::MAX as i128);
    assert_eq!(wrap_int(1 << 40, "int32"), 0);
    assert_eq!(wrap_int(300, "Point"), 300);
    assert_eq!(apply_cast(ConstValue::Int(200), Some("int8")), Some(ConstValue::Int(-56)));
    assert_eq!(apply_cast(ConstValue::Char('A'), Some("uint8")), Some(ConstValue::Int(65)));
    assert_eq!(apply_cast(ConstValue::Bool(true), Some("int32")), Some(ConstValue::Int(1)));
    assert_eq!(apply_cast(ConstValue::Int(3), None), Some(ConstValue::Int(3)));
    assert_eq!(apply_cast(ConstValue::Int(3), Some("float64")), None);
    assert_eq!(apply_cast(ConstValue::Char('A'), Some("char")), Some(ConstValue::Char('A')));
}

#[test]
fn integer_ranges() {
    assert_eq!(int_range("int8"), Some((-128, 127)));
    assert_eq!(int_range("uint16"), Some((0, 65535)));
    assert_eq!(int_range("isize"), Some((i64::MIN as i128, i64::MAX as i128)));
    assert_eq!(int_range("bool"), None);
    assert_eq!(int_type_range("int8"), Some((128, 127)));
    assert_eq!(int_type_range("uint64"), Some((0, u64::MAX as u128)));
}

#[test]
fn const_value_out_of_range_is_diagnosed() {
    let e = const_range_error(Some(ConstValue::Int(300)), Some("uint8"));
    assert_eq!(
        e,
        Some(ConstError::ConstValueOutOfRange {
            value: "300".to_string(),
            ty: "uint8".to_string(),
            min: "0".to_string(),
            max: "255".to_string(),
        })
    );
    let e = const_range_error(Some(ConstValue::Int(-129)), Some("int8"));
    assert!(matches!(e, Some(ConstError::ConstValueOutOfRange { ref value, ref min, .. }) if value == "-129" && min == "-128"));
    assert_eq!(const_range_error(Some(ConstValue::Int(255)), Some("uint8")), None);
    assert_eq!(const_range_error(Some(ConstValue::Bool(true)), Some("uint8")), None);
    assert_eq!(const_range_error(None, Some("uint8")), None);
    assert_eq!(const_range_error(Some(ConstValue::Int(1000)), None), None);
}

#[test]
fn integer_literals_parse_in_each_radix() {
    assert_eq!(parse_int_literal("42"), Some(42));
    assert_eq!(parse_int_literal("0x2A"), Some(42));
    assert_eq!(parse_int_literal("0Xff"), Some(255));
    assert_eq!(parse_int_literal("0b101"), Some(5));
    assert_eq!(parse_int_literal("0o17"), Some(15));
    assert_eq!(parse_int_literal("1_000"), None);
    assert_eq!(parse_int_literal("+5"), Some(5));
    assert_eq!(parse_int_literal("0x"), None);
    assert_eq!(parse_int_literal("12a"), None);
    assert_eq!(parse_int_literal("340282366920938463463374607431768211455"), Some(u128::MAX));
    assert_eq!(parse_int_literal("340282366920938463463374607431768211456"), None);
}

#[test]
fn wrapped_values_stay_in_their_type_range() {
    for name in ["int8", "int16", "int32", "int64", "uint8", "uint16", "uint32", "uint64", "usize", "isize"] {
        let (lo, hi) = int_range(name).unwrap();
        for v in [i128::MIN, -70000, -129, -1, 0, 1, 255, 256, 70000, 1 << 40, i128::MAX] {
            let w = wrap_int(v, name);
            assert!(lo <= w && w <= hi, "{name} {v} -> {w}");
        }
    }
}

#[test]
fn array_lengths_from_literals_and_folded_values() {
    assert_eq!(literal_array_len("3"), Ok(3));
    assert_eq!(literal_array_len("0x10"), Ok(16));
    assert_eq!(literal_array_len("0"), Err(ConstError::ArrayLenZero));
    assert_eq!(literal_array_len("18446744073709551616"), Err(ConstError::ArrayLenTooLarge));
    assert_eq!(literal_array_len("18446744073709551615"), Ok(u64::MAX));
    assert_eq!(literal_array_len("9z"), Err(ConstError::ArrayLenTooLarge));
    assert_eq!(folded_array_len(ConstValue::Int(4)), Ok(4));
    assert_eq!(folded_array_len(ConstValue::Int(0)), Err(ConstError::ArrayLenZero));
    assert_eq!(folded_array_len(ConstValue::Int(-1)), Err(ConstError::ArrayLenNotInteger));
    assert_eq!(folded_array_len(ConstValue::Int(1 << 64)), Err(ConstError::ArrayLenTooLarge));
    assert_eq!(folded_array_len(ConstValue::Bool(true)), Err(ConstError::ArrayLenNotInteger));
}

#[test]
fn only_integer_paths_have_an_integer_type_name() {
    let mut t = eye::types::TypeInterner::new();
    let i8t = t.intern(eye::types::TypeKind::Path("int8".to_string()));
    let f = t.intern(eye::types::TypeKind::Path("float32".to_string()));
    let r = t.intern(eye::types::TypeKind::Ref(i8t));
    assert_eq!(eye::consts::int_type_name(i8t, &t), Some("int8".to_string()));
    assert_eq!(eye::consts::int_type_name(t.usize_ty(), &t), Some("usize".to_string()));
    assert_eq!(eye::consts::int_type_name(f, &t), None);
    assert_eq!(eye::consts::int_type_name(r, &t), None);
}

#[test]
fn printed_numbers_read_back() {
    for n in [0u128, 1, 7, 10, 255, 4096, 123456789, u64::MAX as u128, u128::MAX] {
        assert_eq!(eye::consts::parse_int_literal(&n.to_string()), Some(n));
        assert_eq!(eye::consts::parse_int_literal(&format!("0x{n:x}")), Some(n));
        assert_eq!(eye::consts::parse_int_literal(&format!("0b{n:b}")), Some(n));
        assert_eq!(eye::consts::parse_int_literal(&format!("0o{n:o}")), Some(n));
    }
}

#[test]
fn wrapping_keeps_the_low_bits() {
    let cases: [(&str, i128); 8] = [
        ("int8", 1 << 8),
        ("uint8", 1 << 8),
        ("int16", 1 << 16),
        ("uint16", 1 << 16),
        ("int32", 1 << 32),
        ("uint32", 1 << 32),
        ("int64", 1 << 64),
        ("usize", 1 << 64),
    ];
    for (name, m) in cases {
        for v in [0i128, 1, -1, 200, -200, 300, 70000, -70000, 5_000_000_000, i128::MAX, i128::MIN] {
            let w = eye::consts::wrap_int(v, name);
            assert_eq!((w.wrapping_sub(v)).rem_euclid(m), 0, "{name} {v}");
        }
    }
    assert_eq!(eye::consts::wrap_int(300, "int8"), 44);
}
