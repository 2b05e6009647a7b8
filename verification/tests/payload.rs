use msg_dispatch::data_storage::DecodeError;
use msg_dispatch::geometry::AngleWrapping;
use msg_dispatch::payload::decode_pose;

fn decode(payload: &str) -> Result<(i64, i64, i64), DecodeError> {
    decode_pose(&payload.as_bytes().to_vec()).map(|p| (p.x, p.y, p.theta.value()))
}

#[test]
fn decodes_three_fields() {
    assert_eq!(decode("1;2;3"), Ok((1, 2, 3)));
    assert_eq!(decode("2000000;5000000;683565276"), Ok((2_000_000, 5_000_000, 683565276)));
}

#[test]
fn decodes_signs_and_zero() {
    assert_eq!(decode("-5;6;-7"), Ok((-5, 6, -7)));
    assert_eq!(decode("0;-0;0"), Ok((0, 0, 0)));
}

#[test]
fn heading_is_wrapped_into_half_turn_range() {
    let pose = decode_pose(&b"1;1;4294967297".to_vec()).expect("well-formed payload");
    assert_eq!(pose.theta.value(), 1);
    assert!(matches!(pose.theta.wrapping, AngleWrapping::PlusMinusPi));
    let pose = decode_pose(&b"0;0;2734261102".to_vec()).expect("well-formed payload");
    assert_eq!(pose.theta.value(), 2734261102 - 4294967296);
}

#[test]
fn malformed_payloads_are_rejected() {
    assert_eq!(decode(""), Err(DecodeError::Malformed));
    assert_eq!(decode("Hello"), Err(DecodeError::Malformed));
    assert_eq!(decode("1;2"), Err(DecodeError::Malformed));
    assert_eq!(decode("1;2;3;4"), Err(DecodeError::Malformed));
    assert_eq!(decode("a;2;3"), Err(DecodeError::Malformed));
    assert_eq!(decode("1;;3"), Err(DecodeError::Malformed));
    assert_eq!(decode("-;2;3"), Err(DecodeError::Malformed));
    assert_eq!(decode("1;2;3 "), Err(DecodeError::Malformed));
}

#[test]
fn sixty_four_bit_bounds_are_exact() {
    assert_eq!(decode("9223372036854775807;0;0"), Ok((i64::MAX, 0, 0)));
    assert_eq!(decode("-9223372036854775808;0;0"), Ok((i64::MIN, 0, 0)));
    assert_eq!(decode("9223372036854775808;0;0"), Err(DecodeError::OutOfRange));
    assert_eq!(decode("-9223372036854775809;0;0"), Err(DecodeError::OutOfRange));
    assert_eq!(decode("99999999999999999999;0;0"), Err(DecodeError::OutOfRange));
}

#[test]
fn malformed_shape_is_reported_before_field_range() {
    assert_eq!(decode("99999999999999999999;0"), Err(DecodeError::Malformed));
}
