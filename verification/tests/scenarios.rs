use asnfuzzgen::error::ErrorKind;
use asnfuzzgen::per::decode::per_decode;
use asnfuzzgen::per::encode::per_encode;
use asnfuzzgen::pipeline::{structure, structure_into};
use asnfuzzgen::schema::{Codec, EnumConstraint, IntegerConstraint, Schema, SizeConstraint};
use asnfuzzgen::value::Value;

#[test]
fn integer_0_255_value_200_is_one_octet_c8_unaligned() {
    let schema = Schema::Integer(IntegerConstraint::range(0, 255));
    let bytes = per_encode(&schema, &Value::Integer(200), Codec::Uper).unwrap();
    assert_eq!(bytes, vec![0xC8u8]);
    assert_eq!(per_decode(&schema, &[0xC8], Codec::Uper), Ok(Value::Integer(200)));
}

#[test]
fn integer_0_255_value_200_is_one_octet_c8_aligned() {
    let schema = Schema::Integer(IntegerConstraint::range(0, 255));
    let bytes = per_encode(&schema, &Value::Integer(200), Codec::Aper).unwrap();
    assert_eq!(bytes, vec![0xC8u8]);
    assert_eq!(per_decode(&schema, &[0xC8], Codec::Aper), Ok(Value::Integer(200)));
}

#[test]
fn enumerated_three_roots_index_one_is_two_bits_01() {
    let schema = Schema::Enumerated(EnumConstraint {
        root_values: vec![0, 1, 2],
        ext_marker_index: None,
        ext_values: vec![],
    });
    let bytes = per_encode(&schema, &Value::Enumerated(1), Codec::Uper).unwrap();
    assert_eq!(bytes, vec![0b0100_0000u8]);
    assert_eq!(per_decode(&schema, &bytes, Codec::Uper), Ok(Value::Enumerated(1)));
}

#[test]
fn object_identifier_is_refused_both_ways() {
    let schema = Schema::ObjectIdentifier;
    assert_eq!(per_encode(&schema, &Value::ObjectIdentifier, Codec::Aper), Err(ErrorKind::Encoding));
    assert_eq!(per_encode(&schema, &Value::ObjectIdentifier, Codec::Uper), Err(ErrorKind::Encoding));
    assert_eq!(per_decode(&schema, &[0, 0, 0], Codec::Aper), Err(ErrorKind::Encoding));
    assert_eq!(per_decode(&schema, &[], Codec::Uper), Err(ErrorKind::Encoding));
}

#[test]
fn structure_of_no_input_into_no_room_is_entropic_where_a_field_cannot_be_read() {
    let schema = Schema::Sequence {
        fields: vec![Schema::OctetString(SizeConstraint::range(250_000, 250_000))],
    };
    assert_eq!(structure(&schema, Codec::Uper, &[], 0), Err(ErrorKind::Entropic));
    let mut out: Vec<u8> = Vec::new();
    assert_eq!(structure_into(&schema, Codec::Uper, &[], 0, &mut out, 0), -2);
}
