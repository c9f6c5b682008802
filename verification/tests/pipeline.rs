use asnfuzzgen::error::ErrorKind;
use asnfuzzgen::pipeline::{
    cap_entropy, destructure, destructure_into, structure, structure_into, ENTROPY_CAP,
    STAGING_CAPACITY,
};
use asnfuzzgen::per::encode::per_encode;
use asnfuzzgen::schema::{Codec, IntegerConstraint, Schema, SizeConstraint};
use asnfuzzgen::value::Value;

fn byte() -> Schema {
    Schema::Integer(IntegerConstraint::range(0, 255))
}

fn record() -> Schema {
    Schema::Sequence {
        fields: vec![
            Schema::Boolean,
            Schema::SequenceOf { size: SizeConstraint::range(0, 3), element: Box::new(byte()) },
        ],
    }
}

#[test]
fn error_codes_are_frozen() {
    assert_eq!(ErrorKind::Args.code(), -1);
    assert_eq!(ErrorKind::Entropic.code(), -2);
    assert_eq!(ErrorKind::Encoding.code(), -3);
    assert_eq!(ErrorKind::Truncated.code(), -4);
    assert_eq!(ErrorKind::from_code(-1), Some(ErrorKind::Args));
    assert_eq!(ErrorKind::from_code(-2), Some(ErrorKind::Entropic));
    assert_eq!(ErrorKind::from_code(-3), Some(ErrorKind::Encoding));
    assert_eq!(ErrorKind::from_code(-4), Some(ErrorKind::Truncated));
    assert_eq!(ErrorKind::from_code(0), None);
    assert_eq!(ErrorKind::from_code(-5), None);
    assert_eq!(ErrorKind::from_code(1), None);
}

#[test]
fn caps_are_as_documented() {
    assert_eq!(ENTROPY_CAP, 200_000);
    assert_eq!(STAGING_CAPACITY, 2_000_000);
}

#[test]
fn entropy_is_filled_up_or_cut_to_the_cap() {
    let short = cap_entropy(&[1, 2, 3]);
    assert_eq!(short.len(), 200_000);
    assert_eq!(&short[..4], &[1, 2, 3, 0]);
    assert!(short[3..].iter().all(|b| *b == 0));
    let long = cap_entropy(&vec![7u8; 200_005]);
    assert_eq!(long.len(), 200_000);
    assert!(long.iter().all(|b| *b == 7));
    assert_eq!(cap_entropy(&[]), vec![0u8; 200_000]);
}

#[test]
fn structure_generates_and_encodes() {
    assert_eq!(structure(&byte(), Codec::Uper, &[200], 10), Ok(vec![0xC8]));
    assert_eq!(structure(&byte(), Codec::Aper, &[200, 1, 2], 1), Ok(vec![0xC8]));
    assert_eq!(structure(&record(), Codec::Uper, &[1, 2, 10, 20], 10), Ok(vec![0xC1, 0x42, 0x80]));
    assert_eq!(structure(&record(), Codec::Aper, &[1, 2, 10, 20], 10), Ok(vec![0xC1, 0x42, 0x80]));
}

#[test]
fn structure_of_no_input_reads_zero_octets() {
    assert_eq!(structure(&byte(), Codec::Uper, &[], 10), Ok(vec![0x00]));
    assert_eq!(structure(&record(), Codec::Uper, &[], 10), Ok(vec![0x00]));
    assert_eq!(structure(&Schema::Null, Codec::Uper, &[], 0), Ok(vec![]));
}

#[test]
fn structure_that_does_not_fit_is_truncated() {
    assert_eq!(structure(&byte(), Codec::Uper, &[200], 0), Err(ErrorKind::Truncated));
    assert_eq!(structure(&record(), Codec::Uper, &[1, 2, 10, 20], 2), Err(ErrorKind::Truncated));
}

#[test]
fn structure_without_enough_entropy_is_entropic_whatever_the_capacity() {
    let huge = Schema::OctetString(SizeConstraint::range(200_001, 200_001));
    assert_eq!(structure(&huge, Codec::Uper, &[], 0), Err(ErrorKind::Entropic));
    assert_eq!(structure(&huge, Codec::Uper, &[], 1_000_000), Err(ErrorKind::Entropic));
    assert_eq!(structure(&huge, Codec::Aper, &vec![1u8; 300_000], 1_000_000), Err(ErrorKind::Entropic));
    let mut out: Vec<u8> = Vec::new();
    assert_eq!(structure_into(&huge, Codec::Aper, &[], 0, &mut out, 0), -2);
}

#[test]
fn structure_reads_no_more_than_the_cap() {
    let full = Schema::OctetString(SizeConstraint::range(200_000, 200_000));
    let mut input = vec![5u8; 200_000];
    let within = structure(&full, Codec::Uper, &input, 1_000_000).unwrap();
    assert_eq!(within, vec![5u8; 200_000]);
    input.extend_from_slice(&[9, 9, 9]);
    assert_eq!(structure(&full, Codec::Uper, &input, 1_000_000), Ok(within));
    let padded = structure(&full, Codec::Uper, &[5u8; 10], 1_000_000).unwrap();
    assert_eq!(&padded[..11], &[5, 5, 5, 5, 5, 5, 5, 5, 5, 5, 0]);
}

#[test]
fn structure_is_deterministic() {
    let input: Vec<u8> = (0..64u32).map(|i| (i * 91 % 256) as u8).collect();
    for codec in [Codec::Aper, Codec::Uper] {
        let first = structure(&record(), codec, &input, 100);
        assert_eq!(first, structure(&record(), codec, &input, 100));
        let mut padded = input.clone();
        padded.extend_from_slice(&[0; 100]);
        assert_eq!(first, structure(&record(), codec, &padded, 100));
    }
}

#[test]
fn structure_of_an_object_identifier_fails_in_encoding() {
    let schema = Schema::Sequence { fields: vec![byte(), Schema::ObjectIdentifier] };
    assert_eq!(structure(&schema, Codec::Aper, &[1], 100), Err(ErrorKind::Encoding));
    assert_eq!(structure(&schema, Codec::Uper, &[], 0), Err(ErrorKind::Encoding));
    assert_eq!(destructure(&schema, Codec::Uper, &[1, 2, 3], 100), Err(ErrorKind::Encoding));
}

#[test]
fn destructure_decodes_and_flattens() {
    assert_eq!(destructure(&byte(), Codec::Uper, &[0xC8], 10), Ok(vec![200]));
    assert_eq!(destructure(&record(), Codec::Uper, &[0xC1, 0x42, 0x80], 10), Ok(vec![1, 2, 10, 20]));
    assert_eq!(destructure(&record(), Codec::Uper, &[0xC1, 0x42, 0x80], 3), Err(ErrorKind::Truncated));
    assert_eq!(destructure(&record(), Codec::Uper, &[0xC1], 10), Err(ErrorKind::Encoding));
    assert_eq!(destructure(&byte(), Codec::Aper, &[], 10), Err(ErrorKind::Encoding));
}

#[test]
fn destructure_undoes_structure() {
    let input = [1u8, 3, 7, 8, 9];
    for codec in [Codec::Aper, Codec::Uper] {
        let wire = structure(&record(), codec, &input, 100).unwrap();
        assert_eq!(destructure(&record(), codec, &wire, 100), Ok(input.to_vec()));
        let again = structure(&record(), codec, &input, 100).unwrap();
        assert_eq!(wire, again);
    }
}

#[test]
fn boundary_call_writes_at_the_start_of_the_buffer() {
    let mut out = vec![0xEEu8; 4];
    assert_eq!(structure_into(&record(), Codec::Uper, &[1, 2, 10, 20, 99], 4, &mut out, 3), 3);
    assert_eq!(out, vec![0xC1, 0x42, 0x80, 0xEE]);
    let mut back = vec![0u8; 8];
    assert_eq!(destructure_into(&record(), Codec::Uper, &out, 3, &mut back, 8), 4);
    assert_eq!(back, vec![1, 2, 10, 20, 0, 0, 0, 0]);
}

#[test]
fn boundary_call_refuses_bad_lengths() {
    let mut out = vec![0xEEu8; 4];
    assert_eq!(structure_into(&byte(), Codec::Uper, &[1], -1, &mut out, 4), -1);
    assert_eq!(structure_into(&byte(), Codec::Uper, &[1], 1, &mut out, -1), -1);
    assert_eq!(structure_into(&byte(), Codec::Uper, &[1], 2, &mut out, 4), -1);
    assert_eq!(structure_into(&byte(), Codec::Uper, &[1], 1, &mut out, 5), -1);
    assert_eq!(destructure_into(&byte(), Codec::Uper, &[1], isize::MIN, &mut out, 4), -1);
    assert_eq!(destructure_into(&byte(), Codec::Uper, &[1], 1, &mut out, isize::MAX), -1);
    assert_eq!(out, vec![0xEE; 4]);
}

#[test]
fn boundary_call_reports_the_error_codes() {
    let mut out = vec![0xEEu8; 2];
    assert_eq!(structure_into(&byte(), Codec::Uper, &[1], 1, &mut out, 0), -4);
    assert_eq!(structure_into(&Schema::ObjectIdentifier, Codec::Uper, &[1], 1, &mut out, 2), -3);
    assert_eq!(destructure_into(&byte(), Codec::Uper, &[1], 0, &mut out, 2), -3);
    assert_eq!(destructure_into(&byte(), Codec::Uper, &[1], 1, &mut out, 0), -4);
    let none = Schema::Integer(IntegerConstraint::range(1, 0));
    assert_eq!(structure_into(&none, Codec::Uper, &[1], 1, &mut out, 2), -2);
    assert_eq!(out, vec![0xEE; 2]);
}

#[test]
fn staging_capacity_bounds_the_entropy() {
    let fixed = Schema::SequenceOf {
        size: SizeConstraint::range(0, 300_000),
        element: Box::new(Schema::Integer(IntegerConstraint::range(0, 0))),
    };
    let value = Value::SequenceOf((0..250_001).map(|_| Value::Integer(0)).collect());
    let wire = per_encode(&fixed, &value, Codec::Uper).unwrap();
    assert_eq!(wire.len(), 3);
    assert_eq!(destructure(&fixed, Codec::Uper, &wire, 10), Ok(vec![0x03, 0xD0, 0x91]));
    let wide = Schema::SequenceOf {
        size: SizeConstraint::range(0, 300_000),
        element: Box::new(Schema::Integer(IntegerConstraint::unconstrained())),
    };
    let wire = per_encode(&wide, &value, Codec::Uper).unwrap();
    assert_eq!(destructure(&wide, Codec::Uper, &wire, 10_000_000), Err(ErrorKind::Entropic));
    let fewer = Value::SequenceOf((0..249_999).map(|_| Value::Integer(0)).collect());
    let wire = per_encode(&wide, &fewer, Codec::Uper).unwrap();
    assert_eq!(destructure(&wide, Codec::Uper, &wire, 10_000_000).map(|e| e.len()), Ok(1_999_995));
}
