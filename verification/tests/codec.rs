use asnfuzzgen::error::ErrorKind;
use asnfuzzgen::per::decode::{
    decode_bool, decode_general_length, decode_integer, decode_length_determinant, decode_null,
    decode_octetstring, decode_semi_constrained, decode_small_number, decode_unconstrained,
    per_decode,
};
use asnfuzzgen::per::encode::{
    encode_bitstring, encode_bool, encode_enumerated, encode_general_length, encode_integer,
    encode_length_determinant, encode_null, encode_object_identifier, encode_octetstring,
    encode_semi_constrained, encode_small_number, encode_unconstrained, per_encode,
};
use asnfuzzgen::schema::{Codec, EnumConstraint, IntegerConstraint, Schema, SizeConstraint};
use asnfuzzgen::value::Value;
use asnfuzzgen::wire::WireBuffer;

fn both() -> [Codec; 2] {
    [Codec::Aper, Codec::Uper]
}

fn roundtrip(schema: &Schema, value: Value) {
    for codec in both() {
        let bytes = per_encode(schema, &value, codec).unwrap();
        assert_eq!(per_decode(schema, &bytes, codec).as_ref(), Ok(&value));
        let mut longer = bytes.clone();
        longer.extend_from_slice(&[0xFF, 0x00, 0xA5]);
        assert_eq!(per_decode(schema, &longer, codec).as_ref(), Ok(&value));
    }
}

fn extensible_range(lb: i64, ub: i64) -> IntegerConstraint {
    IntegerConstraint { lower_bound: Some(lb), upper_bound: Some(ub), extensible: true }
}

fn colours() -> EnumConstraint {
    EnumConstraint { root_values: vec![0, 1], ext_marker_index: Some(2), ext_values: vec![5] }
}

#[test]
fn boolean_is_one_bit() {
    for codec in both() {
        assert_eq!(per_encode(&Schema::Boolean, &Value::Boolean(true), codec), Ok(vec![0x80]));
        assert_eq!(per_encode(&Schema::Boolean, &Value::Boolean(false), codec), Ok(vec![0x00]));
        assert_eq!(per_decode(&Schema::Boolean, &[0x80], codec), Ok(Value::Boolean(true)));
        assert_eq!(per_decode(&Schema::Boolean, &[0x7F], codec), Ok(Value::Boolean(false)));
        assert_eq!(per_decode(&Schema::Boolean, &[], codec), Err(ErrorKind::Encoding));
    }
}

#[test]
fn null_takes_no_bits() {
    for codec in both() {
        assert_eq!(per_encode(&Schema::Null, &Value::Null, codec), Ok(vec![]));
        assert_eq!(per_decode(&Schema::Null, &[], codec), Ok(Value::Null));
    }
    let mut buf = WireBuffer::new(true);
    encode_null(&mut buf);
    decode_null(&mut buf);
    assert_eq!(buf.into_bytes(), Vec::<u8>::new());
}

#[test]
fn constrained_integer_takes_the_bits_of_its_range() {
    let c = IntegerConstraint::range(10, 13);
    let mut buf = WireBuffer::new(true);
    assert_eq!(encode_integer(&mut buf, &c, 12), Ok(()));
    assert_eq!(buf.position(), (0, 2));
    assert_eq!(buf.into_bytes(), vec![0b1000_0000]);
    let mut buf = WireBuffer::from_bytes(&[0b1000_0000], true);
    assert_eq!(decode_integer(&mut buf, &c), Ok(12));
    assert_eq!(buf.position(), (0, 2));
}

#[test]
fn integer_with_one_value_takes_no_bits() {
    let c = IntegerConstraint::range(7, 7);
    let mut buf = WireBuffer::new(false);
    assert_eq!(encode_integer(&mut buf, &c, 7), Ok(()));
    assert_eq!(buf.position(), (0, 0));
    let mut buf = WireBuffer::from_bytes(&[], false);
    assert_eq!(decode_integer(&mut buf, &c), Ok(7));
}

#[test]
fn widths_of_some_ranges() {
    for (ub, bits) in [(0i64, 0u8), (1, 1), (2, 2), (3, 2), (4, 3), (255, 8), (256, 9), (65535, 16)] {
        let mut buf = WireBuffer::new(false);
        assert_eq!(encode_integer(&mut buf, &IntegerConstraint::range(0, ub), ub), Ok(()));
        let (octets, offset) = buf.position();
        assert_eq!(octets * 8 + offset as usize, bits as usize);
    }
}

#[test]
fn integer_over_the_whole_range_takes_sixty_four_bits() {
    let schema = Schema::Integer(IntegerConstraint::range(i64::MIN, i64::MAX));
    assert_eq!(per_encode(&schema, &Value::Integer(i64::MIN), Codec::Uper), Ok(vec![0; 8]));
    assert_eq!(per_encode(&schema, &Value::Integer(i64::MAX), Codec::Uper), Ok(vec![0xFF; 8]));
    assert_eq!(
        per_encode(&schema, &Value::Integer(0), Codec::Aper),
        Ok(vec![0x80, 0, 0, 0, 0, 0, 0, 0])
    );
    roundtrip(&schema, Value::Integer(-1));
}

#[test]
fn integer_outside_its_bounds_is_refused() {
    let schema = Schema::Integer(IntegerConstraint::range(0, 255));
    for codec in both() {
        assert_eq!(per_encode(&schema, &Value::Integer(256), codec), Err(ErrorKind::Encoding));
        assert_eq!(per_encode(&schema, &Value::Integer(-1), codec), Err(ErrorKind::Encoding));
    }
    let mut buf = WireBuffer::new(false);
    assert_eq!(encode_integer(&mut buf, &IntegerConstraint::range(0, 255), 300), Err(ErrorKind::Encoding));
    assert_eq!(buf.position(), (0, 0));
}

#[test]
fn decoded_offset_beyond_the_range_is_refused() {
    let schema = Schema::Integer(IntegerConstraint::range(0, 2));
    assert_eq!(per_decode(&schema, &[0b1100_0000], Codec::Uper), Err(ErrorKind::Encoding));
    assert_eq!(per_decode(&schema, &[0b1000_0000], Codec::Uper), Ok(Value::Integer(2)));
}

#[test]
fn empty_range_has_no_value() {
    let schema = Schema::Integer(IntegerConstraint::range(5, 4));
    assert_eq!(per_encode(&schema, &Value::Integer(5), Codec::Uper), Err(ErrorKind::Encoding));
    assert_eq!(per_decode(&schema, &[0, 0], Codec::Uper), Err(ErrorKind::Encoding));
}

#[test]
fn unconstrained_integer_is_length_and_twos_complement() {
    let schema = Schema::Integer(IntegerConstraint::unconstrained());
    for codec in both() {
        assert_eq!(per_encode(&schema, &Value::Integer(0), codec), Ok(vec![0x01, 0x00]));
        assert_eq!(per_encode(&schema, &Value::Integer(-1), codec), Ok(vec![0x01, 0xFF]));
        assert_eq!(per_encode(&schema, &Value::Integer(127), codec), Ok(vec![0x01, 0x7F]));
        assert_eq!(per_encode(&schema, &Value::Integer(128), codec), Ok(vec![0x02, 0x00, 0x80]));
        assert_eq!(per_encode(&schema, &Value::Integer(-128), codec), Ok(vec![0x01, 0x80]));
        assert_eq!(per_encode(&schema, &Value::Integer(-129), codec), Ok(vec![0x02, 0xFF, 0x7F]));
        assert_eq!(
            per_encode(&schema, &Value::Integer(i64::MIN), codec),
            Ok(vec![0x08, 0x80, 0, 0, 0, 0, 0, 0, 0])
        );
        assert_eq!(
            per_encode(&schema, &Value::Integer(i64::MAX), codec),
            Ok(vec![0x08, 0x7F, 0xFF, 0xFF, 0xFF, 0xFF, 0xFF, 0xFF, 0xFF])
        );
        assert_eq!(per_decode(&schema, &[0x02, 0xFF, 0x7F], codec), Ok(Value::Integer(-129)));
        assert_eq!(per_decode(&schema, &[0x03, 0x00, 0x00, 0x05], codec), Ok(Value::Integer(5)));
    }
    for v in [0i64, 1, -1, 255, 256, -256, 32767, -32768, 1 << 40, -(1 << 40), i64::MIN, i64::MAX] {
        roundtrip(&schema, Value::Integer(v));
    }
}

#[test]
fn unconstrained_integer_of_bad_length_is_refused() {
    let schema = Schema::Integer(IntegerConstraint::unconstrained());
    assert_eq!(per_decode(&schema, &[0x00], Codec::Uper), Err(ErrorKind::Encoding));
    assert_eq!(
        per_decode(&schema, &[0x09, 0, 0, 0, 0, 0, 0, 0, 0, 0], Codec::Uper),
        Err(ErrorKind::Encoding)
    );
    assert_eq!(per_decode(&schema, &[0x02, 0x01], Codec::Uper), Err(ErrorKind::Encoding));
}

#[test]
fn semi_constrained_integer_is_length_and_offset() {
    let c = IntegerConstraint { lower_bound: Some(10), upper_bound: None, extensible: false };
    let schema = Schema::Integer(c);
    for codec in both() {
        assert_eq!(per_encode(&schema, &Value::Integer(10), codec), Ok(vec![0x01, 0x00]));
        assert_eq!(per_encode(&schema, &Value::Integer(310), codec), Ok(vec![0x02, 0x01, 0x2C]));
        assert_eq!(per_encode(&schema, &Value::Integer(265), codec), Ok(vec![0x01, 0xFF]));
        assert_eq!(per_encode(&schema, &Value::Integer(9), codec), Err(ErrorKind::Encoding));
        assert_eq!(per_decode(&schema, &[0x02, 0x01, 0x2C], codec), Ok(Value::Integer(310)));
    }
    roundtrip(&schema, Value::Integer(i64::MAX));
    let low = Schema::Integer(IntegerConstraint {
        lower_bound: Some(i64::MIN),
        upper_bound: None,
        extensible: false,
    });
    roundtrip(&low, Value::Integer(i64::MAX));
    roundtrip(&low, Value::Integer(i64::MIN));
}

#[test]
fn semi_constrained_integer_beyond_sixty_four_bits_is_refused() {
    let c = IntegerConstraint { lower_bound: Some(1), upper_bound: None, extensible: false };
    let bytes = [0x08, 0x7F, 0xFF, 0xFF, 0xFF, 0xFF, 0xFF, 0xFF, 0xFF];
    assert_eq!(per_decode(&Schema::Integer(c), &bytes, Codec::Uper), Err(ErrorKind::Encoding));
    let zero = IntegerConstraint { lower_bound: Some(0), upper_bound: None, extensible: false };
    assert_eq!(per_decode(&Schema::Integer(zero), &bytes, Codec::Uper), Ok(Value::Integer(i64::MAX)));
}

#[test]
fn upper_bound_alone_is_checked() {
    let c = IntegerConstraint { lower_bound: None, upper_bound: Some(5), extensible: false };
    let schema = Schema::Integer(c);
    assert_eq!(per_encode(&schema, &Value::Integer(5), Codec::Uper), Ok(vec![0x01, 0x05]));
    assert_eq!(per_encode(&schema, &Value::Integer(6), Codec::Uper), Err(ErrorKind::Encoding));
    assert_eq!(per_decode(&schema, &[0x01, 0x06], Codec::Uper), Err(ErrorKind::Encoding));
    assert_eq!(per_decode(&schema, &[0x01, 0xFA], Codec::Uper), Ok(Value::Integer(-6)));
}

#[test]
fn extensible_integer_within_its_bounds_has_a_clear_bit() {
    let schema = Schema::Integer(extensible_range(0, 7));
    for codec in both() {
        assert_eq!(per_encode(&schema, &Value::Integer(5), codec), Ok(vec![0b0101_0000]));
        assert_eq!(per_decode(&schema, &[0b0101_0000], codec), Ok(Value::Integer(5)));
    }
}

#[test]
fn extensible_integer_outside_its_bounds_has_a_set_bit() {
    let schema = Schema::Integer(extensible_range(0, 7));
    assert_eq!(per_encode(&schema, &Value::Integer(100), Codec::Uper), Ok(vec![0x80, 0xB2, 0x00]));
    assert_eq!(per_encode(&schema, &Value::Integer(100), Codec::Aper), Ok(vec![0x80, 0x01, 0x64]));
    assert_eq!(per_decode(&schema, &[0x80, 0xB2, 0x00], Codec::Uper), Ok(Value::Integer(100)));
    assert_eq!(per_decode(&schema, &[0x80, 0x01, 0x64], Codec::Aper), Ok(Value::Integer(100)));
    roundtrip(&schema, Value::Integer(-1));
    roundtrip(&schema, Value::Integer(8));
    roundtrip(&schema, Value::Integer(i64::MIN));
}

#[test]
fn set_extension_bit_is_read_without_the_bounds() {
    let narrow = Schema::Integer(extensible_range(0, 7));
    let wide = Schema::Integer(extensible_range(-1000, 1000));
    let bytes = [0x80, 0x01, 0x03];
    assert_eq!(per_decode(&narrow, &bytes, Codec::Aper), Ok(Value::Integer(3)));
    assert_eq!(per_decode(&wide, &bytes, Codec::Aper), Ok(Value::Integer(3)));
}

#[test]
fn enumerated_root_values() {
    let c = EnumConstraint { root_values: vec![10, 20, 30], ext_marker_index: None, ext_values: vec![] };
    let schema = Schema::Enumerated(c);
    for codec in both() {
        assert_eq!(per_encode(&schema, &Value::Enumerated(0), codec), Ok(vec![0x00]));
        assert_eq!(per_encode(&schema, &Value::Enumerated(2), codec), Ok(vec![0x80]));
        assert_eq!(per_encode(&schema, &Value::Enumerated(3), codec), Err(ErrorKind::Encoding));
        assert_eq!(per_decode(&schema, &[0xC0], codec), Err(ErrorKind::Encoding));
        assert_eq!(per_decode(&schema, &[0x40], codec), Ok(Value::Enumerated(1)));
    }
}

#[test]
fn enumerated_with_one_root_value_takes_no_bits() {
    let c = EnumConstraint { root_values: vec![0], ext_marker_index: None, ext_values: vec![] };
    let schema = Schema::Enumerated(c);
    assert_eq!(per_encode(&schema, &Value::Enumerated(0), Codec::Uper), Ok(vec![]));
    assert_eq!(per_decode(&schema, &[], Codec::Uper), Ok(Value::Enumerated(0)));
}

#[test]
fn enumerated_without_values_has_none() {
    let c = EnumConstraint { root_values: vec![], ext_marker_index: None, ext_values: vec![] };
    let schema = Schema::Enumerated(c);
    assert_eq!(per_encode(&schema, &Value::Enumerated(0), Codec::Uper), Err(ErrorKind::Encoding));
    assert_eq!(per_decode(&schema, &[0], Codec::Uper), Err(ErrorKind::Encoding));
}

#[test]
fn enumerated_extension_value_has_a_set_bit() {
    let schema = Schema::Enumerated(colours());
    for codec in both() {
        assert_eq!(per_encode(&schema, &Value::Enumerated(0), codec), Ok(vec![0x00]));
        assert_eq!(per_encode(&schema, &Value::Enumerated(1), codec), Ok(vec![0x40]));
        assert_eq!(per_encode(&schema, &Value::Enumerated(2), codec), Ok(vec![0x80]));
        assert_eq!(per_encode(&schema, &Value::Enumerated(3), codec), Err(ErrorKind::Encoding));
        assert_eq!(per_decode(&schema, &[0x80], codec), Ok(Value::Enumerated(2)));
        assert_eq!(per_decode(&schema, &[0x82], codec), Err(ErrorKind::Encoding));
    }
}

#[test]
fn extension_index_does_not_depend_on_the_root_values() {
    let other = EnumConstraint { root_values: vec![7, 9], ext_marker_index: Some(2), ext_values: vec![1] };
    let mut first = WireBuffer::new(false);
    let mut second = WireBuffer::new(false);
    assert_eq!(encode_enumerated(&mut first, &colours(), 2), Ok(()));
    assert_eq!(encode_enumerated(&mut second, &other, 2), Ok(()));
    let bytes = first.into_bytes();
    assert_eq!(bytes, second.into_bytes());
    assert_eq!(per_decode(&Schema::Enumerated(other), &bytes, Codec::Uper), Ok(Value::Enumerated(2)));
}

#[test]
fn enumerated_extension_place_of_sixty_four_or_more() {
    let c = EnumConstraint {
        root_values: vec![0],
        ext_marker_index: Some(1),
        ext_values: (0..100).collect(),
    };
    let schema = Schema::Enumerated(c);
    assert_eq!(
        per_encode(&schema, &Value::Enumerated(1 + 64), Codec::Uper),
        Ok(vec![0b1100_0000, 0b0101_0000, 0])
    );
    assert_eq!(
        per_encode(&schema, &Value::Enumerated(1 + 64), Codec::Aper),
        Ok(vec![0b1100_0000, 0x01, 0x40])
    );
    assert_eq!(per_encode(&schema, &Value::Enumerated(1 + 63), Codec::Uper), Ok(vec![0b1011_1111]));
    roundtrip(&schema, Value::Enumerated(100));
    roundtrip(&schema, Value::Enumerated(65));
}

#[test]
fn general_length_forms() {
    let mut buf = WireBuffer::new(false);
    assert_eq!(encode_general_length(&mut buf, 0), Ok(()));
    assert_eq!(encode_general_length(&mut buf, 127), Ok(()));
    assert_eq!(encode_general_length(&mut buf, 128), Ok(()));
    assert_eq!(encode_general_length(&mut buf, 200), Ok(()));
    assert_eq!(encode_general_length(&mut buf, 16383), Ok(()));
    assert_eq!(encode_general_length(&mut buf, 16384), Err(ErrorKind::Encoding));
    let bytes = buf.into_bytes();
    assert_eq!(bytes, vec![0x00, 0x7F, 0x80, 0x80, 0x80, 0xC8, 0xBF, 0xFF]);
    let mut buf = WireBuffer::from_bytes(&bytes, false);
    for len in [0usize, 127, 128, 200, 16383] {
        assert_eq!(decode_general_length(&mut buf), Ok(len));
    }
    assert_eq!(decode_general_length(&mut buf), Err(ErrorKind::Encoding));
}

#[test]
fn general_length_of_a_fragment_is_refused() {
    let mut buf = WireBuffer::from_bytes(&[0xC1, 0x00], false);
    assert_eq!(decode_general_length(&mut buf), Err(ErrorKind::Encoding));
}

#[test]
fn general_length_is_aligned_in_the_aligned_variant() {
    let mut buf = WireBuffer::new(true);
    encode_bool(&mut buf, true);
    assert_eq!(encode_general_length(&mut buf, 5), Ok(()));
    assert_eq!(buf.into_bytes(), vec![0x80, 0x05]);
    let mut buf = WireBuffer::new(false);
    encode_bool(&mut buf, true);
    assert_eq!(encode_general_length(&mut buf, 5), Ok(()));
    assert_eq!(buf.into_bytes(), vec![0x82, 0x80]);
    let mut buf = WireBuffer::from_bytes(&[0xFF, 0x05], true);
    assert_eq!(decode_bool(&mut buf), Ok(true));
    assert_eq!(decode_general_length(&mut buf), Ok(5));
}

#[test]
fn numbers_of_any_size() {
    let mut buf = WireBuffer::new(false);
    encode_semi_constrained(&mut buf, 0);
    encode_semi_constrained(&mut buf, 256);
    encode_unconstrained(&mut buf, -2);
    encode_small_number(&mut buf, 5);
    let bytes = buf.into_bytes();
    assert_eq!(bytes, vec![0x01, 0x00, 0x02, 0x01, 0x00, 0x01, 0xFE, 0b0000_1010]);
    let mut buf = WireBuffer::from_bytes(&bytes, false);
    assert_eq!(decode_semi_constrained(&mut buf), Ok(0));
    assert_eq!(decode_semi_constrained(&mut buf), Ok(256));
    assert_eq!(decode_unconstrained(&mut buf), Ok(-2));
    assert_eq!(decode_small_number(&mut buf), Ok(5));
    let mut buf = WireBuffer::new(false);
    encode_semi_constrained(&mut buf, u64::MAX);
    let bytes = buf.into_bytes();
    assert_eq!(bytes, vec![0x08, 0xFF, 0xFF, 0xFF, 0xFF, 0xFF, 0xFF, 0xFF, 0xFF]);
    assert_eq!(decode_semi_constrained(&mut WireBuffer::from_bytes(&bytes, true)), Ok(u64::MAX));
}

#[test]
fn length_determinant_within_bounds() {
    let c = SizeConstraint::range(1, 4);
    let mut buf = WireBuffer::new(true);
    assert_eq!(encode_length_determinant(&mut buf, &c, 3), Ok(()));
    assert_eq!(buf.position(), (0, 2));
    assert_eq!(encode_length_determinant(&mut buf, &c, 0), Err(ErrorKind::Encoding));
    assert_eq!(encode_length_determinant(&mut buf, &c, 5), Err(ErrorKind::Encoding));
    assert_eq!(buf.into_bytes(), vec![0b1000_0000]);
    let mut buf = WireBuffer::from_bytes(&[0b1000_0000], true);
    assert_eq!(decode_length_determinant(&mut buf, &c), Ok(3));
}

#[test]
fn length_determinant_with_a_minimum_alone() {
    let c = SizeConstraint { min_size: Some(2), max_size: None, extensible: false };
    let mut buf = WireBuffer::new(false);
    assert_eq!(encode_length_determinant(&mut buf, &c, 2), Ok(()));
    assert_eq!(encode_length_determinant(&mut buf, &c, 1), Err(ErrorKind::Encoding));
    assert_eq!(buf.into_bytes(), vec![0x02]);
    assert_eq!(decode_length_determinant(&mut WireBuffer::from_bytes(&[0x01], false), &c), Err(ErrorKind::Encoding));
    assert_eq!(decode_length_determinant(&mut WireBuffer::from_bytes(&[0x02], false), &c), Ok(2));
}

#[test]
fn extensible_length_determinant() {
    let c = SizeConstraint { min_size: Some(1), max_size: Some(2), extensible: true };
    let mut buf = WireBuffer::new(false);
    assert_eq!(encode_length_determinant(&mut buf, &c, 2), Ok(()));
    assert_eq!(buf.position(), (0, 2));
    assert_eq!(encode_length_determinant(&mut buf, &c, 3), Ok(()));
    assert_eq!(buf.position(), (1, 3));
    let bytes = buf.into_bytes();
    assert_eq!(bytes, vec![0b0110_0000, 0b0110_0000]);
    let mut buf = WireBuffer::from_bytes(&bytes, false);
    assert_eq!(decode_length_determinant(&mut buf, &c), Ok(2));
    assert_eq!(decode_length_determinant(&mut buf, &c), Ok(3));
}

#[test]
fn octet_string_without_bounds() {
    let schema = Schema::OctetString(SizeConstraint::unconstrained());
    for codec in both() {
        assert_eq!(
            per_encode(&schema, &Value::OctetString(vec![0xDE, 0xAD]), codec),
            Ok(vec![0x02, 0xDE, 0xAD])
        );
        assert_eq!(per_encode(&schema, &Value::OctetString(vec![]), codec), Ok(vec![0x00]));
        assert_eq!(per_decode(&schema, &[0x02, 0xDE, 0xAD], codec), Ok(Value::OctetString(vec![0xDE, 0xAD])));
        assert_eq!(per_decode(&schema, &[0x02, 0xDE], codec), Err(ErrorKind::Encoding));
    }
}

#[test]
fn octet_string_within_bounds_is_aligned_in_the_aligned_variant() {
    let schema = Schema::OctetString(SizeConstraint::range(0, 10));
    let value = Value::OctetString(vec![0xDE, 0xAD]);
    assert_eq!(per_encode(&schema, &value, Codec::Aper), Ok(vec![0x20, 0xDE, 0xAD]));
    assert_eq!(per_encode(&schema, &value, Codec::Uper), Ok(vec![0x2D, 0xEA, 0xD0]));
    assert_eq!(per_decode(&schema, &[0x2F, 0xDE, 0xAD], Codec::Aper), Ok(Value::OctetString(vec![0xDE, 0xAD])));
    assert_eq!(per_encode(&schema, &Value::OctetString(vec![]), Codec::Aper), Ok(vec![0x00]));
    assert_eq!(per_encode(&schema, &Value::OctetString(vec![0; 11]), Codec::Aper), Err(ErrorKind::Encoding));
    roundtrip(&schema, Value::OctetString(vec![1, 2, 3, 4, 5, 6, 7, 8, 9, 10]));
}

#[test]
fn short_octet_string_of_fixed_size_is_not_aligned() {
    let two = Schema::Sequence {
        fields: vec![Schema::Boolean, Schema::OctetString(SizeConstraint::range(2, 2))],
    };
    let value = Value::Sequence(vec![Value::Boolean(true), Value::OctetString(vec![0x12, 0x34])]);
    for codec in both() {
        assert_eq!(per_encode(&two, &value, codec), Ok(vec![0x89, 0x1A, 0x00]));
    }
    let three = Schema::Sequence {
        fields: vec![Schema::Boolean, Schema::OctetString(SizeConstraint::range(3, 3))],
    };
    let value = Value::Sequence(vec![Value::Boolean(true), Value::OctetString(vec![0x12, 0x34, 0x56])]);
    assert_eq!(per_encode(&three, &value, Codec::Aper), Ok(vec![0x80, 0x12, 0x34, 0x56]));
    assert_eq!(per_encode(&three, &value, Codec::Uper), Ok(vec![0x89, 0x1A, 0x2B, 0x00]));
    roundtrip(&three, value);
}

#[test]
fn octet_string_functions_on_a_buffer() {
    let c = SizeConstraint::range(1, 2);
    let mut buf = WireBuffer::new(true);
    assert_eq!(encode_octetstring(&mut buf, &c, &[0xAB]), Ok(()));
    assert_eq!(encode_octetstring(&mut buf, &c, &[]), Err(ErrorKind::Encoding));
    let bytes = buf.into_bytes();
    assert_eq!(bytes, vec![0x00, 0xAB]);
    assert_eq!(decode_octetstring(&mut WireBuffer::from_bytes(&bytes, true), &c), Ok(vec![0xAB]));
}

#[test]
fn long_octet_string_uses_the_two_octet_length() {
    let schema = Schema::OctetString(SizeConstraint::unconstrained());
    let bytes = per_encode(&schema, &Value::OctetString(vec![7; 200]), Codec::Aper).unwrap();
    assert_eq!(bytes.len(), 202);
    assert_eq!(&bytes[..2], &[0x80, 0xC8]);
    roundtrip(&schema, Value::OctetString(vec![7; 16383]));
    assert_eq!(
        per_encode(&schema, &Value::OctetString(vec![7; 16384]), Codec::Aper),
        Err(ErrorKind::Encoding)
    );
}

#[test]
fn bit_string_without_bounds() {
    let schema = Schema::BitString(SizeConstraint::unconstrained());
    let value = Value::BitString(vec![true, false, true]);
    for codec in both() {
        assert_eq!(per_encode(&schema, &value, codec), Ok(vec![0x03, 0xA0]));
        assert_eq!(per_decode(&schema, &[0x03, 0xA0], codec).as_ref(), Ok(&value));
        assert_eq!(per_decode(&schema, &[0x09, 0xA0], codec), Err(ErrorKind::Encoding));
    }
    let mut buf = WireBuffer::new(false);
    assert_eq!(encode_bitstring(&mut buf, &SizeConstraint::range(0, 7), &[true; 8]), Err(ErrorKind::Encoding));
}

#[test]
fn bit_string_of_fixed_size() {
    let short = Schema::Sequence {
        fields: vec![Schema::Boolean, Schema::BitString(SizeConstraint::range(4, 4))],
    };
    let value = Value::Sequence(vec![
        Value::Boolean(false),
        Value::BitString(vec![true, true, false, true]),
    ]);
    for codec in both() {
        assert_eq!(per_encode(&short, &value, codec), Ok(vec![0b0110_1000]));
    }
    let long = Schema::Sequence {
        fields: vec![Schema::Boolean, Schema::BitString(SizeConstraint::range(17, 17))],
    };
    let value = Value::Sequence(vec![Value::Boolean(true), Value::BitString(vec![true; 17])]);
    assert_eq!(per_encode(&long, &value, Codec::Aper), Ok(vec![0x80, 0xFF, 0xFF, 0x80]));
    assert_eq!(per_encode(&long, &value, Codec::Uper), Ok(vec![0xFF, 0xFF, 0xC0]));
    roundtrip(&long, value);
}

#[test]
fn sequence_is_its_fields_in_order() {
    let schema = Schema::Sequence {
        fields: vec![Schema::Integer(IntegerConstraint::range(0, 255)), Schema::Boolean, Schema::Null],
    };
    let value = Value::Sequence(vec![Value::Integer(200), Value::Boolean(true), Value::Null]);
    for codec in both() {
        assert_eq!(per_encode(&schema, &value, codec), Ok(vec![0xC8, 0x80]));
    }
    roundtrip(&schema, value);
    let short = Value::Sequence(vec![Value::Integer(200), Value::Boolean(true)]);
    assert_eq!(per_encode(&schema, &short, Codec::Uper), Err(ErrorKind::Encoding));
    let swapped = Value::Sequence(vec![Value::Boolean(true), Value::Integer(200), Value::Null]);
    assert_eq!(per_encode(&schema, &swapped, Codec::Uper), Err(ErrorKind::Encoding));
    assert_eq!(per_decode(&schema, &[0xC8], Codec::Uper), Err(ErrorKind::Encoding));
}

#[test]
fn empty_sequence_takes_no_bits() {
    let schema = Schema::Sequence { fields: vec![] };
    assert_eq!(per_encode(&schema, &Value::Sequence(vec![]), Codec::Aper), Ok(vec![]));
    assert_eq!(per_decode(&schema, &[], Codec::Aper), Ok(Value::Sequence(vec![])));
}

#[test]
fn sequence_of_is_a_count_and_as_many_elements() {
    let schema = Schema::SequenceOf {
        size: SizeConstraint::range(0, 3),
        element: Box::new(Schema::Boolean),
    };
    let value = Value::SequenceOf(vec![Value::Boolean(true), Value::Boolean(false), Value::Boolean(true)]);
    for codec in both() {
        assert_eq!(per_encode(&schema, &value, codec), Ok(vec![0b1110_1000]));
        assert_eq!(per_encode(&schema, &Value::SequenceOf(vec![]), codec), Ok(vec![0x00]));
        assert_eq!(per_decode(&schema, &[0x00], codec), Ok(Value::SequenceOf(vec![])));
    }
    roundtrip(&schema, value);
    let four = Value::SequenceOf((0..4).map(|_| Value::Boolean(true)).collect());
    assert_eq!(per_encode(&schema, &four, Codec::Uper), Err(ErrorKind::Encoding));
}

#[test]
fn sequence_of_stops_after_its_count() {
    let schema = Schema::SequenceOf {
        size: SizeConstraint::range(0, 3),
        element: Box::new(Schema::Integer(IntegerConstraint::range(0, 3))),
    };
    let expected = Value::SequenceOf(vec![Value::Integer(3), Value::Integer(1)]);
    for tail in [0x0Fu8, 0x00, 0x05] {
        let first = 0b1011_0100 | (tail & 0x03);
        assert_eq!(per_decode(&schema, &[first, tail, tail], Codec::Uper).as_ref(), Ok(&expected));
    }
    assert_eq!(
        per_decode(&schema, &[0b1111_0000], Codec::Uper),
        Ok(Value::SequenceOf(vec![Value::Integer(3), Value::Integer(0), Value::Integer(0)]))
    );
    assert_eq!(per_decode(&schema, &[], Codec::Uper), Err(ErrorKind::Encoding));
}

#[test]
fn sequence_of_without_bounds_in_both_variants() {
    let schema = Schema::Sequence {
        fields: vec![
            Schema::Boolean,
            Schema::SequenceOf {
                size: SizeConstraint::unconstrained(),
                element: Box::new(Schema::Integer(IntegerConstraint::range(0, 15))),
            },
        ],
    };
    let value = Value::Sequence(vec![
        Value::Boolean(true),
        Value::SequenceOf(vec![Value::Integer(1), Value::Integer(15)]),
    ]);
    assert_eq!(per_encode(&schema, &value, Codec::Aper), Ok(vec![0x80, 0x02, 0x1F]));
    assert_eq!(per_encode(&schema, &value, Codec::Uper), Ok(vec![0x81, 0x0F, 0x80]));
    roundtrip(&schema, value);
}

#[test]
fn choice_is_an_index_and_the_alternative() {
    let schema = Schema::Choice {
        alternatives: vec![Schema::Null, Schema::Integer(IntegerConstraint::range(0, 255))],
        extensible: false,
    };
    let value = Value::Choice(1, Box::new(Value::Integer(7)));
    for codec in both() {
        assert_eq!(per_encode(&schema, &value, codec), Ok(vec![0x83, 0x80]));
        assert_eq!(per_encode(&schema, &Value::Choice(0, Box::new(Value::Null)), codec), Ok(vec![0x00]));
        assert_eq!(
            per_encode(&schema, &Value::Choice(2, Box::new(Value::Null)), codec),
            Err(ErrorKind::Encoding)
        );
        assert_eq!(
            per_encode(&schema, &Value::Choice(0, Box::new(Value::Integer(7))), codec),
            Err(ErrorKind::Encoding)
        );
    }
    roundtrip(&schema, value);
}

#[test]
fn extensible_choice_has_a_clear_bit_and_refuses_a_set_one() {
    let schema = Schema::Choice {
        alternatives: vec![Schema::Boolean, Schema::Boolean, Schema::Boolean],
        extensible: true,
    };
    let value = Value::Choice(2, Box::new(Value::Boolean(true)));
    assert_eq!(per_encode(&schema, &value, Codec::Uper), Ok(vec![0b0101_0000]));
    assert_eq!(per_decode(&schema, &[0b0101_0000], Codec::Uper).as_ref(), Ok(&value));
    assert_eq!(per_decode(&schema, &[0b1101_0000], Codec::Uper), Err(ErrorKind::Encoding));
    assert_eq!(per_decode(&schema, &[0b0111_0000], Codec::Uper), Err(ErrorKind::Encoding));
}

#[test]
fn choice_without_alternatives_has_no_value() {
    let schema = Schema::Choice { alternatives: vec![], extensible: false };
    assert_eq!(per_decode(&schema, &[0], Codec::Uper), Err(ErrorKind::Encoding));
    assert_eq!(
        per_encode(&schema, &Value::Choice(0, Box::new(Value::Null)), Codec::Uper),
        Err(ErrorKind::Encoding)
    );
}

#[test]
fn object_identifier_inside_a_sequence_is_refused() {
    let schema = Schema::Sequence { fields: vec![Schema::Boolean, Schema::ObjectIdentifier] };
    let value = Value::Sequence(vec![Value::Boolean(true), Value::ObjectIdentifier]);
    for codec in both() {
        assert_eq!(per_encode(&schema, &value, codec), Err(ErrorKind::Encoding));
        assert_eq!(per_decode(&schema, &[0xFF, 0xFF], codec), Err(ErrorKind::Encoding));
        assert_eq!(per_decode(&schema, &[], codec), Err(ErrorKind::Encoding));
    }
    let mut buf = WireBuffer::new(true);
    assert_eq!(encode_object_identifier(&mut buf), Err(ErrorKind::Encoding));
}

#[test]
fn empty_repetition_of_object_identifiers_passes() {
    let schema = Schema::SequenceOf {
        size: SizeConstraint::range(0, 5),
        element: Box::new(Schema::ObjectIdentifier),
    };
    assert_eq!(per_encode(&schema, &Value::SequenceOf(vec![]), Codec::Uper), Ok(vec![0x00]));
    assert_eq!(per_decode(&schema, &[0x00], Codec::Uper), Ok(Value::SequenceOf(vec![])));
    assert_eq!(
        per_encode(&schema, &Value::SequenceOf(vec![Value::ObjectIdentifier]), Codec::Uper),
        Err(ErrorKind::Encoding)
    );
    assert_eq!(per_decode(&schema, &[0x20], Codec::Uper), Err(ErrorKind::Encoding));
}

#[test]
fn value_of_another_kind_is_refused() {
    for codec in both() {
        assert_eq!(per_encode(&Schema::Boolean, &Value::Null, codec), Err(ErrorKind::Encoding));
        assert_eq!(per_encode(&Schema::Null, &Value::Boolean(true), codec), Err(ErrorKind::Encoding));
        assert_eq!(
            per_encode(&Schema::OctetString(SizeConstraint::unconstrained()), &Value::BitString(vec![]), codec),
            Err(ErrorKind::Encoding)
        );
    }
}

#[test]
fn nested_value_round_trips() {
    let schema = Schema::Sequence {
        fields: vec![
            Schema::Integer(extensible_range(-5, 5)),
            Schema::SequenceOf {
                size: SizeConstraint { min_size: Some(1), max_size: Some(4), extensible: true },
                element: Box::new(Schema::Choice {
                    alternatives: vec![
                        Schema::OctetString(SizeConstraint::range(0, 3)),
                        Schema::Enumerated(colours()),
                        Schema::BitString(SizeConstraint::unconstrained()),
                    ],
                    extensible: true,
                }),
            },
            Schema::Integer(IntegerConstraint::unconstrained()),
        ],
    };
    let value = Value::Sequence(vec![
        Value::Integer(1000),
        Value::SequenceOf(vec![
            Value::Choice(0, Box::new(Value::OctetString(vec![1, 2, 3]))),
            Value::Choice(1, Box::new(Value::Enumerated(2))),
            Value::Choice(2, Box::new(Value::BitString(vec![true, false, false, true, true]))),
            Value::Choice(0, Box::new(Value::OctetString(vec![]))),
            Value::Choice(1, Box::new(Value::Enumerated(0))),
        ]),
        Value::Integer(-70000),
    ]);
    assert!(schema.admits(&value));
    assert!(!value.contains_oid());
    roundtrip(&schema, value);
}
