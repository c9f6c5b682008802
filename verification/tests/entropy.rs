use asnfuzzgen::entropy::flatten::{flatten, flatten_enumerated, flatten_integer, flatten_size, to_entropy};
use asnfuzzgen::entropy::generate::{
    from_entropy, generate, generate_bit_string, generate_enumerated, generate_integer,
    generate_octet_string, generate_size,
};
use asnfuzzgen::error::ErrorKind;
use asnfuzzgen::schema::{EnumConstraint, IntegerConstraint, Schema, SizeConstraint};
use asnfuzzgen::value::Value;

fn there_and_back(schema: &Schema, value: Value) {
    let bytes = to_entropy(schema, &value, 1_000_000).unwrap();
    assert_eq!(from_entropy(schema, &bytes).as_ref(), Ok(&value));
    let mut longer = bytes.clone();
    longer.extend_from_slice(&[0xEE; 5]);
    assert_eq!(from_entropy(schema, &longer).as_ref(), Ok(&value));
}

#[test]
fn boolean_consumes_one_octet() {
    assert_eq!(from_entropy(&Schema::Boolean, &[1]), Ok(Value::Boolean(true)));
    assert_eq!(from_entropy(&Schema::Boolean, &[0]), Ok(Value::Boolean(false)));
    assert_eq!(from_entropy(&Schema::Boolean, &[2]), Ok(Value::Boolean(false)));
    assert_eq!(from_entropy(&Schema::Boolean, &[3, 9]), Ok(Value::Boolean(true)));
    assert_eq!(from_entropy(&Schema::Boolean, &[]), Err(ErrorKind::Entropic));
    assert_eq!(to_entropy(&Schema::Boolean, &Value::Boolean(true), 10), Ok(vec![1]));
    assert_eq!(to_entropy(&Schema::Boolean, &Value::Boolean(false), 10), Ok(vec![0]));
}

#[test]
fn constrained_integer_consumes_the_octets_of_its_range() {
    let byte = Schema::Integer(IntegerConstraint::range(0, 255));
    assert_eq!(from_entropy(&byte, &[200]), Ok(Value::Integer(200)));
    let small = Schema::Integer(IntegerConstraint::range(10, 20));
    assert_eq!(from_entropy(&small, &[25]), Ok(Value::Integer(13)));
    assert_eq!(to_entropy(&small, &Value::Integer(13), 10), Ok(vec![3]));
    let word = Schema::Integer(IntegerConstraint::range(0, 65535));
    assert_eq!(from_entropy(&word, &[0x12, 0x34, 0x56]), Ok(Value::Integer(0x1234)));
    assert_eq!(from_entropy(&word, &[0x12]), Err(ErrorKind::Entropic));
    assert_eq!(to_entropy(&word, &Value::Integer(0x1234), 10), Ok(vec![0x12, 0x34]));
    let nine = Schema::Integer(IntegerConstraint::range(0, 256));
    assert_eq!(from_entropy(&nine, &[0x01, 0x01]), Ok(Value::Integer(0)));
    assert_eq!(from_entropy(&nine, &[0x01, 0x00]), Ok(Value::Integer(256)));
}

#[test]
fn integer_with_one_value_consumes_nothing() {
    let schema = Schema::Integer(IntegerConstraint::range(7, 7));
    assert_eq!(from_entropy(&schema, &[]), Ok(Value::Integer(7)));
    assert_eq!(to_entropy(&schema, &Value::Integer(7), 0), Ok(vec![]));
}

#[test]
fn empty_range_generates_nothing() {
    let schema = Schema::Integer(IntegerConstraint::range(5, 4));
    assert_eq!(from_entropy(&schema, &[0; 16]), Err(ErrorKind::Entropic));
}

#[test]
fn unconstrained_integer_is_eight_octets_in_twos_complement() {
    let schema = Schema::Integer(IntegerConstraint::unconstrained());
    assert_eq!(from_entropy(&schema, &[0; 8]), Ok(Value::Integer(0)));
    assert_eq!(from_entropy(&schema, &[0xFF; 8]), Ok(Value::Integer(-1)));
    assert_eq!(from_entropy(&schema, &[0x80, 0, 0, 0, 0, 0, 0, 0]), Ok(Value::Integer(i64::MIN)));
    assert_eq!(from_entropy(&schema, &[0; 7]), Err(ErrorKind::Entropic));
    assert_eq!(to_entropy(&schema, &Value::Integer(-2), 8), Ok(vec![0xFF, 0xFF, 0xFF, 0xFF, 0xFF, 0xFF, 0xFF, 0xFE]));
    assert_eq!(to_entropy(&schema, &Value::Integer(258), 8), Ok(vec![0, 0, 0, 0, 0, 0, 1, 2]));
    for v in [0, 1, -1, i64::MAX, i64::MIN, 123_456_789] {
        there_and_back(&schema, Value::Integer(v));
    }
}

#[test]
fn half_bounded_integers() {
    let from_ten = Schema::Integer(IntegerConstraint { lower_bound: Some(10), upper_bound: None, extensible: false });
    assert_eq!(from_entropy(&from_ten, &[0; 8]), Ok(Value::Integer(10)));
    assert_eq!(from_entropy(&from_ten, &[0, 0, 0, 0, 0, 0, 0, 5]), Ok(Value::Integer(15)));
    there_and_back(&from_ten, Value::Integer(i64::MAX));
    let up_to_five = Schema::Integer(IntegerConstraint { lower_bound: None, upper_bound: Some(5), extensible: false });
    assert_eq!(from_entropy(&up_to_five, &[0; 8]), Ok(Value::Integer(i64::MIN)));
    there_and_back(&up_to_five, Value::Integer(5));
    there_and_back(&up_to_five, Value::Integer(-77));
    assert_eq!(to_entropy(&up_to_five, &Value::Integer(6), 100), Err(ErrorKind::Entropic));
}

#[test]
fn extensible_integer_picks_its_branch_first() {
    let c = IntegerConstraint { lower_bound: Some(0), upper_bound: Some(7), extensible: true };
    let schema = Schema::Integer(c);
    assert_eq!(from_entropy(&schema, &[0, 13]), Ok(Value::Integer(5)));
    assert_eq!(from_entropy(&schema, &[1, 0, 0, 0, 0, 0, 0, 0, 100]), Ok(Value::Integer(100)));
    assert_eq!(from_entropy(&schema, &[1, 0]), Err(ErrorKind::Entropic));
    assert_eq!(to_entropy(&schema, &Value::Integer(5), 10), Ok(vec![0, 5]));
    assert_eq!(to_entropy(&schema, &Value::Integer(100), 10), Ok(vec![1, 0, 0, 0, 0, 0, 0, 0, 100]));
    there_and_back(&schema, Value::Integer(-9));
    let mut out = vec![0xAA];
    flatten_integer(&mut out, &c, 7);
    assert_eq!(out, vec![0xAA, 0, 7]);
    let mut pos = 1;
    assert_eq!(generate_integer(&out, &mut pos, &c), Ok(7));
    assert_eq!(pos, 3);
}

#[test]
fn enumerated_picks_an_index() {
    let c = EnumConstraint { root_values: vec![1, 2, 3], ext_marker_index: None, ext_values: vec![] };
    let schema = Schema::Enumerated(c);
    assert_eq!(from_entropy(&schema, &[7]), Ok(Value::Enumerated(1)));
    assert_eq!(to_entropy(&schema, &Value::Enumerated(2), 1), Ok(vec![2]));
    assert_eq!(to_entropy(&schema, &Value::Enumerated(3), 1), Err(ErrorKind::Entropic));
    let none = EnumConstraint { root_values: vec![], ext_marker_index: None, ext_values: vec![] };
    assert_eq!(from_entropy(&Schema::Enumerated(none), &[0; 4]), Err(ErrorKind::Entropic));
}

#[test]
fn extensible_enumerated_picks_its_branch_first() {
    let c = EnumConstraint { root_values: vec![1, 2], ext_marker_index: Some(2), ext_values: vec![7, 8, 9] };
    let mut pos = 0;
    assert_eq!(generate_enumerated(&[1, 4], &mut pos, &c), Ok(3));
    assert_eq!(pos, 2);
    pos = 0;
    assert_eq!(generate_enumerated(&[0, 3], &mut pos, &c), Ok(1));
    let mut out = Vec::new();
    flatten_enumerated(&mut out, &c, 4);
    flatten_enumerated(&mut out, &c, 0);
    assert_eq!(out, vec![1, 2, 0, 0]);
    let bare = EnumConstraint { root_values: vec![1, 2], ext_marker_index: Some(2), ext_values: vec![] };
    pos = 0;
    assert_eq!(generate_enumerated(&[1, 1], &mut pos, &bare), Ok(1));
    let schema = Schema::Enumerated(c);
    for index in 0..5 {
        there_and_back(&schema, Value::Enumerated(index));
    }
}

#[test]
fn sizes_are_picked_within_their_bounds() {
    let mut pos = 0;
    assert_eq!(generate_size(&[9], &mut pos, &SizeConstraint::range(2, 5)), Ok(3));
    pos = 0;
    assert_eq!(generate_size(&[0x40, 0x02], &mut pos, &SizeConstraint::unconstrained()), Ok(2));
    assert_eq!(pos, 2);
    pos = 0;
    assert_eq!(generate_size(&[0xFF, 0xFF], &mut pos, &SizeConstraint::unconstrained()), Ok(16383));
    let from_three = SizeConstraint { min_size: Some(3), max_size: None, extensible: false };
    pos = 0;
    assert_eq!(generate_size(&[0, 0], &mut pos, &from_three), Ok(3));
    let impossible = SizeConstraint { min_size: Some(20000), max_size: None, extensible: false };
    pos = 0;
    assert_eq!(generate_size(&[0, 0], &mut pos, &impossible), Err(ErrorKind::Entropic));
    let open = SizeConstraint { min_size: Some(1), max_size: Some(2), extensible: true };
    pos = 0;
    assert_eq!(generate_size(&[1, 0, 9], &mut pos, &open), Ok(9));
    pos = 0;
    assert_eq!(generate_size(&[0, 3], &mut pos, &open), Ok(2));
    let mut out = Vec::new();
    flatten_size(&mut out, &open, 9);
    flatten_size(&mut out, &open, 2);
    flatten_size(&mut out, &SizeConstraint::range(2, 5), 3);
    assert_eq!(out, vec![1, 0, 9, 0, 1, 1]);
}

#[test]
fn octet_string_takes_its_octets_as_they_come() {
    let schema = Schema::OctetString(SizeConstraint::unconstrained());
    assert_eq!(from_entropy(&schema, &[0, 3, 1, 2, 3, 4]), Ok(Value::OctetString(vec![1, 2, 3])));
    assert_eq!(from_entropy(&schema, &[0, 3, 1, 2]), Err(ErrorKind::Entropic));
    assert_eq!(to_entropy(&schema, &Value::OctetString(vec![1, 2, 3]), 5), Ok(vec![0, 3, 1, 2, 3]));
    let mut pos = 0;
    assert_eq!(generate_octet_string(&[9, 1, 2, 3], &mut pos, &SizeConstraint::range(2, 5)), Ok(vec![1, 2, 3]));
    assert_eq!(pos, 4);
}

#[test]
fn bit_string_takes_the_leading_bits() {
    let schema = Schema::BitString(SizeConstraint::range(0, 15));
    let bits = vec![true, false, true, false, false, false, false, false, true, true];
    assert_eq!(from_entropy(&schema, &[10, 0xA0, 0xFF]).as_ref(), Ok(&Value::BitString(bits.clone())));
    assert_eq!(to_entropy(&schema, &Value::BitString(bits), 10), Ok(vec![10, 0xA0, 0xC0]));
    assert_eq!(from_entropy(&schema, &[10, 0xA0]), Err(ErrorKind::Entropic));
    assert_eq!(from_entropy(&schema, &[16]), Ok(Value::BitString(vec![])));
    let mut pos = 0;
    assert_eq!(generate_bit_string(&[8, 0x81], &mut pos, &SizeConstraint::range(0, 15)).map(|b| b.len()), Ok(8));
    assert_eq!(pos, 2);
}

#[test]
fn composite_values_consume_in_order() {
    let schema = Schema::Sequence {
        fields: vec![
            Schema::Boolean,
            Schema::SequenceOf {
                size: SizeConstraint::range(0, 3),
                element: Box::new(Schema::Integer(IntegerConstraint::range(0, 255))),
            },
            Schema::Choice { alternatives: vec![Schema::Null, Schema::Boolean], extensible: false },
            Schema::Null,
        ],
    };
    let expected = Value::Sequence(vec![
        Value::Boolean(true),
        Value::SequenceOf(vec![Value::Integer(10), Value::Integer(20)]),
        Value::Choice(1, Box::new(Value::Boolean(false))),
        Value::Null,
    ]);
    assert_eq!(from_entropy(&schema, &[1, 2, 10, 20, 1, 0]).as_ref(), Ok(&expected));
    assert_eq!(to_entropy(&schema, &expected, 6), Ok(vec![1, 2, 10, 20, 1, 0]));
    assert_eq!(to_entropy(&schema, &expected, 5), Err(ErrorKind::Truncated));
    assert_eq!(from_entropy(&schema, &[1, 2, 10]), Err(ErrorKind::Entropic));
    let mut pos = 1;
    let inner = Schema::SequenceOf {
        size: SizeConstraint::range(0, 3),
        element: Box::new(Schema::Integer(IntegerConstraint::range(0, 255))),
    };
    assert_eq!(generate(&[1, 2, 10, 20, 1, 0], &mut pos, &inner).map(|v| v.contains_oid()), Ok(false));
    assert_eq!(pos, 4);
    let mut out = vec![9];
    flatten(&mut out, &Schema::Boolean, &Value::Boolean(true));
    assert_eq!(out, vec![9, 1]);
}

#[test]
fn choice_without_alternatives_generates_nothing() {
    let schema = Schema::Choice { alternatives: vec![], extensible: false };
    assert_eq!(from_entropy(&schema, &[0; 8]), Err(ErrorKind::Entropic));
}

#[test]
fn object_identifier_consumes_nothing() {
    assert_eq!(from_entropy(&Schema::ObjectIdentifier, &[]), Ok(Value::ObjectIdentifier));
    assert_eq!(to_entropy(&Schema::ObjectIdentifier, &Value::ObjectIdentifier, 0), Ok(vec![]));
    assert_eq!(from_entropy(&Schema::Null, &[]), Ok(Value::Null));
}

#[test]
fn value_that_does_not_conform_is_entropic() {
    let schema = Schema::Integer(IntegerConstraint::range(0, 9));
    assert_eq!(to_entropy(&schema, &Value::Integer(10), 100), Err(ErrorKind::Entropic));
    assert_eq!(to_entropy(&schema, &Value::Boolean(true), 100), Err(ErrorKind::Entropic));
    assert_eq!(to_entropy(&schema, &Value::Integer(10), 0), Err(ErrorKind::Entropic));
}

#[test]
fn generation_is_deterministic() {
    let schema = Schema::SequenceOf {
        size: SizeConstraint::unconstrained(),
        element: Box::new(Schema::Integer(IntegerConstraint::unconstrained())),
    };
    let entropy: Vec<u8> = (0..200u32).map(|i| (i * 37 % 251) as u8).collect();
    let mut bounded = entropy.clone();
    bounded[0] = 0;
    bounded[1] = 5;
    let first = from_entropy(&schema, &bounded);
    let second = from_entropy(&schema, &bounded);
    assert!(first.is_ok());
    assert_eq!(first, second);
    assert!(schema.admits(&first.unwrap()));
}
