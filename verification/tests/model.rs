use asnfuzzgen::error::ErrorKind;
use asnfuzzgen::per::decode::{decode_bitstring, decode_enumerated, decode_object_identifier, decode_value};
use asnfuzzgen::per::encode::encode_value;
use asnfuzzgen::schema::{
    Codec, EnumConstraint, IntegerConstraint, Schema, SizeConstraint, GENERAL_LENGTH_LIMIT,
};
use asnfuzzgen::value::Value;
use asnfuzzgen::wire::WireBuffer;

#[test]
fn codec_knows_its_discipline() {
    assert!(Codec::Aper.is_aligned());
    assert!(!Codec::Uper.is_aligned());
}

#[test]
fn integer_constraint_bounds() {
    let c = IntegerConstraint::range(-3, 4);
    assert_eq!(c.lower_bound, Some(-3));
    assert_eq!(c.upper_bound, Some(4));
    assert!(!c.extensible);
    assert!(c.contains(-3));
    assert!(c.contains(4));
    assert!(!c.contains(5));
    assert!(!c.contains(-4));
    let free = IntegerConstraint::unconstrained();
    assert_eq!(free, IntegerConstraint { lower_bound: None, upper_bound: None, extensible: false });
    assert!(free.contains(i64::MIN));
    assert!(free.contains(i64::MAX));
    let above = IntegerConstraint { lower_bound: Some(0), upper_bound: None, extensible: false };
    assert!(above.contains(i64::MAX));
    assert!(!above.contains(-1));
}

#[test]
fn size_constraint_bounds() {
    let c = SizeConstraint::range(2, 5);
    assert_eq!(c.minimum(), 2);
    assert!(c.contains(2) && c.contains(5));
    assert!(!c.contains(1) && !c.contains(6));
    assert!(c.accepts(5) && !c.accepts(6));
    assert!(!c.is_fixed_within(5));
    let free = SizeConstraint::unconstrained();
    assert_eq!(free.minimum(), 0);
    assert!(free.contains(1_000_000));
    assert!(free.accepts(GENERAL_LENGTH_LIMIT - 1));
    assert!(!free.accepts(GENERAL_LENGTH_LIMIT));
    let wide = SizeConstraint::range(0, 100_000);
    assert!(wide.accepts(100_000));
    let open = SizeConstraint { min_size: Some(1), max_size: Some(2), extensible: true };
    assert!(open.accepts(0) && open.accepts(2) && open.accepts(16383));
    assert!(!open.accepts(16384));
    assert!(!open.is_fixed_within(2));
    let fixed = SizeConstraint::range(2, 2);
    assert!(fixed.is_fixed_within(2));
    assert!(fixed.is_fixed_within(16));
    assert!(!fixed.is_fixed_within(1));
    let open_fixed = SizeConstraint { min_size: Some(2), max_size: Some(2), extensible: true };
    assert!(!open_fixed.is_fixed_within(2));
}

#[test]
fn enumeration_indices() {
    let closed = EnumConstraint { root_values: vec![1, 2], ext_marker_index: None, ext_values: vec![] };
    assert!(closed.accepts(0) && closed.accepts(1));
    assert!(!closed.accepts(2));
    let open = EnumConstraint { root_values: vec![1, 2], ext_marker_index: Some(2), ext_values: vec![9] };
    assert!(open.accepts(2));
    assert!(!open.accepts(3));
    assert!(!open.accepts(usize::MAX));
    let stray = EnumConstraint { root_values: vec![1], ext_marker_index: None, ext_values: vec![9] };
    assert!(!stray.accepts(1));
}

#[test]
fn schema_admits_its_values_only() {
    let schema = Schema::Sequence {
        fields: vec![
            Schema::Integer(IntegerConstraint::range(0, 9)),
            Schema::SequenceOf {
                size: SizeConstraint::range(1, 2),
                element: Box::new(Schema::Choice {
                    alternatives: vec![Schema::Null, Schema::ObjectIdentifier],
                    extensible: false,
                }),
            },
        ],
    };
    let good = Value::Sequence(vec![
        Value::Integer(9),
        Value::SequenceOf(vec![Value::Choice(0, Box::new(Value::Null))]),
    ]);
    assert!(schema.admits(&good));
    assert!(!good.contains_oid());
    let with_oid = Value::Sequence(vec![
        Value::Integer(9),
        Value::SequenceOf(vec![
            Value::Choice(0, Box::new(Value::Null)),
            Value::Choice(1, Box::new(Value::ObjectIdentifier)),
        ]),
    ]);
    assert!(schema.admits(&with_oid));
    assert!(with_oid.contains_oid());
    let too_many = Value::Sequence(vec![
        Value::Integer(9),
        Value::SequenceOf((0..3).map(|_| Value::Choice(0, Box::new(Value::Null))).collect()),
    ]);
    assert!(!schema.admits(&too_many));
    let out_of_range = Value::Sequence(vec![Value::Integer(10), Value::SequenceOf(vec![Value::Choice(0, Box::new(Value::Null))])]);
    assert!(!schema.admits(&out_of_range));
    let wrong_choice = Value::Sequence(vec![
        Value::Integer(1),
        Value::SequenceOf(vec![Value::Choice(1, Box::new(Value::Null))]),
    ]);
    assert!(!schema.admits(&wrong_choice));
    assert!(!schema.admits(&Value::Null));
    assert!(!Value::Null.contains_oid());
    assert!(Value::ObjectIdentifier.contains_oid());
}

#[test]
fn extensible_integer_admits_every_value() {
    let c = IntegerConstraint { lower_bound: Some(0), upper_bound: Some(1), extensible: true };
    assert!(Schema::Integer(c).admits(&Value::Integer(i64::MIN)));
    assert!(!Schema::Integer(IntegerConstraint::range(0, 1)).admits(&Value::Integer(2)));
}

#[test]
fn clone_gives_an_equal_value() {
    let value = Value::Sequence(vec![
        Value::Boolean(true),
        Value::Integer(-7),
        Value::Enumerated(3),
        Value::OctetString(vec![1, 2, 3]),
        Value::BitString(vec![true, false]),
        Value::Null,
        Value::ObjectIdentifier,
        Value::SequenceOf(vec![Value::Choice(1, Box::new(Value::Integer(5)))]),
    ]);
    assert_eq!(value.clone(), value);
    assert_eq!(value.duplicate(), value);
}

#[test]
fn values_are_written_one_behind_the_other() {
    let schema = Schema::Integer(IntegerConstraint::range(0, 7));
    let mut buf = WireBuffer::new(false);
    assert_eq!(encode_value(&mut buf, &schema, &Value::Integer(5)), Ok(()));
    assert_eq!(encode_value(&mut buf, &Schema::Boolean, &Value::Boolean(true)), Ok(()));
    assert_eq!(encode_value(&mut buf, &schema, &Value::Integer(8)), Err(ErrorKind::Encoding));
    assert_eq!(encode_value(&mut buf, &schema, &Value::Integer(2)), Ok(()));
    assert_eq!(buf.position(), (0, 7));
    let bytes = buf.into_bytes();
    assert_eq!(bytes, vec![0b1011_0100]);
    let mut buf = WireBuffer::from_bytes(&bytes, false);
    assert_eq!(decode_value(&mut buf, &schema), Ok(Value::Integer(5)));
    assert_eq!(decode_value(&mut buf, &Schema::Boolean), Ok(Value::Boolean(true)));
    assert_eq!(decode_value(&mut buf, &schema), Ok(Value::Integer(2)));
    assert_eq!(buf.position(), (0, 7));
    assert_eq!(decode_value(&mut buf, &schema), Err(ErrorKind::Encoding));
}

#[test]
fn decoders_on_a_buffer() {
    let colours = EnumConstraint { root_values: vec![0, 1, 2, 3], ext_marker_index: None, ext_values: vec![] };
    let mut buf = WireBuffer::from_bytes(&[0b1111_0000, 0b0110_0000], true);
    assert_eq!(decode_enumerated(&mut buf, &colours), Ok(3));
    assert_eq!(decode_bitstring(&mut buf, &SizeConstraint::range(0, 3)), Ok(vec![false, true, true]));
    assert_eq!(buf.position(), (1, 3));
    assert_eq!(decode_object_identifier(&mut buf), Err(ErrorKind::Encoding));
    assert_eq!(buf.position(), (1, 3));
}
