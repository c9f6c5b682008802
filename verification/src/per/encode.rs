//! Encoders: one per kind, each appending to a wire buffer exactly the bits
//! that the rules give.

use crate::error::ErrorKind;
use crate::numeric::{
    lemma_octets_bits_push, lemma_packed, octet_power, octets_bits, packed, significant_bits,
};
use crate::per::rules::{
    SMALL_BITS, SMALL_OCTETS, bit_string_bits, choice_index_bits, enumerated_bits, fields_bits,
    general_length_bits, integer_bits, integer_root_bits, items_bits, lemma_octets_signed,
    lemma_octets_unsigned, length_bits, length_root_bits, octet_string_bits, padding,
    semi_constrained_bits, small_number_bits, unconstrained_bits, value_bits,
};
use crate::schema::{
    Codec, EnumConstraint, GENERAL_LENGTH_LIMIT, IntegerConstraint, Schema, SizeConstraint,
};
use crate::value::{
    Value, encodable, fields_encodable, items_encodable, lemma_encodable_sequence,
    lemma_encodable_sequence_of, lemma_views, views,
};
use crate::wire::WireBuffer;
use vstd::arithmetic::power2::{lemma2_to64, lemma2_to64_rest};
use vstd::prelude::*;

verus! {

/// Writes the padding that stands at the cursor where `active` holds.
fn write_padding(buf: &mut WireBuffer, active: bool)
    requires
        old(buf).writable(),
    ensures
        final(buf).writable(),
        final(buf).aligned() == old(buf).aligned(),
        final(buf).bits() == old(buf).bits() + padding(active, old(buf).cursor()),
        final(buf).cursor() == old(buf).cursor() + padding(active, old(buf).cursor()).len(),
{
    if active {
        buf.align_to_octet();
    } else {
        assert(buf.bits() + Seq::<bool>::empty() =~= buf.bits());
    }
}

/// Appends a boolean as one bit.
pub fn encode_bool(buf: &mut WireBuffer, value: bool)
    requires
        old(buf).writable(),
    ensures
        final(buf).writable(),
        final(buf).aligned() == old(buf).aligned(),
        final(buf).bits() == old(buf).bits() + seq![value],
{
    buf.write_bit(value);
    assert(buf.bits() =~= old(buf).bits() + seq![value]);
}

/// Appends a general length determinant. A length of 16384 or more is
/// refused with `Encoding`, and nothing is written.
pub fn encode_general_length(buf: &mut WireBuffer, len: usize) -> (r: Result<(), ErrorKind>)
    requires
        old(buf).writable(),
    ensures
        final(buf).writable(),
        final(buf).aligned() == old(buf).aligned(),
        match r {
            Ok(()) => len < GENERAL_LENGTH_LIMIT && final(buf).bits() == old(buf).bits()
                + general_length_bits(old(buf).aligned(), old(buf).cursor(), len as nat),
            Err(e) => e == ErrorKind::Encoding && len >= GENERAL_LENGTH_LIMIT && final(buf).bits()
                == old(buf).bits(),
        },
{
    if len >= GENERAL_LENGTH_LIMIT {
        return Err(ErrorKind::Encoding);
    }
    write_general_length(buf, len);
    Ok(())
}

/// Appends a general length determinant for a length that it can carry.
fn write_general_length(buf: &mut WireBuffer, len: usize)
    requires
        old(buf).writable(),
        len < GENERAL_LENGTH_LIMIT,
    ensures
        final(buf).writable(),
        final(buf).aligned() == old(buf).aligned(),
        final(buf).bits() == old(buf).bits() + general_length_bits(
            old(buf).aligned(),
            old(buf).cursor(),
            len as nat,
        ),
{
    let aligned = buf.is_aligned();
    write_padding(buf, aligned);
    if len < 128 {
        buf.write_bits(8, len as u64);
    } else {
        buf.write_bits(8, (128 + len / 256) as u64);
        buf.write_bits(8, (len % 256) as u64);
    }
    assert(buf.bits() =~= old(buf).bits() + general_length_bits(
        old(buf).aligned(),
        old(buf).cursor(),
        len as nat,
    ));
}

/// Appends a non-negative number of any size.
pub fn encode_semi_constrained(buf: &mut WireBuffer, x: u64)
    requires
        old(buf).writable(),
    ensures
        final(buf).writable(),
        final(buf).aligned() == old(buf).aligned(),
        final(buf).bits() == old(buf).bits() + semi_constrained_bits(
            old(buf).aligned(),
            old(buf).cursor(),
            x as nat,
        ),
{
    proof {
        lemma2_to64();
        lemma_octets_unsigned(x as nat);
    }
    let width = significant_bits(x);
    let k: u8 = if x == 0 {
        1
    } else {
        (width + 7) / 8
    };
    write_general_length(buf, k as usize);
    buf.write_bits(8 * k, x);
    assert(buf.bits() =~= old(buf).bits() + semi_constrained_bits(
        old(buf).aligned(),
        old(buf).cursor(),
        x as nat,
    ));
}

/// Appends an integer of any size in two's complement.
pub fn encode_unconstrained(buf: &mut WireBuffer, v: i64)
    requires
        old(buf).writable(),
    ensures
        final(buf).writable(),
        final(buf).aligned() == old(buf).aligned(),
        final(buf).bits() == old(buf).bits() + unconstrained_bits(
            old(buf).aligned(),
            old(buf).cursor(),
            v as int,
        ),
{
    proof {
        lemma2_to64();
        lemma2_to64_rest();
        lemma_octets_signed(v as int);
    }
    let magnitude: u64 = if v >= 0 {
        v as u64
    } else {
        (-(v + 1)) as u64
    };
    let k: u8 = significant_bits(magnitude) / 8 + 1;
    let rendered: u64 = if v >= 0 {
        v as u64
    } else {
        (octet_power(k) as i128 + v as i128) as u64
    };
    write_general_length(buf, k as usize);
    buf.write_bits(8 * k, rendered);
    assert(buf.bits() =~= old(buf).bits() + unconstrained_bits(
        old(buf).aligned(),
        old(buf).cursor(),
        v as int,
    ));
}

/// Appends an integer within the bounds of `c`.
fn encode_integer_root(buf: &mut WireBuffer, c: &IntegerConstraint, v: i64)
    requires
        old(buf).writable(),
        c.in_root(v as int),
    ensures
        final(buf).writable(),
        final(buf).aligned() == old(buf).aligned(),
        final(buf).bits() == old(buf).bits() + integer_root_bits(
            *c,
            old(buf).aligned(),
            old(buf).cursor(),
            v as int,
        ),
{
    match c.lower_bound {
        Some(lb) => {
            let offset: u64 = (v as i128 - lb as i128) as u64;
            match c.upper_bound {
                Some(ub) => {
                    let span: u64 = (ub as i128 - lb as i128) as u64;
                    buf.write_bits(significant_bits(span), offset);
                },
                None => {
                    encode_semi_constrained(buf, offset);
                },
            }
        },
        None => {
            encode_unconstrained(buf, v);
        },
    }
}

/// Appends an integer. A value outside the bounds of a type that is not
/// extensible is refused with `Encoding`, and nothing is written.
pub fn encode_integer(buf: &mut WireBuffer, c: &IntegerConstraint, v: i64) -> (r: Result<
    (),
    ErrorKind,
>)
    requires
        old(buf).writable(),
    ensures
        final(buf).writable(),
        final(buf).aligned() == old(buf).aligned(),
        match r {
            Ok(()) => c.admits(v as int) && final(buf).bits() == old(buf).bits() + integer_bits(
                *c,
                old(buf).aligned(),
                old(buf).cursor(),
                v as int,
            ),
            Err(e) => e == ErrorKind::Encoding && !c.admits(v as int) && final(buf).bits() == old(
                buf,
            ).bits(),
        },
{
    let inside = c.contains(v);
    if !c.extensible {
        if !inside {
            return Err(ErrorKind::Encoding);
        }
        encode_integer_root(buf, c, v);
    } else if inside {
        buf.write_bit(false);
        encode_integer_root(buf, c, v);
        assert(buf.bits() =~= old(buf).bits() + integer_bits(
            *c,
            old(buf).aligned(),
            old(buf).cursor(),
            v as int,
        ));
    } else {
        buf.write_bit(true);
        encode_unconstrained(buf, v);
        assert(buf.bits() =~= old(buf).bits() + integer_bits(
            *c,
            old(buf).aligned(),
            old(buf).cursor(),
            v as int,
        ));
    }
    Ok(())
}

/// Appends a normally small number.
pub fn encode_small_number(buf: &mut WireBuffer, x: u64)
    requires
        old(buf).writable(),
    ensures
        final(buf).writable(),
        final(buf).aligned() == old(buf).aligned(),
        final(buf).bits() == old(buf).bits() + small_number_bits(
            old(buf).aligned(),
            old(buf).cursor(),
            x as nat,
        ),
{
    if x < 64 {
        buf.write_bit(false);
        buf.write_bits(6, x);
    } else {
        buf.write_bit(true);
        encode_semi_constrained(buf, x);
    }
    assert(buf.bits() =~= old(buf).bits() + small_number_bits(
        old(buf).aligned(),
        old(buf).cursor(),
        x as nat,
    ));
}

/// Appends the index of an enumeration's value. An index that names neither
/// a root value nor an extension value is refused with `Encoding`, and
/// nothing is written.
pub fn encode_enumerated(buf: &mut WireBuffer, c: &EnumConstraint, index: usize) -> (r: Result<
    (),
    ErrorKind,
>)
    requires
        old(buf).writable(),
    ensures
        final(buf).writable(),
        final(buf).aligned() == old(buf).aligned(),
        match r {
            Ok(()) => c.admits(index as nat) && final(buf).bits() == old(buf).bits()
                + enumerated_bits(*c, old(buf).aligned(), old(buf).cursor(), index as nat),
            Err(e) => e == ErrorKind::Encoding && !c.admits(index as nat) && final(buf).bits()
                == old(buf).bits(),
        },
{
    if !c.accepts(index) {
        return Err(ErrorKind::Encoding);
    }
    let roots = c.root_values.len();
    if index < roots {
        if c.ext_marker_index.is_some() {
            buf.write_bit(false);
        }
        buf.write_bits(significant_bits((roots - 1) as u64), index as u64);
    } else {
        buf.write_bit(true);
        encode_small_number(buf, (index - roots) as u64);
    }
    assert(buf.bits() =~= old(buf).bits() + enumerated_bits(
        *c,
        old(buf).aligned(),
        old(buf).cursor(),
        index as nat,
    ));
    Ok(())
}

/// Appends a size within the bounds of `c`.
fn encode_length_root(buf: &mut WireBuffer, c: &SizeConstraint, len: usize)
    requires
        old(buf).writable(),
        c.in_root(len as nat),
        c.admits(len as nat),
    ensures
        final(buf).writable(),
        final(buf).aligned() == old(buf).aligned(),
        final(buf).bits() == old(buf).bits() + length_root_bits(
            *c,
            old(buf).aligned(),
            old(buf).cursor(),
            len as nat,
        ),
{
    match c.max_size {
        Some(mx) => {
            let lower = c.minimum();
            buf.write_bits(significant_bits((mx - lower) as u64), (len - lower) as u64);
        },
        None => {
            write_general_length(buf, len);
        },
    }
}

/// Appends the length determinant of a string or a repetition. A size that
/// the constraint does not admit is refused with `Encoding`, and nothing is
/// written.
pub fn encode_length_determinant(buf: &mut WireBuffer, c: &SizeConstraint, len: usize) -> (r:
    Result<(), ErrorKind>)
    requires
        old(buf).writable(),
    ensures
        final(buf).writable(),
        final(buf).aligned() == old(buf).aligned(),
        match r {
            Ok(()) => c.admits(len as nat) && final(buf).bits() == old(buf).bits() + length_bits(
                *c,
                old(buf).aligned(),
                old(buf).cursor(),
                len as nat,
            ),
            Err(e) => e == ErrorKind::Encoding && !c.admits(len as nat) && final(buf).bits()
                == old(buf).bits(),
        },
{
    if !c.accepts(len) {
        return Err(ErrorKind::Encoding);
    }
    if !c.extensible {
        encode_length_root(buf, c, len);
    } else if c.contains(len) {
        buf.write_bit(false);
        encode_length_root(buf, c, len);
    } else {
        buf.write_bit(true);
        write_general_length(buf, len);
    }
    assert(buf.bits() =~= old(buf).bits() + length_bits(
        *c,
        old(buf).aligned(),
        old(buf).cursor(),
        len as nat,
    ));
    Ok(())
}

/// Appends an octet string: its length, padding where the content is
/// aligned, and its octets. A size that the constraint does not admit is
/// refused with `Encoding`, and nothing is written.
pub fn encode_octetstring(buf: &mut WireBuffer, c: &SizeConstraint, bytes: &[u8]) -> (r: Result<
    (),
    ErrorKind,
>)
    requires
        old(buf).writable(),
    ensures
        final(buf).writable(),
        final(buf).aligned() == old(buf).aligned(),
        match r {
            Ok(()) => c.admits(bytes@.len()) && final(buf).bits() == old(buf).bits()
                + octet_string_bits(*c, old(buf).aligned(), old(buf).cursor(), bytes@),
            Err(e) => e == ErrorKind::Encoding && !c.admits(bytes@.len()) && final(buf).bits()
                == old(buf).bits(),
        },
{
    let len = bytes.len();
    match encode_length_determinant(buf, c, len) {
        Err(e) => {
            return Err(e);
        },
        Ok(()) => {},
    }
    let gap = buf.is_aligned() && len > 0 && !c.is_fixed_within(SMALL_OCTETS);
    write_padding(buf, gap);
    let ghost head = buf.bits();
    let mut i: usize = 0;
    assert(head + octets_bits(bytes@.subrange(0, 0)) =~= head);
    while i < len
        invariant
            i <= len == bytes@.len(),
            buf.writable(),
            buf.aligned() == old(buf).aligned(),
            buf.bits() == head + octets_bits(bytes@.subrange(0, i as int)),
        decreases len - i,
    {
        buf.write_bits(8, bytes[i] as u64);
        proof {
            lemma_octets_bits_push(bytes@.subrange(0, i as int), bytes@[i as int]);
            assert(bytes@.subrange(0, i as int).push(bytes@[i as int]) =~= bytes@.subrange(
                0,
                i + 1,
            ));
            assert(buf.bits() =~= head + octets_bits(bytes@.subrange(0, i + 1)));
        }
        i += 1;
    }
    assert(bytes@.subrange(0, len as int) =~= bytes@);
    assert(buf.bits() =~= old(buf).bits() + octet_string_bits(
        *c,
        old(buf).aligned(),
        old(buf).cursor(),
        bytes@,
    ));
    Ok(())
}

/// Appends a bit string: its length in bits, padding where the content is
/// aligned, and its bits. A size that the constraint does not admit is
/// refused with `Encoding`, and nothing is written.
pub fn encode_bitstring(buf: &mut WireBuffer, c: &SizeConstraint, content: &[bool]) -> (r: Result<
    (),
    ErrorKind,
>)
    requires
        old(buf).writable(),
    ensures
        final(buf).writable(),
        final(buf).aligned() == old(buf).aligned(),
        match r {
            Ok(()) => c.admits(content@.len()) && final(buf).bits() == old(buf).bits()
                + bit_string_bits(*c, old(buf).aligned(), old(buf).cursor(), content@),
            Err(e) => e == ErrorKind::Encoding && !c.admits(content@.len()) && final(buf).bits()
                == old(buf).bits(),
        },
{
    let len = content.len();
    match encode_length_determinant(buf, c, len) {
        Err(e) => {
            return Err(e);
        },
        Ok(()) => {},
    }
    let gap = buf.is_aligned() && len > 0 && !c.is_fixed_within(SMALL_BITS);
    write_padding(buf, gap);
    let ghost head = buf.bits();
    let mut i: usize = 0;
    assert(head + content@.subrange(0, 0) =~= head);
    while i < len
        invariant
            i <= len == content@.len(),
            buf.writable(),
            buf.aligned() == old(buf).aligned(),
            buf.bits() == head + content@.subrange(0, i as int),
        decreases len - i,
    {
        buf.write_bit(content[i]);
        assert(buf.bits() =~= head + content@.subrange(0, i + 1));
        i += 1;
    }
    assert(content@.subrange(0, len as int) =~= content@);
    assert(buf.bits() =~= old(buf).bits() + bit_string_bits(
        *c,
        old(buf).aligned(),
        old(buf).cursor(),
        content@,
    ));
    Ok(())
}

/// Appends a null, which takes no bits.
pub fn encode_null(buf: &mut WireBuffer)
    requires
        old(buf).writable(),
    ensures
        *final(buf) == *old(buf),
{
}

/// Object identifiers are not supported: always refuses with `Encoding` and
/// writes nothing.
pub fn encode_object_identifier(buf: &mut WireBuffer) -> (r: Result<(), ErrorKind>)
    ensures
        r == Err::<(), ErrorKind>(ErrorKind::Encoding),
        *final(buf) == *old(buf),
{
    Err(ErrorKind::Encoding)
}

/// Appends `value` as `schema` describes it. A value that does not conform
/// to the schema, or that holds an object identifier, is refused with
/// `Encoding`; what was written before the fault was met stays in the buffer.
pub fn encode_value(buf: &mut WireBuffer, schema: &Schema, value: &Value) -> (r: Result<
    (),
    ErrorKind,
>)
    requires
        old(buf).writable(),
    ensures
        final(buf).writable(),
        final(buf).aligned() == old(buf).aligned(),
        match r {
            Ok(()) => encodable(*schema, value@) && final(buf).bits() == old(buf).bits()
                + value_bits(*schema, value@, old(buf).aligned(), old(buf).cursor()),
            Err(e) => e == ErrorKind::Encoding && !encodable(*schema, value@),
        },
    decreases schema, 0nat,
{
    let ghost aligned = buf.aligned();
    let ghost origin = buf.cursor();
    let ghost before = buf.bits();
    match (schema, value) {
        (Schema::Boolean, Value::Boolean(b)) => {
            encode_bool(buf, *b);
            Ok(())
        },
        (Schema::Integer(c), Value::Integer(x)) => encode_integer(buf, c, *x),
        (Schema::Enumerated(c), Value::Enumerated(i)) => encode_enumerated(buf, c, *i),
        (Schema::OctetString(c), Value::OctetString(bytes)) => encode_octetstring(
            buf,
            c,
            bytes.as_slice(),
        ),
        (Schema::BitString(c), Value::BitString(content)) => encode_bitstring(
            buf,
            c,
            content.as_slice(),
        ),
        (Schema::Null, Value::Null) => {
            encode_null(buf);
            assert(buf.bits() =~= before + Seq::<bool>::empty());
            Ok(())
        },
        (Schema::ObjectIdentifier, Value::ObjectIdentifier) => encode_object_identifier(buf),
        (Schema::Sequence { fields }, Value::Sequence(items)) => {
            proof {
                lemma_encodable_sequence(*schema, views(items@));
                assert(decreases_to!(schema => fields));
            }
            encode_fields(buf, fields, items)
        },
        (Schema::SequenceOf { size, element }, Value::SequenceOf(items)) => {
            proof {
                lemma_views(items@);
                lemma_encodable_sequence_of(*schema, views(items@));
            }
            match encode_length_determinant(buf, size, items.len()) {
                Err(e) => {
                    return Err(e);
                },
                Ok(()) => {},
            }
            proof {
                assert(decreases_to!(schema => element));
            }
            match encode_items(buf, element, items) {
                Err(e) => {
                    return Err(e);
                },
                Ok(()) => {},
            }
            assert(buf.bits() =~= before + value_bits(*schema, value@, aligned, origin));
            Ok(())
        },
        (Schema::Choice { alternatives, extensible }, Value::Choice(index, inner)) => {
            proof {
                assert(decreases_to!(schema => alternatives));
            }
            encode_choice(buf, alternatives, *extensible, *index, inner)
        },
        _ => Err(ErrorKind::Encoding),
    }
}

/// Appends the index of a choice's alternative and the alternative's value.
fn encode_choice(
    buf: &mut WireBuffer,
    alternatives: &Vec<Schema>,
    extensible: bool,
    index: usize,
    inner: &Value,
) -> (r: Result<(), ErrorKind>)
    requires
        old(buf).writable(),
    ensures
        final(buf).writable(),
        final(buf).aligned() == old(buf).aligned(),
        match r {
            Ok(()) => {
                let head = choice_index_bits(alternatives@.len(), extensible, index as nat);
                &&& index < alternatives@.len()
                &&& encodable(alternatives@[index as int], inner@)
                &&& final(buf).bits() == old(buf).bits() + (head + value_bits(
                    alternatives@[index as int],
                    inner@,
                    old(buf).aligned(),
                    old(buf).cursor() + head.len(),
                ))
            },
            Err(e) => e == ErrorKind::Encoding && !(index < alternatives@.len() && encodable(
                alternatives@[index as int],
                inner@,
            )),
        },
    decreases alternatives, 1nat,
{
    let ghost before = buf.bits();
    let count = alternatives.len();
    if index >= count {
        return Err(ErrorKind::Encoding);
    }
    if extensible {
        buf.write_bit(false);
    }
    buf.write_bits(significant_bits((count - 1) as u64), index as u64);
    let ghost head = choice_index_bits(count as nat, extensible, index as nat);
    assert(buf.bits() =~= before + head);
    assert(decreases_to!(alternatives => alternatives[index as int]));
    match encode_value(buf, &alternatives[index], inner) {
        Err(e) => {
            return Err(e);
        },
        Ok(()) => {},
    }
    assert(buf.bits() =~= before + (head + value_bits(
        alternatives@[index as int],
        inner@,
        old(buf).aligned(),
        old(buf).cursor() + head.len(),
    )));
    Ok(())
}

/// Appends the fields of a sequence, one after the other.
fn encode_fields(buf: &mut WireBuffer, fields: &Vec<Schema>, items: &Vec<Value>) -> (r: Result<
    (),
    ErrorKind,
>)
    requires
        old(buf).writable(),
    ensures
        final(buf).writable(),
        final(buf).aligned() == old(buf).aligned(),
        match r {
            Ok(()) => fields_encodable(fields@, views(items@)) && final(buf).bits() == old(
                buf,
            ).bits() + fields_bits(
                fields@,
                views(items@),
                old(buf).aligned(),
                old(buf).cursor(),
                fields@.len(),
            ),
            Err(e) => e == ErrorKind::Encoding && !fields_encodable(fields@, views(items@)),
        },
    decreases fields, 1nat,
{
    let ghost aligned = buf.aligned();
    let ghost origin = buf.cursor();
    let ghost before = buf.bits();
    let ghost models = views(items@);
    proof {
        lemma_views(items@);
    }
    if items.len() != fields.len() {
        return Err(ErrorKind::Encoding);
    }
    let mut i: usize = 0;
    assert(buf.bits() =~= before + fields_bits(fields@, models, aligned, origin, 0));
    while i < fields.len()
        invariant
            i <= fields.len() == items.len(),
            models == views(items@),
            models.len() == items.len(),
            forall|j: int| 0 <= j < items.len() ==> #[trigger] models[j] == items[j]@,
            origin == before.len(),
            buf.writable(),
            buf.aligned() == aligned,
            aligned == old(buf).aligned(),
            buf.bits() == before + fields_bits(fields@, models, aligned, origin, i as nat),
            forall|j: int| 0 <= j < i ==> #[trigger] encodable(fields@[j], models[j]),
        decreases fields.len() - i,
    {
        assert(decreases_to!(fields => fields[i as int]));
        match encode_value(buf, &fields[i], &items[i]) {
            Err(e) => {
                assert(!encodable(fields@[i as int], models[i as int]));
                return Err(e);
            },
            Ok(()) => {},
        }
        assert(buf.bits() =~= before + fields_bits(fields@, models, aligned, origin, (i + 1) as nat));
        i += 1;
    }
    Ok(())
}

/// Appends the elements of a repetition, one after the other.
fn encode_items(buf: &mut WireBuffer, element: &Schema, items: &Vec<Value>) -> (r: Result<
    (),
    ErrorKind,
>)
    requires
        old(buf).writable(),
    ensures
        final(buf).writable(),
        final(buf).aligned() == old(buf).aligned(),
        match r {
            Ok(()) => items_encodable(*element, views(items@)) && final(buf).bits() == old(
                buf,
            ).bits() + items_bits(
                *element,
                views(items@),
                old(buf).aligned(),
                old(buf).cursor(),
                items@.len(),
            ),
            Err(e) => e == ErrorKind::Encoding && !items_encodable(*element, views(items@)),
        },
    decreases element, 1nat,
{
    let ghost aligned = buf.aligned();
    let ghost origin = buf.cursor();
    let ghost before = buf.bits();
    let ghost models = views(items@);
    proof {
        lemma_views(items@);
    }
    let mut i: usize = 0;
    assert(buf.bits() =~= before + items_bits(*element, models, aligned, origin, 0));
    while i < items.len()
        invariant
            i <= items.len(),
            models == views(items@),
            models.len() == items.len(),
            forall|j: int| 0 <= j < items.len() ==> #[trigger] models[j] == items[j]@,
            origin == before.len(),
            buf.writable(),
            buf.aligned() == aligned,
            aligned == old(buf).aligned(),
            buf.bits() == before + items_bits(*element, models, aligned, origin, i as nat),
            forall|j: int| 0 <= j < i ==> #[trigger] encodable(*element, models[j]),
        decreases items.len() - i,
    {
        match encode_value(buf, element, &items[i]) {
            Err(e) => {
                assert(!encodable(*element, models[i as int]));
                return Err(e);
            },
            Ok(()) => {},
        }
        assert(buf.bits() =~= before + items_bits(*element, models, aligned, origin, (i + 1) as nat));
        i += 1;
    }
    Ok(())
}

/// Encodes `value` as `schema` describes it, into whole octets: the last
/// one is filled up with zero bits. A value that does not conform to the
/// schema, or that holds an object identifier, is refused with `Encoding`.
pub fn per_encode(schema: &Schema, value: &Value, codec: Codec) -> (r: Result<Vec<u8>, ErrorKind>)
    ensures
        match r {
            Ok(bytes) => encodable(*schema, value@) && bytes@ == packed(
                value_bits(*schema, value@, codec.aligned(), 0),
            ),
            Err(e) => e == ErrorKind::Encoding && !encodable(*schema, value@),
        },
{
    let mut buf = WireBuffer::new(codec.is_aligned());
    match encode_value(&mut buf, schema, value) {
        Err(e) => Err(e),
        Ok(()) => {
            let ghost bits = buf.bits();
            assert(bits =~= value_bits(*schema, value@, codec.aligned(), 0));
            let bytes = buf.into_bytes();
            proof {
                lemma_packed(bits, bytes@);
            }
            Ok(bytes)
        },
    }
}

} // verus!
