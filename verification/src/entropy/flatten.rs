//! Flattening a value back into the entropy that generates it.

use crate::entropy::scheme::{
    be_bytes, flattened, flattened_enumerated, flattened_fields, flattened_integer,
    flattened_integer_root, flattened_items, flattened_size, flattened_size_root, spend,
};
use crate::error::ErrorKind;
use crate::numeric::{lemma_packed, packed, significant_bits};
use crate::per::rules::twos_complement;
use crate::schema::{
    EnumConstraint, GENERAL_LENGTH_LIMIT, IntegerConstraint, Schema, SizeConstraint,
};
use crate::value::{
    Value, conforms, fields_conform, items_conform, lemma_conforms_sequence,
    lemma_conforms_sequence_of, lemma_views, views,
};
use crate::wire::WireBuffer;
use vstd::arithmetic::power2::{lemma2_to64, lemma2_to64_rest};
use vstd::prelude::*;

verus! {

/// Appends the `k` low octets of `x`, most significant first.
fn put_octets(out: &mut Vec<u8>, k: u8, x: u64)
    ensures
        final(out)@ == old(out)@ + be_bytes(k as nat, x as nat),
    decreases k,
{
    if k > 0 {
        put_octets(out, k - 1, x / 256);
        out.push((x % 256) as u8);
    }
    assert(out@ =~= old(out)@ + be_bytes(k as nat, x as nat));
}

/// Appends the octets that pick `x` from zero to `span`.
fn spend_number(out: &mut Vec<u8>, span: u64, x: u64)
    ensures
        final(out)@ == old(out)@ + spend(span as nat, x as nat),
{
    put_octets(out, (significant_bits(span) + 7) / 8, x);
}

/// Appends the octet that picks between two ways.
fn spend_flag(out: &mut Vec<u8>, flag: bool)
    ensures
        final(out)@ == old(out)@ + seq![if flag { 1u8 } else { 0u8 }],
{
    out.push(if flag { 1 } else { 0 });
    assert(out@ =~= old(out)@ + seq![if flag { 1u8 } else { 0u8 }]);
}

/// Appends every octet of `bytes`.
fn put_all(out: &mut Vec<u8>, bytes: &[u8])
    ensures
        final(out)@ == old(out)@ + bytes@,
{
    let mut i: usize = 0;
    assert(out@ =~= old(out)@ + bytes@.subrange(0, 0));
    while i < bytes.len()
        invariant
            i <= bytes@.len(),
            out@ == old(out)@ + bytes@.subrange(0, i as int),
        decreases bytes.len() - i,
    {
        out.push(bytes[i]);
        assert(out@ =~= old(out)@ + bytes@.subrange(0, i + 1));
        i += 1;
    }
    assert(bytes@.subrange(0, bytes@.len() as int) =~= bytes@);
}

/// Appends the eight octets of `v` in two's complement.
fn flatten_unconstrained(out: &mut Vec<u8>, v: i64)
    ensures
        final(out)@ == old(out)@ + be_bytes(8, twos_complement(8, v as int)),
{
    proof {
        lemma2_to64();
        lemma2_to64_rest();
    }
    let rendered: u64 = if v >= 0 {
        v as u64
    } else {
        (0x1_0000_0000_0000_0000i128 + v as i128) as u64
    };
    put_octets(out, 8, rendered);
}

/// Appends the octets that generate `v` within the bounds of `c`.
fn flatten_integer_root(out: &mut Vec<u8>, c: &IntegerConstraint, v: i64)
    requires
        c.in_root(v as int),
    ensures
        final(out)@ == old(out)@ + flattened_integer_root(*c, v as int),
{
    if c.lower_bound.is_none() && c.upper_bound.is_none() {
        flatten_unconstrained(out, v);
    } else {
        let lo: i64 = match c.lower_bound {
            Some(lb) => lb,
            None => i64::MIN,
        };
        let hi: i64 = match c.upper_bound {
            Some(ub) => ub,
            None => i64::MAX,
        };
        let span: u64 = (hi as i128 - lo as i128) as u64;
        spend_number(out, span, (v as i128 - lo as i128) as u64);
    }
}

/// Appends the octets that generate the integer `v` of `c`.
pub fn flatten_integer(out: &mut Vec<u8>, c: &IntegerConstraint, v: i64)
    requires
        c.admits(v as int),
    ensures
        final(out)@ == old(out)@ + flattened_integer(*c, v as int),
{
    if !c.extensible {
        flatten_integer_root(out, c, v);
    } else if c.contains(v) {
        spend_flag(out, false);
        flatten_integer_root(out, c, v);
        assert(out@ =~= old(out)@ + flattened_integer(*c, v as int));
    } else {
        spend_flag(out, true);
        flatten_unconstrained(out, v);
        assert(out@ =~= old(out)@ + flattened_integer(*c, v as int));
    }
}

/// Appends the octets that generate the index of a value of `c`.
pub fn flatten_enumerated(out: &mut Vec<u8>, c: &EnumConstraint, index: usize)
    requires
        c.admits(index as nat),
    ensures
        final(out)@ == old(out)@ + flattened_enumerated(*c, index as nat),
{
    let roots = c.root_values.len();
    if index < roots {
        if c.ext_marker_index.is_some() {
            spend_flag(out, false);
        }
        spend_number(out, (roots - 1) as u64, index as u64);
    } else {
        spend_flag(out, true);
        spend_number(out, (c.ext_values.len() - 1) as u64, (index - roots) as u64);
    }
    assert(out@ =~= old(out)@ + flattened_enumerated(*c, index as nat));
}

/// Appends the octets that generate the size `len` within the bounds of `c`.
fn flatten_size_root(out: &mut Vec<u8>, c: &SizeConstraint, len: usize)
    requires
        c.in_root(len as nat),
        c.admits(len as nat),
    ensures
        final(out)@ == old(out)@ + flattened_size_root(*c, len as nat),
{
    let lower = c.minimum();
    let greatest: usize = match c.max_size {
        Some(mx) => mx,
        None => GENERAL_LENGTH_LIMIT - 1,
    };
    spend_number(out, (greatest - lower) as u64, (len - lower) as u64);
}

/// Appends the octets that generate the size `len` of `c`.
pub fn flatten_size(out: &mut Vec<u8>, c: &SizeConstraint, len: usize)
    requires
        c.admits(len as nat),
    ensures
        final(out)@ == old(out)@ + flattened_size(*c, len as nat),
{
    if !c.extensible {
        flatten_size_root(out, c, len);
    } else if c.contains(len) {
        spend_flag(out, false);
        flatten_size_root(out, c, len);
        assert(out@ =~= old(out)@ + flattened_size(*c, len as nat));
    } else {
        spend_flag(out, true);
        spend_number(out, (GENERAL_LENGTH_LIMIT - 1) as u64, len as u64);
        assert(out@ =~= old(out)@ + flattened_size(*c, len as nat));
    }
}

/// Appends the octets that hold `content`, the last one filled up with zero
/// bits.
fn put_bits(out: &mut Vec<u8>, content: &[bool])
    ensures
        final(out)@ == old(out)@ + packed(content@),
{
    let mut buf = WireBuffer::new(false);
    let mut i: usize = 0;
    assert(buf.bits() =~= content@.subrange(0, 0));
    while i < content.len()
        invariant
            i <= content@.len(),
            buf.writable(),
            buf.bits() == content@.subrange(0, i as int),
        decreases content.len() - i,
    {
        buf.write_bit(content[i]);
        assert(buf.bits() =~= content@.subrange(0, i + 1));
        i += 1;
    }
    assert(content@.subrange(0, content@.len() as int) =~= content@);
    let bytes = buf.into_bytes();
    proof {
        lemma_packed(content@, bytes@);
    }
    put_all(out, bytes.as_slice());
}

/// Appends the octets that generate `value` under `schema`.
pub fn flatten(out: &mut Vec<u8>, schema: &Schema, value: &Value)
    requires
        conforms(*schema, value@),
    ensures
        final(out)@ == old(out)@ + flattened(*schema, value@),
    decreases schema, 0nat,
{
    match (schema, value) {
        (Schema::Boolean, Value::Boolean(b)) => {
            spend_flag(out, *b);
        },
        (Schema::Integer(c), Value::Integer(x)) => {
            flatten_integer(out, c, *x);
        },
        (Schema::Enumerated(c), Value::Enumerated(i)) => {
            flatten_enumerated(out, c, *i);
        },
        (Schema::OctetString(c), Value::OctetString(bytes)) => {
            flatten_size(out, c, bytes.len());
            put_all(out, bytes.as_slice());
            assert(out@ =~= old(out)@ + flattened(*schema, value@));
        },
        (Schema::BitString(c), Value::BitString(content)) => {
            flatten_size(out, c, content.len());
            put_bits(out, content.as_slice());
            assert(out@ =~= old(out)@ + flattened(*schema, value@));
        },
        (Schema::Null, Value::Null) => {
            assert(out@ =~= old(out)@ + flattened(*schema, value@));
        },
        (Schema::ObjectIdentifier, Value::ObjectIdentifier) => {
            assert(out@ =~= old(out)@ + flattened(*schema, value@));
        },
        (Schema::Sequence { fields }, Value::Sequence(items)) => {
            proof {
                lemma_conforms_sequence(*schema, views(items@));
                assert(decreases_to!(schema => fields));
            }
            flatten_fields(out, fields, items);
        },
        (Schema::SequenceOf { size, element }, Value::SequenceOf(items)) => {
            proof {
                lemma_views(items@);
                lemma_conforms_sequence_of(*schema, views(items@));
            }
            flatten_size(out, size, items.len());
            proof {
                assert(decreases_to!(schema => element));
            }
            flatten_items(out, element, items);
            assert(out@ =~= old(out)@ + flattened(*schema, value@));
        },
        (Schema::Choice { alternatives, extensible }, Value::Choice(index, inner)) => {
            spend_number(out, (alternatives.len() - 1) as u64, *index as u64);
            proof {
                assert(decreases_to!(schema => alternatives[*index as int]));
            }
            flatten(out, &alternatives[*index], inner);
            assert(out@ =~= old(out)@ + flattened(*schema, value@));
        },
        _ => {},
    }
}

/// Appends the octets that generate the fields of a sequence.
fn flatten_fields(out: &mut Vec<u8>, fields: &Vec<Schema>, items: &Vec<Value>)
    requires
        fields_conform(fields@, views(items@)),
    ensures
        final(out)@ == old(out)@ + flattened_fields(fields@, views(items@), fields@.len()),
    decreases fields, 1nat,
{
    let ghost models = views(items@);
    proof {
        lemma_views(items@);
    }
    let mut i: usize = 0;
    assert(out@ =~= old(out)@ + flattened_fields(fields@, models, 0));
    while i < fields.len()
        invariant
            i <= fields.len() == items.len(),
            models == views(items@),
            models.len() == items.len(),
            forall|j: int| 0 <= j < items.len() ==> #[trigger] models[j] == items[j]@,
            fields_conform(fields@, models),
            out@ == old(out)@ + flattened_fields(fields@, models, i as nat),
        decreases fields.len() - i,
    {
        assert(conforms(fields@[i as int], models[i as int]));
        assert(decreases_to!(fields => fields[i as int]));
        flatten(out, &fields[i], &items[i]);
        assert(out@ =~= old(out)@ + flattened_fields(fields@, models, (i + 1) as nat));
        i += 1;
    }
}

/// Appends the octets that generate the elements of a repetition.
fn flatten_items(out: &mut Vec<u8>, element: &Schema, items: &Vec<Value>)
    requires
        items_conform(*element, views(items@)),
    ensures
        final(out)@ == old(out)@ + flattened_items(*element, views(items@), items@.len()),
    decreases element, 1nat,
{
    let ghost models = views(items@);
    proof {
        lemma_views(items@);
    }
    let mut i: usize = 0;
    assert(out@ =~= old(out)@ + flattened_items(*element, models, 0));
    while i < items.len()
        invariant
            i <= items.len(),
            models == views(items@),
            models.len() == items.len(),
            forall|j: int| 0 <= j < items.len() ==> #[trigger] models[j] == items[j]@,
            items_conform(*element, models),
            out@ == old(out)@ + flattened_items(*element, models, i as nat),
        decreases items.len() - i,
    {
        assert(conforms(*element, models[i as int]));
        flatten(out, element, &items[i]);
        assert(out@ =~= old(out)@ + flattened_items(*element, models, (i + 1) as nat));
        i += 1;
    }
}

/// Flattens `value` into the entropy that generates it under `schema`, as
/// long as that takes no more than `capacity` octets. A value that does not
/// conform to the schema is refused with `Entropic`; one whose entropy
/// exceeds the capacity, with `Truncated`.
pub fn to_entropy(schema: &Schema, value: &Value, capacity: usize) -> (r: Result<
    Vec<u8>,
    ErrorKind,
>)
    ensures
        match r {
            Ok(bytes) => {
                &&& conforms(*schema, value@)
                &&& bytes@ == flattened(*schema, value@)
                &&& bytes@.len() <= capacity
            },
            Err(e) => {
                ||| e == ErrorKind::Entropic && !conforms(*schema, value@)
                ||| e == ErrorKind::Truncated && conforms(*schema, value@) && flattened(
                    *schema,
                    value@,
                ).len() > capacity
            },
        },
{
    if !schema.admits(value) {
        return Err(ErrorKind::Entropic);
    }
    let mut out: Vec<u8> = Vec::new();
    flatten(&mut out, schema, value);
    assert(out@ =~= flattened(*schema, value@));
    if out.len() > capacity {
        return Err(ErrorKind::Truncated);
    }
    Ok(out)
}

} // verus!
