//! The entropy scheme as mathematics: what value a schema makes of a stream
//! of octets, and the octets that a value flattens to.
//!
//! Every leaf consumes as many whole octets as the choice among its values
//! needs, read as one big-endian number and reduced to the range of the
//! choice. Flattening writes the number that selects the value, in as many
//! octets.

use crate::numeric::{bit_width, octets_bits, packed};
use crate::per::rules::{from_twos_complement, twos_complement};
use crate::schema::{
    EnumConstraint, GENERAL_LENGTH_LIMIT, IntegerConstraint, Schema, SizeConstraint,
};
use crate::value::ValueView;
use vstd::prelude::*;

verus! {

/// The number that a sequence of octets spells, most significant first.
pub open spec fn be_value(bytes: Seq<u8>) -> nat
    decreases bytes.len(),
{
    if bytes.len() == 0 {
        0
    } else {
        256 * be_value(bytes.drop_last()) + bytes.last() as nat
    }
}

/// The `k` low octets of `x`, most significant first.
pub open spec fn be_bytes(k: nat, x: nat) -> Seq<u8>
    decreases k,
{
    if k == 0 {
        Seq::empty()
    } else {
        be_bytes((k - 1) as nat, x / 256).push((x % 256) as u8)
    }
}

/// The number of octets consumed to choose among `span + 1` alternatives.
pub open spec fn octets_for(span: nat) -> nat {
    (bit_width(span) + 7) / 8
}

/// The next `k` octets at `pos` as a number, and the position after them.
pub open spec fn draw(entropy: Seq<u8>, pos: nat, k: nat) -> Option<(nat, nat)> {
    if pos + k <= entropy.len() {
        Some((be_value(entropy.subrange(pos as int, (pos + k) as int)), pos + k))
    } else {
        None
    }
}

/// A number from zero to `span`, chosen by the octets at `pos`.
pub open spec fn pick(entropy: Seq<u8>, pos: nat, span: nat) -> Option<(nat, nat)> {
    match draw(entropy, pos, octets_for(span)) {
        None => None,
        Some((x, end)) => Some((x % (span + 1), end)),
    }
}

/// The octets that make `pick` choose `x` from zero to `span`.
pub open spec fn spend(span: nat, x: nat) -> Seq<u8> {
    be_bytes(octets_for(span), x)
}

/// The least and the greatest integer within the bounds of `c`.
pub open spec fn integer_range(c: IntegerConstraint) -> (int, int) {
    (
        match c.lower_bound {
            Some(lb) => lb as int,
            None => i64::MIN as int,
        },
        match c.upper_bound {
            Some(ub) => ub as int,
            None => i64::MAX as int,
        },
    )
}

/// Whether `c` bounds its integers at all.
pub open spec fn integer_is_bounded(c: IntegerConstraint) -> bool {
    c.lower_bound is Some || c.upper_bound is Some
}

/// Any 64-bit integer: eight octets in two's complement.
pub open spec fn generated_unconstrained(entropy: Seq<u8>, pos: nat) -> Option<(int, nat)> {
    match draw(entropy, pos, 8) {
        None => None,
        Some((x, end)) => Some((from_twos_complement(8, x), end)),
    }
}

/// An integer within the bounds of `c`: the least one plus a number picked
/// from the range, or any 64-bit integer where there are no bounds. No
/// integer is generated where the bounds leave none.
pub open spec fn generated_integer_root(c: IntegerConstraint, entropy: Seq<u8>, pos: nat) -> Option<
    (int, nat),
> {
    let (lo, hi) = integer_range(c);
    if !integer_is_bounded(c) {
        generated_unconstrained(entropy, pos)
    } else if lo > hi {
        None
    } else {
        match pick(entropy, pos, (hi - lo) as nat) {
            None => None,
            Some((x, end)) => Some((lo + x, end)),
        }
    }
}

/// An integer of `c`. An extensible type first picks whether the value is
/// any 64-bit integer or one within the bounds.
pub open spec fn generated_integer(c: IntegerConstraint, entropy: Seq<u8>, pos: nat) -> Option<
    (int, nat),
> {
    if !c.extensible {
        generated_integer_root(c, entropy, pos)
    } else {
        match pick(entropy, pos, 1) {
            None => None,
            Some((flag, next)) => if flag == 1 {
                generated_unconstrained(entropy, next)
            } else {
                generated_integer_root(c, entropy, next)
            },
        }
    }
}

/// The octets that generate `v` within the bounds of `c`.
pub open spec fn flattened_integer_root(c: IntegerConstraint, v: int) -> Seq<u8> {
    let (lo, hi) = integer_range(c);
    if !integer_is_bounded(c) {
        be_bytes(8, twos_complement(8, v))
    } else {
        spend((hi - lo) as nat, (v - lo) as nat)
    }
}

/// The octets that generate the integer `v` of `c`: for an extensible type,
/// an octet that tells whether the value lies within the bounds, then the
/// octets of the value.
pub open spec fn flattened_integer(c: IntegerConstraint, v: int) -> Seq<u8> {
    if !c.extensible {
        flattened_integer_root(c, v)
    } else if c.in_root(v) {
        seq![0u8] + flattened_integer_root(c, v)
    } else {
        seq![1u8] + be_bytes(8, twos_complement(8, v))
    }
}

/// The index of a root value; none where there is no root value.
pub open spec fn generated_enumerated_root(c: EnumConstraint, entropy: Seq<u8>, pos: nat) -> Option<
    (nat, nat),
> {
    if c.root_count() == 0 {
        None
    } else {
        pick(entropy, pos, (c.root_count() - 1) as nat)
    }
}

/// The index of a value of `c`. An extensible enumeration with extension
/// values first picks whether the value is one of them.
pub open spec fn generated_enumerated(c: EnumConstraint, entropy: Seq<u8>, pos: nat) -> Option<
    (nat, nat),
> {
    if !c.extensible() {
        generated_enumerated_root(c, entropy, pos)
    } else {
        match pick(entropy, pos, 1) {
            None => None,
            Some((flag, next)) => if flag == 1 && c.ext_count() > 0 {
                match pick(entropy, next, (c.ext_count() - 1) as nat) {
                    None => None,
                    Some((x, end)) => if c.root_count() + x > usize::MAX {
                        None
                    } else {
                        Some((c.root_count() + x, end))
                    },
                }
            } else {
                generated_enumerated_root(c, entropy, next)
            },
        }
    }
}

/// The octets that generate the index of a value of `c`.
pub open spec fn flattened_enumerated(c: EnumConstraint, index: nat) -> Seq<u8> {
    if index < c.root_count() {
        (if c.extensible() {
            seq![0u8]
        } else {
            Seq::empty()
        }) + spend((c.root_count() - 1) as nat, index)
    } else {
        seq![1u8] + spend((c.ext_count() - 1) as nat, (index - c.root_count()) as nat)
    }
}

/// The greatest size that is generated within the bounds of `c`: the upper
/// bound, or the greatest length that a general length determinant carries.
pub open spec fn greatest_size(c: SizeConstraint) -> nat {
    match c.max_size {
        Some(mx) => mx as nat,
        None => (GENERAL_LENGTH_LIMIT - 1) as nat,
    }
}

/// A size within the bounds of `c`; none where the bounds leave none.
pub open spec fn generated_size_root(c: SizeConstraint, entropy: Seq<u8>, pos: nat) -> Option<
    (nat, nat),
> {
    if c.lower() > greatest_size(c) {
        None
    } else {
        match pick(entropy, pos, (greatest_size(c) - c.lower()) as nat) {
            None => None,
            Some((x, end)) => Some((c.lower() + x, end)),
        }
    }
}

/// A size of `c`. An extensible size first picks whether the size is any
/// that a general length determinant carries or one within the bounds.
pub open spec fn generated_size(c: SizeConstraint, entropy: Seq<u8>, pos: nat) -> Option<
    (nat, nat),
> {
    if !c.extensible {
        generated_size_root(c, entropy, pos)
    } else {
        match pick(entropy, pos, 1) {
            None => None,
            Some((flag, next)) => if flag == 1 {
                pick(entropy, next, (GENERAL_LENGTH_LIMIT - 1) as nat)
            } else {
                generated_size_root(c, entropy, next)
            },
        }
    }
}

/// The octets that generate the size `len` within the bounds of `c`.
pub open spec fn flattened_size_root(c: SizeConstraint, len: nat) -> Seq<u8> {
    spend((greatest_size(c) - c.lower()) as nat, (len - c.lower()) as nat)
}

/// The octets that generate the size `len` of `c`.
pub open spec fn flattened_size(c: SizeConstraint, len: nat) -> Seq<u8> {
    if !c.extensible {
        flattened_size_root(c, len)
    } else if c.in_root(len) {
        seq![0u8] + flattened_size_root(c, len)
    } else {
        seq![1u8] + spend((GENERAL_LENGTH_LIMIT - 1) as nat, len)
    }
}

/// An octet string: a size, then as many octets taken as they come.
pub open spec fn generated_octet_string(c: SizeConstraint, entropy: Seq<u8>, pos: nat) -> Option<
    (Seq<u8>, nat),
> {
    match generated_size(c, entropy, pos) {
        None => None,
        Some((len, start)) => if start + len <= entropy.len() {
            Some((entropy.subrange(start as int, (start + len) as int), start + len))
        } else {
            None
        },
    }
}

/// A bit string: a size in bits, then the leading bits of as many octets as
/// hold them.
pub open spec fn generated_bit_string(c: SizeConstraint, entropy: Seq<u8>, pos: nat) -> Option<
    (Seq<bool>, nat),
> {
    match generated_size(c, entropy, pos) {
        None => None,
        Some((len, start)) => {
            let octets = (len + 7) / 8;
            if start + octets <= entropy.len() {
                Some(
                    (
                        octets_bits(
                            entropy.subrange(start as int, (start + octets) as int),
                        ).subrange(0, len as int),
                        start + octets,
                    ),
                )
            } else {
                None
            }
        },
    }
}

/// The value that `schema` makes of the octets at `pos`, and the position
/// after those consumed; nothing where the octets run out, or where the
/// schema has no value. An object identifier consumes nothing.
pub open spec fn generated(schema: Schema, entropy: Seq<u8>, pos: nat) -> Option<(ValueView, nat)>
    decreases schema, 0nat,
{
    match schema {
        Schema::Boolean => match pick(entropy, pos, 1) {
            None => None,
            Some((flag, end)) => Some((ValueView::Boolean(flag == 1), end)),
        },
        Schema::Integer(c) => match generated_integer(c, entropy, pos) {
            None => None,
            Some((x, end)) => Some((ValueView::Integer(x), end)),
        },
        Schema::Enumerated(c) => match generated_enumerated(c, entropy, pos) {
            None => None,
            Some((i, end)) => Some((ValueView::Enumerated(i), end)),
        },
        Schema::OctetString(c) => match generated_octet_string(c, entropy, pos) {
            None => None,
            Some((bytes, end)) => Some((ValueView::OctetString(bytes), end)),
        },
        Schema::BitString(c) => match generated_bit_string(c, entropy, pos) {
            None => None,
            Some((content, end)) => Some((ValueView::BitString(content), end)),
        },
        Schema::Null => Some((ValueView::Null, pos)),
        Schema::ObjectIdentifier => Some((ValueView::ObjectIdentifier, pos)),
        Schema::Sequence { fields } => match generated_fields(fields@, entropy, pos, fields@.len()) {
            None => None,
            Some((items, end)) => Some((ValueView::Sequence(items), end)),
        },
        Schema::SequenceOf { size, element } => match generated_size(size, entropy, pos) {
            None => None,
            Some((len, start)) => match generated_items(*element, entropy, start, len) {
                None => None,
                Some((items, end)) => Some((ValueView::SequenceOf(items), end)),
            },
        },
        Schema::Choice { alternatives, extensible } => if alternatives@.len() == 0 {
            None
        } else {
            match pick(entropy, pos, (alternatives@.len() - 1) as nat) {
                None => None,
                Some((index, start)) => match generated(
                    alternatives@[index as int],
                    entropy,
                    start,
                ) {
                    None => None,
                    Some((inner, end)) => Some((ValueView::Choice(index, Box::new(inner)), end)),
                },
            }
        },
    }
}

/// The first `n` fields of a sequence, generated one after the other.
pub open spec fn generated_fields(fields: Seq<Schema>, entropy: Seq<u8>, pos: nat, n: nat) -> Option<
    (Seq<ValueView>, nat),
>
    decreases fields, n,
{
    if n == 0 || n > fields.len() {
        Some((Seq::empty(), pos))
    } else {
        match generated_fields(fields, entropy, pos, (n - 1) as nat) {
            None => None,
            Some((items, next)) => match generated(fields[n - 1], entropy, next) {
                None => None,
                Some((item, end)) => Some((items.push(item), end)),
            },
        }
    }
}

/// `n` elements of a repetition, generated one after the other.
pub open spec fn generated_items(element: Schema, entropy: Seq<u8>, pos: nat, n: nat) -> Option<
    (Seq<ValueView>, nat),
>
    decreases element, n,
{
    if n == 0 {
        Some((Seq::empty(), pos))
    } else {
        match generated_items(element, entropy, pos, (n - 1) as nat) {
            None => None,
            Some((items, next)) => match generated(element, entropy, next) {
                None => None,
                Some((item, end)) => Some((items.push(item), end)),
            },
        }
    }
}

/// The octets that `v` flattens to under `schema`: those that generating
/// consumes in making `v`. Meaningful for values that conform to the schema.
pub open spec fn flattened(schema: Schema, v: ValueView) -> Seq<u8>
    decreases schema, 0nat,
{
    match schema {
        Schema::Boolean => seq![if v->Boolean_0 { 1u8 } else { 0u8 }],
        Schema::Integer(c) => flattened_integer(c, v->Integer_0),
        Schema::Enumerated(c) => flattened_enumerated(c, v->Enumerated_0),
        Schema::OctetString(c) => flattened_size(c, v->OctetString_0.len()) + v->OctetString_0,
        Schema::BitString(c) => flattened_size(c, v->BitString_0.len()) + packed(v->BitString_0),
        Schema::Null => Seq::empty(),
        Schema::ObjectIdentifier => Seq::empty(),
        Schema::Sequence { fields } => flattened_fields(fields@, v->Sequence_0, fields@.len()),
        Schema::SequenceOf { size, element } => flattened_size(size, v->SequenceOf_0.len())
            + flattened_items(*element, v->SequenceOf_0, v->SequenceOf_0.len()),
        Schema::Choice { alternatives, extensible } => {
            let index = spend((alternatives@.len() - 1) as nat, v->Choice_0);
            if v->Choice_0 < alternatives@.len() {
                index + flattened(alternatives@[v->Choice_0 as int], *v->Choice_1)
            } else {
                index
            }
        },
    }
}

/// The octets of the first `n` fields of a sequence, one after the other.
pub open spec fn flattened_fields(fields: Seq<Schema>, items: Seq<ValueView>, n: nat) -> Seq<u8>
    decreases fields, n,
{
    if n == 0 || n > fields.len() {
        Seq::empty()
    } else {
        flattened_fields(fields, items, (n - 1) as nat) + flattened(fields[n - 1], items[n - 1])
    }
}

/// The octets of the first `n` elements of a repetition, one after the
/// other.
pub open spec fn flattened_items(element: Schema, items: Seq<ValueView>, n: nat) -> Seq<u8>
    decreases element, n,
{
    if n == 0 {
        Seq::empty()
    } else {
        flattened_items(element, items, (n - 1) as nat) + flattened(element, items[n - 1])
    }
}

} // verus!
