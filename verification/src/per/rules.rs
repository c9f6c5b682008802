//! The packed encoding as mathematics: for each kind, the bits that a value
//! is written as, and what reading at a position of a bit sequence yields.
//!
//! Both are functions of the position at which the field starts, because the
//! aligned variant pads to octet boundaries. The two variants share every rule
//! here; they differ only through `padding`.

use crate::numeric::{
    bit_width, bits_of, lemma_bit_width_bounds, lemma_bit_width_le, lemma_pow2_monotone, octets_at,
    octets_bits, pad_len, value_of, window, zeros,
};
use crate::schema::{EnumConstraint, IntegerConstraint, Schema, SizeConstraint};
use crate::value::ValueView;
use vstd::arithmetic::power2::{lemma2_to64, lemma2_to64_rest, lemma_pow2_unfold, pow2};
use vstd::prelude::*;

verus! {

/// The padding that the aligned variant inserts at `pos`; none in the
/// unaligned variant.
pub open spec fn padding(aligned: bool, pos: nat) -> Seq<bool> {
    if aligned {
        zeros(pad_len(pos))
    } else {
        Seq::empty()
    }
}

/// The next `n` bits at `pos` as a number, and the position after them.
pub open spec fn take(bits: Seq<bool>, pos: nat, n: nat) -> Option<(nat, nat)> {
    if pos + n <= bits.len() {
        Some((value_of(window(bits, pos, n)), pos + n))
    } else {
        None
    }
}

/// The position after the padding at `pos`, if the sequence reaches that far.
pub open spec fn skip_padding(bits: Seq<bool>, aligned: bool, pos: nat) -> Option<nat> {
    let next = pos + padding(aligned, pos).len();
    if next <= bits.len() {
        Some(next)
    } else {
        None
    }
}

/// A general length determinant: one octet for lengths below 128, two octets
/// with the leading bits `10` for lengths below 16384. Larger lengths are not
/// carried.
pub open spec fn general_length_bits(aligned: bool, pos: nat, len: nat) -> Seq<bool> {
    padding(aligned, pos) + if len < 128 {
        bits_of(8, len)
    } else {
        bits_of(8, 128 + len / 256) + bits_of(8, len % 256)
    }
}

/// Reads what `general_length_bits` writes; leading bits `11`, which would
/// start a fragment, are refused.
pub open spec fn read_general_length(bits: Seq<bool>, aligned: bool, pos: nat) -> Option<
    (nat, nat),
> {
    match skip_padding(bits, aligned, pos) {
        None => None,
        Some(start) => match take(bits, start, 8) {
            None => None,
            Some((first, after)) => if first < 128 {
                Some((first, after))
            } else if first < 192 {
                match take(bits, after, 8) {
                    None => None,
                    Some((second, end)) => Some((((first - 128) * 256 + second) as nat, end)),
                }
            } else {
                None
            },
        },
    }
}

/// The least number of octets, at least one, that hold `x`.
pub open spec fn octets_unsigned(x: nat) -> nat {
    if x == 0 {
        1
    } else {
        (bit_width(x) + 7) / 8
    }
}

/// The least number of octets that hold `v` in two's complement.
pub open spec fn octets_signed(v: int) -> nat {
    if v >= 0 {
        bit_width(v as nat) / 8 + 1
    } else {
        bit_width((-v - 1) as nat) / 8 + 1
    }
}

/// `v` in two's complement of `k` octets, as a natural number.
pub open spec fn twos_complement(k: nat, v: int) -> nat {
    if v >= 0 {
        v as nat
    } else {
        (pow2(8 * k) + v) as nat
    }
}

/// The integer that the `k`-octet number `u` stands for in two's complement.
pub open spec fn from_twos_complement(k: nat, u: nat) -> int {
    if k > 0 && u >= pow2((8 * k - 1) as nat) {
        u - pow2(8 * k)
    } else {
        u as int
    }
}

/// A non-negative number of any size: its octet count as a general length
/// determinant, then its octets.
pub open spec fn semi_constrained_bits(aligned: bool, pos: nat, x: nat) -> Seq<bool> {
    general_length_bits(aligned, pos, octets_unsigned(x)) + bits_of(8 * octets_unsigned(x), x)
}

/// Reads what `semi_constrained_bits` writes. At most eight octets are
/// accepted.
pub open spec fn read_semi_constrained(bits: Seq<bool>, aligned: bool, pos: nat) -> Option<
    (nat, nat),
> {
    match read_general_length(bits, aligned, pos) {
        None => None,
        Some((k, start)) => if k == 0 || k > 8 {
            None
        } else {
            take(bits, start, 8 * k)
        },
    }
}

/// An integer of any size: its octet count as a general length determinant,
/// then its octets in two's complement.
pub open spec fn unconstrained_bits(aligned: bool, pos: nat, v: int) -> Seq<bool> {
    general_length_bits(aligned, pos, octets_signed(v)) + bits_of(
        8 * octets_signed(v),
        twos_complement(octets_signed(v), v),
    )
}

/// Reads what `unconstrained_bits` writes. At most eight octets are accepted.
pub open spec fn read_unconstrained(bits: Seq<bool>, aligned: bool, pos: nat) -> Option<
    (int, nat),
> {
    match read_general_length(bits, aligned, pos) {
        None => None,
        Some((k, start)) => if k == 0 || k > 8 {
            None
        } else {
            match take(bits, start, 8 * k) {
                None => None,
                Some((u, end)) => Some((from_twos_complement(k, u), end)),
            }
        },
    }
}

/// An integer within its bounds. With both bounds, the offset from the lower
/// one in exactly as many bits as the range needs; with a lower bound only,
/// the offset as a non-negative number of any size; otherwise the integer in
/// two's complement.
pub open spec fn integer_root_bits(c: IntegerConstraint, aligned: bool, pos: nat, v: int) -> Seq<
    bool,
> {
    match (c.lower_bound, c.upper_bound) {
        (Some(lb), Some(ub)) => bits_of(bit_width((ub - lb) as nat), (v - lb) as nat),
        (Some(lb), None) => semi_constrained_bits(aligned, pos, (v - lb) as nat),
        (None, _) => unconstrained_bits(aligned, pos, v),
    }
}

/// An integer. An extensible type starts with a bit that is set when the
/// value lies outside the bounds; such a value follows as an unconstrained
/// integer.
pub open spec fn integer_bits(c: IntegerConstraint, aligned: bool, pos: nat, v: int) -> Seq<bool> {
    if !c.extensible {
        integer_root_bits(c, aligned, pos, v)
    } else if c.in_root(v) {
        seq![false] + integer_root_bits(c, aligned, pos + 1, v)
    } else {
        seq![true] + unconstrained_bits(aligned, pos + 1, v)
    }
}

/// Reads an integer within its bounds; a value outside them is refused, and
/// so is one that does not fit 64 bits.
pub open spec fn read_integer_root(
    c: IntegerConstraint,
    bits: Seq<bool>,
    aligned: bool,
    pos: nat,
) -> Option<(int, nat)> {
    match (c.lower_bound, c.upper_bound) {
        (Some(lb), Some(ub)) => if lb > ub {
            None
        } else {
            match take(bits, pos, bit_width((ub - lb) as nat)) {
                None => None,
                Some((x, end)) => if x > ub - lb {
                    None
                } else {
                    Some((lb + x, end))
                },
            }
        },
        (Some(lb), None) => match read_semi_constrained(bits, aligned, pos) {
            None => None,
            Some((x, end)) => if lb + x > i64::MAX {
                None
            } else {
                Some((lb + x, end))
            },
        },
        (None, Some(ub)) => match read_unconstrained(bits, aligned, pos) {
            None => None,
            Some((v, end)) => if v > ub {
                None
            } else {
                Some((v, end))
            },
        },
        (None, None) => read_unconstrained(bits, aligned, pos),
    }
}

/// Reads an integer. Where the extension bit is set, the bounds play no part.
pub open spec fn read_integer(c: IntegerConstraint, bits: Seq<bool>, aligned: bool, pos: nat) -> Option<
    (int, nat),
> {
    if !c.extensible {
        read_integer_root(c, bits, aligned, pos)
    } else {
        match take(bits, pos, 1) {
            None => None,
            Some((flag, next)) => if flag == 1 {
                read_unconstrained(bits, aligned, next)
            } else {
                read_integer_root(c, bits, aligned, next)
            },
        }
    }
}

/// A normally small number: below 64 in six bits after a clear bit, otherwise
/// as a non-negative number of any size after a set bit.
pub open spec fn small_number_bits(aligned: bool, pos: nat, x: nat) -> Seq<bool> {
    if x < 64 {
        seq![false] + bits_of(6, x)
    } else {
        seq![true] + semi_constrained_bits(aligned, pos + 1, x)
    }
}

/// Reads what `small_number_bits` writes.
pub open spec fn read_small_number(bits: Seq<bool>, aligned: bool, pos: nat) -> Option<(nat, nat)> {
    match take(bits, pos, 1) {
        None => None,
        Some((flag, next)) => if flag == 1 {
            read_semi_constrained(bits, aligned, next)
        } else {
            take(bits, next, 6)
        },
    }
}

/// The index of an enumeration's value. A root value is its index in as many
/// bits as the number of root values needs; an extension value is its
/// position among the extension values as a normally small number. An
/// extensible enumeration starts with a bit that tells the two apart.
pub open spec fn enumerated_bits(c: EnumConstraint, aligned: bool, pos: nat, index: nat) -> Seq<
    bool,
> {
    if index < c.root_count() {
        (if c.extensible() {
            seq![false]
        } else {
            Seq::empty()
        }) + bits_of(bit_width((c.root_count() - 1) as nat), index)
    } else {
        seq![true] + small_number_bits(aligned, pos + 1, (index - c.root_count()) as nat)
    }
}

/// Reads a root index; one that names no root value is refused.
pub open spec fn read_enumerated_root(c: EnumConstraint, bits: Seq<bool>, pos: nat) -> Option<
    (nat, nat),
> {
    if c.root_count() == 0 {
        None
    } else {
        match take(bits, pos, bit_width((c.root_count() - 1) as nat)) {
            None => None,
            Some((x, end)) => if x >= c.root_count() {
                None
            } else {
                Some((x, end))
            },
        }
    }
}

/// Reads the position of an extension value and gives its index; a position
/// past the extension values is refused, and so is an index that does not
/// fit the machine's size type. The root values play no part but for their
/// number.
pub open spec fn read_enumerated_extension(
    c: EnumConstraint,
    bits: Seq<bool>,
    aligned: bool,
    pos: nat,
) -> Option<(nat, nat)> {
    match read_small_number(bits, aligned, pos) {
        None => None,
        Some((x, end)) => if x >= c.ext_count() || c.root_count() + x > usize::MAX {
            None
        } else {
            Some((c.root_count() + x, end))
        },
    }
}

/// Reads the index of an enumeration's value. Where the extension bit is
/// set, the index is found among the extension values alone.
pub open spec fn read_enumerated(c: EnumConstraint, bits: Seq<bool>, aligned: bool, pos: nat) -> Option<
    (nat, nat),
> {
    if !c.extensible() {
        read_enumerated_root(c, bits, pos)
    } else {
        match take(bits, pos, 1) {
            None => None,
            Some((flag, next)) => if flag == 1 {
                read_enumerated_extension(c, bits, aligned, next)
            } else {
                read_enumerated_root(c, bits, next)
            },
        }
    }
}

/// A size within its bounds: with an upper bound, the offset from the lower
/// one in exactly as many bits as the range needs; without, a general length
/// determinant.
pub open spec fn length_root_bits(c: SizeConstraint, aligned: bool, pos: nat, len: nat) -> Seq<
    bool,
> {
    match c.max_size {
        Some(mx) => bits_of(bit_width((mx - c.lower()) as nat), (len - c.lower()) as nat),
        None => general_length_bits(aligned, pos, len),
    }
}

/// The length determinant of a string or a repetition. An extensible size
/// starts with a bit that is set when the size lies outside the bounds; such
/// a size follows as a general length determinant.
pub open spec fn length_bits(c: SizeConstraint, aligned: bool, pos: nat, len: nat) -> Seq<bool> {
    if !c.extensible {
        length_root_bits(c, aligned, pos, len)
    } else if c.in_root(len) {
        seq![false] + length_root_bits(c, aligned, pos + 1, len)
    } else {
        seq![true] + general_length_bits(aligned, pos + 1, len)
    }
}

/// Reads a size within its bounds; a size outside them is refused.
pub open spec fn read_length_root(c: SizeConstraint, bits: Seq<bool>, aligned: bool, pos: nat) -> Option<
    (nat, nat),
> {
    match c.max_size {
        Some(mx) => if c.lower() > mx {
            None
        } else {
            match take(bits, pos, bit_width((mx - c.lower()) as nat)) {
                None => None,
                Some((x, end)) => if x > mx - c.lower() {
                    None
                } else {
                    Some((c.lower() + x, end))
                },
            }
        },
        None => match read_general_length(bits, aligned, pos) {
            None => None,
            Some((len, end)) => if len < c.lower() {
                None
            } else {
                Some((len, end))
            },
        },
    }
}

/// Reads the length determinant of a string or a repetition. Where the
/// extension bit is set, the size is not held against the bounds.
pub open spec fn read_length(c: SizeConstraint, bits: Seq<bool>, aligned: bool, pos: nat) -> Option<
    (nat, nat),
> {
    if !c.extensible {
        read_length_root(c, bits, aligned, pos)
    } else {
        match take(bits, pos, 1) {
            None => None,
            Some((flag, next)) => if flag == 1 {
                read_general_length(bits, aligned, next)
            } else {
                read_length_root(c, bits, aligned, next)
            },
        }
    }
}

/// Whether the content of a string of `len` units is padded to an octet
/// boundary: in the aligned variant, unless the string is empty or its type
/// fixes its size at no more than `small` units.
pub open spec fn content_is_aligned(c: SizeConstraint, aligned: bool, len: nat, small: nat) -> bool {
    aligned && len > 0 && !c.fixed_within(small)
}

/// A string of fixed size up to this many octets is not padded.
pub const SMALL_OCTETS: usize = 2;

/// A string of fixed size up to this many bits is not padded.
pub const SMALL_BITS: usize = 16;

/// An octet string: its length, padding where the content is aligned, and
/// its octets.
pub open spec fn octet_string_bits(c: SizeConstraint, aligned: bool, pos: nat, bytes: Seq<u8>) -> Seq<
    bool,
> {
    let length = length_bits(c, aligned, pos, bytes.len());
    let gap = padding(
        content_is_aligned(c, aligned, bytes.len(), SMALL_OCTETS as nat),
        pos + length.len(),
    );
    length + gap + octets_bits(bytes)
}

/// Reads an octet string: its length, the padding where the content is
/// aligned, and as many octets.
pub open spec fn read_octet_string(c: SizeConstraint, bits: Seq<bool>, aligned: bool, pos: nat) -> Option<
    (Seq<u8>, nat),
> {
    match read_length(c, bits, aligned, pos) {
        None => None,
        Some((len, after)) => match skip_padding(
            bits,
            content_is_aligned(c, aligned, len, SMALL_OCTETS as nat),
            after,
        ) {
            None => None,
            Some(start) => if start + 8 * len <= bits.len() {
                Some((octets_at(bits, start, len), start + 8 * len))
            } else {
                None
            },
        },
    }
}

/// A bit string: its length in bits, padding where the content is aligned,
/// and its bits.
pub open spec fn bit_string_bits(c: SizeConstraint, aligned: bool, pos: nat, content: Seq<bool>) -> Seq<
    bool,
> {
    let length = length_bits(c, aligned, pos, content.len());
    let gap = padding(
        content_is_aligned(c, aligned, content.len(), SMALL_BITS as nat),
        pos + length.len(),
    );
    length + gap + content
}

/// Reads a bit string: its length in bits, the padding where the content is
/// aligned, and as many bits.
pub open spec fn read_bit_string(c: SizeConstraint, bits: Seq<bool>, aligned: bool, pos: nat) -> Option<
    (Seq<bool>, nat),
> {
    match read_length(c, bits, aligned, pos) {
        None => None,
        Some((len, after)) => match skip_padding(
            bits,
            content_is_aligned(c, aligned, len, SMALL_BITS as nat),
            after,
        ) {
            None => None,
            Some(start) => if start + len <= bits.len() {
                Some((window(bits, start, len), start + len))
            } else {
                None
            },
        },
    }
}

/// The index of a choice's alternative: after a clear bit where the choice
/// is extensible, in as many bits as the number of alternatives needs.
pub open spec fn choice_index_bits(count: nat, extensible: bool, index: nat) -> Seq<bool> {
    (if extensible {
        seq![false]
    } else {
        Seq::empty()
    }) + bits_of(bit_width((count - 1) as nat), index)
}

/// Reads the index of a choice's alternative; a set extension bit is
/// refused, and so is an index that names no alternative.
pub open spec fn read_choice_index(count: nat, extensible: bool, bits: Seq<bool>, pos: nat) -> Option<
    (nat, nat),
> {
    let start = if extensible {
        match take(bits, pos, 1) {
            None => None,
            Some((flag, next)) => if flag == 1 {
                None
            } else {
                Some(next)
            },
        }
    } else {
        Some(pos)
    };
    match start {
        None => None,
        Some(from) => if count == 0 {
            None
        } else {
            match take(bits, from, bit_width((count - 1) as nat)) {
                None => None,
                Some((x, end)) => if x >= count {
                    None
                } else {
                    Some((x, end))
                },
            }
        },
    }
}

/// The bits that `v` is written as under `schema`, in a field that starts at
/// position `pos`. Meaningful for values that conform to the schema and hold
/// no object identifier; no other value is encoded.
pub open spec fn value_bits(schema: Schema, v: ValueView, aligned: bool, pos: nat) -> Seq<bool>
    decreases schema, 0nat,
{
    match schema {
        Schema::Boolean => seq![v->Boolean_0],
        Schema::Integer(c) => integer_bits(c, aligned, pos, v->Integer_0),
        Schema::Enumerated(c) => enumerated_bits(c, aligned, pos, v->Enumerated_0),
        Schema::OctetString(c) => octet_string_bits(c, aligned, pos, v->OctetString_0),
        Schema::BitString(c) => bit_string_bits(c, aligned, pos, v->BitString_0),
        Schema::Null => Seq::empty(),
        Schema::ObjectIdentifier => Seq::empty(),
        Schema::Sequence { fields } => fields_bits(
            fields@,
            v->Sequence_0,
            aligned,
            pos,
            fields@.len(),
        ),
        Schema::SequenceOf { size, element } => {
            let length = length_bits(size, aligned, pos, v->SequenceOf_0.len());
            length + items_bits(
                *element,
                v->SequenceOf_0,
                aligned,
                pos + length.len(),
                v->SequenceOf_0.len(),
            )
        },
        Schema::Choice { alternatives, extensible } => {
            let index = choice_index_bits(alternatives@.len(), extensible, v->Choice_0);
            if v->Choice_0 < alternatives@.len() {
                index + value_bits(
                    alternatives@[v->Choice_0 as int],
                    *v->Choice_1,
                    aligned,
                    pos + index.len(),
                )
            } else {
                index
            }
        },
    }
}

/// The bits of the first `n` fields of a sequence, one after the other.
pub open spec fn fields_bits(
    fields: Seq<Schema>,
    items: Seq<ValueView>,
    aligned: bool,
    pos: nat,
    n: nat,
) -> Seq<bool>
    decreases fields, n,
{
    if n == 0 || n > fields.len() {
        Seq::empty()
    } else {
        let before = fields_bits(fields, items, aligned, pos, (n - 1) as nat);
        before + value_bits(fields[n - 1], items[n - 1], aligned, pos + before.len())
    }
}

/// The bits of the first `n` elements of a repetition, one after the other.
pub open spec fn items_bits(
    element: Schema,
    items: Seq<ValueView>,
    aligned: bool,
    pos: nat,
    n: nat,
) -> Seq<bool>
    decreases element, n,
{
    if n == 0 {
        Seq::empty()
    } else {
        let before = items_bits(element, items, aligned, pos, (n - 1) as nat);
        before + value_bits(element, items[n - 1], aligned, pos + before.len())
    }
}

/// What reading a value of `schema` at position `pos` yields: the value and
/// the position after it, or nothing where the bits are no encoding of such a
/// value or end too early.
pub open spec fn read_value(schema: Schema, bits: Seq<bool>, aligned: bool, pos: nat) -> Option<
    (ValueView, nat),
>
    decreases schema, 0nat,
{
    match schema {
        Schema::Boolean => match take(bits, pos, 1) {
            None => None,
            Some((flag, end)) => Some((ValueView::Boolean(flag == 1), end)),
        },
        Schema::Integer(c) => match read_integer(c, bits, aligned, pos) {
            None => None,
            Some((x, end)) => Some((ValueView::Integer(x), end)),
        },
        Schema::Enumerated(c) => match read_enumerated(c, bits, aligned, pos) {
            None => None,
            Some((i, end)) => Some((ValueView::Enumerated(i), end)),
        },
        Schema::OctetString(c) => match read_octet_string(c, bits, aligned, pos) {
            None => None,
            Some((bytes, end)) => Some((ValueView::OctetString(bytes), end)),
        },
        Schema::BitString(c) => match read_bit_string(c, bits, aligned, pos) {
            None => None,
            Some((content, end)) => Some((ValueView::BitString(content), end)),
        },
        Schema::Null => Some((ValueView::Null, pos)),
        Schema::ObjectIdentifier => None,
        Schema::Sequence { fields } => match read_fields(fields@, bits, aligned, pos, fields@.len()) {
            None => None,
            Some((items, end)) => Some((ValueView::Sequence(items), end)),
        },
        Schema::SequenceOf { size, element } => match read_length(size, bits, aligned, pos) {
            None => None,
            Some((len, start)) => match read_items(*element, bits, aligned, start, len) {
                None => None,
                Some((items, end)) => Some((ValueView::SequenceOf(items), end)),
            },
        },
        Schema::Choice { alternatives, extensible } => match read_choice_index(
            alternatives@.len(),
            extensible,
            bits,
            pos,
        ) {
            None => None,
            Some((index, start)) => if index < alternatives@.len() {
                match read_value(alternatives@[index as int], bits, aligned, start) {
                    None => None,
                    Some((inner, end)) => Some((ValueView::Choice(index, Box::new(inner)), end)),
                }
            } else {
                None
            },
        },
    }
}

/// What reading the first `n` fields of a sequence yields.
pub open spec fn read_fields(
    fields: Seq<Schema>,
    bits: Seq<bool>,
    aligned: bool,
    pos: nat,
    n: nat,
) -> Option<(Seq<ValueView>, nat)>
    decreases fields, n,
{
    if n == 0 || n > fields.len() {
        Some((Seq::empty(), pos))
    } else {
        match read_fields(fields, bits, aligned, pos, (n - 1) as nat) {
            None => None,
            Some((items, next)) => match read_value(fields[n - 1], bits, aligned, next) {
                None => None,
                Some((item, end)) => Some((items.push(item), end)),
            },
        }
    }
}

/// What reading exactly `n` elements of a repetition yields.
pub open spec fn read_items(
    element: Schema,
    bits: Seq<bool>,
    aligned: bool,
    pos: nat,
    n: nat,
) -> Option<(Seq<ValueView>, nat)>
    decreases element, n,
{
    if n == 0 {
        Some((Seq::empty(), pos))
    } else {
        match read_items(element, bits, aligned, pos, (n - 1) as nat) {
            None => None,
            Some((items, next)) => match read_value(element, bits, aligned, next) {
                None => None,
                Some((item, end)) => Some((items.push(item), end)),
            },
        }
    }
}

/// A number below `2^64` takes one to eight octets, and fits them.
pub proof fn lemma_octets_unsigned(x: nat)
    requires
        x < pow2(64),
    ensures
        1 <= octets_unsigned(x) <= 8,
        x < pow2(8 * octets_unsigned(x)),
        bit_width(x) <= 8 * octets_unsigned(x),
{
    lemma_bit_width_le(x, 64);
    lemma_bit_width_bounds(x);
    lemma_pow2_monotone(bit_width(x), 8 * octets_unsigned(x));
}

/// A 64-bit integer takes one to eight octets in two's complement, and its
/// rendering fits them.
pub proof fn lemma_octets_signed(v: int)
    requires
        i64::MIN <= v <= i64::MAX,
    ensures
        1 <= octets_signed(v) <= 8,
        -pow2((8 * octets_signed(v) - 1) as nat) <= v < pow2((8 * octets_signed(v) - 1) as nat),
        twos_complement(octets_signed(v), v) < pow2(8 * octets_signed(v)),
        pow2(8 * octets_signed(v)) == 2 * pow2((8 * octets_signed(v) - 1) as nat),
{
    let m: nat = if v >= 0 {
        v as nat
    } else {
        (-v - 1) as nat
    };
    let k = octets_signed(v);
    lemma2_to64();
    lemma2_to64_rest();
    lemma_bit_width_le(m, 63);
    lemma_bit_width_bounds(m);
    lemma_pow2_monotone(bit_width(m), (8 * k - 1) as nat);
    lemma_pow2_unfold(8 * k);
}

} // verus!
