//! What holds of the packed encoding: reading back what was written gives the
//! value again, fields take exactly the bits that their constraints call for,
//! and what lies behind a value plays no part in reading it.

use crate::numeric::{
    bit_width, bits_of, ceil_log2, lemma_bit_width_bounds, lemma_bits_of_len, lemma_octets_at,
    lemma_octets_bits_packed, lemma_pow2_monotone, lemma_value_of_bits_of, lemma_value_of_bound,
    octets_at, octets_bits, packed, pad_len, value_of, window, zeros,
};
use crate::per::rules::{
    SMALL_BITS, SMALL_OCTETS, bit_string_bits, choice_index_bits, content_is_aligned,
    enumerated_bits, fields_bits, from_twos_complement, general_length_bits, integer_bits,
    integer_root_bits, items_bits, lemma_octets_signed, lemma_octets_unsigned, length_bits,
    length_root_bits, octet_string_bits, octets_signed, octets_unsigned, padding, read_bit_string,
    read_choice_index, read_enumerated, read_enumerated_extension, read_enumerated_root,
    read_fields,
    read_general_length, read_integer, read_integer_root, read_items, read_length,
    read_length_root, read_octet_string, read_semi_constrained, read_small_number,
    read_unconstrained, read_value, semi_constrained_bits, skip_padding, small_number_bits, take,
    twos_complement, unconstrained_bits, value_bits,
};
use crate::schema::{EnumConstraint, IntegerConstraint, Schema, SizeConstraint};
use crate::value::{
    ValueView, conforms, encodable, fields_encodable, items_encodable, lemma_encodable_sequence,
    lemma_encodable_sequence_of, lemma_has_oid_item,
};
use vstd::arithmetic::power2::{lemma2_to64, lemma2_to64_rest, lemma_pow2_unfold, pow2};
use vstd::prelude::*;

verus! {

/// Whether `code` stands in `bits` at position `pos`.
pub open spec fn stands_at(bits: Seq<bool>, pos: nat, code: Seq<bool>) -> bool {
    &&& pos + code.len() <= bits.len()
    &&& window(bits, pos, code.len()) == code
}

/// Where two codes stand one after the other, each of them stands.
pub proof fn lemma_stands_split(bits: Seq<bool>, pos: nat, first: Seq<bool>, second: Seq<bool>)
    requires
        stands_at(bits, pos, first + second),
    ensures
        stands_at(bits, pos, first),
        stands_at(bits, pos + first.len(), second),
{
    let whole = window(bits, pos, (first + second).len());
    assert(window(bits, pos, first.len()) =~= whole.subrange(0, first.len() as int));
    assert(whole.subrange(0, first.len() as int) =~= first);
    assert(window(bits, pos + first.len(), second.len()) =~= whole.subrange(
        first.len() as int,
        whole.len() as int,
    ));
    assert(whole.subrange(first.len() as int, whole.len() as int) =~= second);
}

/// Three codes one after the other, grouped either way.
pub proof fn lemma_concat(first: Seq<bool>, second: Seq<bool>, third: Seq<bool>)
    ensures
        first + second + third == first + (second + third),
        (first + second + third).len() == first.len() + second.len() + third.len(),
{
    assert(first + second + third =~= first + (second + third));
}

/// A number written in `n` bits, which it fits, is read back from them.
pub proof fn lemma_take_reads(bits: Seq<bool>, pos: nat, n: nat, x: nat)
    requires
        x < pow2(n),
        stands_at(bits, pos, bits_of(n, x)),
    ensures
        take(bits, pos, n) == Some((x, pos + n)),
{
    lemma_bits_of_len(n, x);
    lemma_value_of_bits_of(n, x);
}

/// A single bit is read back as one or zero.
pub proof fn lemma_take_flag(bits: Seq<bool>, pos: nat, flag: bool)
    requires
        stands_at(bits, pos, seq![flag]),
    ensures
        take(bits, pos, 1) == Some((if flag { 1nat } else { 0nat }, pos + 1)),
{
    let one = window(bits, pos, 1);
    assert(one == seq![flag]);
    assert(one.drop_last().len() == 0);
    assert(value_of(one.drop_last()) == 0);
    assert(one.last() == flag);
}

/// Padding that stands at `pos` is passed over.
pub proof fn lemma_skip_reads(bits: Seq<bool>, aligned: bool, pos: nat)
    requires
        stands_at(bits, pos, padding(aligned, pos)),
    ensures
        skip_padding(bits, aligned, pos) == Some(pos + padding(aligned, pos).len()),
{
}

/// A general length determinant is read back.
pub proof fn lemma_general_length_roundtrip(bits: Seq<bool>, aligned: bool, pos: nat, len: nat)
    requires
        len < 16384,
        stands_at(bits, pos, general_length_bits(aligned, pos, len)),
    ensures
        read_general_length(bits, aligned, pos) == Some(
            (len, pos + general_length_bits(aligned, pos, len).len()),
        ),
{
    lemma2_to64();
    let gap = padding(aligned, pos);
    let start = pos + gap.len();
    if len < 128 {
        lemma_stands_split(bits, pos, gap, bits_of(8, len));
        lemma_skip_reads(bits, aligned, pos);
        lemma_take_reads(bits, start, 8, len);
        lemma_bits_of_len(8, len);
    } else {
        let high = 128 + len / 256;
        let low = len % 256;
        lemma_bits_of_len(8, high);
        lemma_bits_of_len(8, low);
        lemma_stands_split(bits, pos, gap, bits_of(8, high) + bits_of(8, low));
        lemma_stands_split(bits, start, bits_of(8, high), bits_of(8, low));
        lemma_skip_reads(bits, aligned, pos);
        lemma_take_reads(bits, start, 8, high);
        lemma_take_reads(bits, start + 8, 8, low);
    }
}

/// A non-negative number below `2^64` is read back.
pub proof fn lemma_semi_constrained_roundtrip(bits: Seq<bool>, aligned: bool, pos: nat, x: nat)
    requires
        x < pow2(64),
        stands_at(bits, pos, semi_constrained_bits(aligned, pos, x)),
    ensures
        read_semi_constrained(bits, aligned, pos) == Some(
            (x, pos + semi_constrained_bits(aligned, pos, x).len()),
        ),
{
    let k = octets_unsigned(x);
    let length = general_length_bits(aligned, pos, k);
    lemma_octets_unsigned(x);
    lemma_bits_of_len(8 * k, x);
    lemma_stands_split(bits, pos, length, bits_of(8 * k, x));
    lemma_general_length_roundtrip(bits, aligned, pos, k);
    lemma_take_reads(bits, pos + length.len(), 8 * k, x);
}

/// A 64-bit integer written in two's complement is read back.
pub proof fn lemma_unconstrained_roundtrip(bits: Seq<bool>, aligned: bool, pos: nat, v: int)
    requires
        i64::MIN <= v <= i64::MAX,
        stands_at(bits, pos, unconstrained_bits(aligned, pos, v)),
    ensures
        read_unconstrained(bits, aligned, pos) == Some(
            (v, pos + unconstrained_bits(aligned, pos, v).len()),
        ),
{
    let k = octets_signed(v);
    let u = twos_complement(k, v);
    let length = general_length_bits(aligned, pos, k);
    lemma_octets_signed(v);
    lemma_bits_of_len(8 * k, u);
    lemma_stands_split(bits, pos, length, bits_of(8 * k, u));
    lemma_general_length_roundtrip(bits, aligned, pos, k);
    lemma_take_reads(bits, pos + length.len(), 8 * k, u);
    assert(from_twos_complement(k, u) == v);
}

/// An integer within its bounds is read back.
pub proof fn lemma_integer_root_roundtrip(
    c: IntegerConstraint,
    bits: Seq<bool>,
    aligned: bool,
    pos: nat,
    v: int,
)
    requires
        i64::MIN <= v <= i64::MAX,
        c.in_root(v),
        stands_at(bits, pos, integer_root_bits(c, aligned, pos, v)),
    ensures
        read_integer_root(c, bits, aligned, pos) == Some(
            (v, pos + integer_root_bits(c, aligned, pos, v).len()),
        ),
{
    lemma2_to64();
    match (c.lower_bound, c.upper_bound) {
        (Some(lb), Some(ub)) => {
            let span = (ub - lb) as nat;
            let x = (v - lb) as nat;
            lemma_bit_width_bounds(span);
            lemma_bits_of_len(bit_width(span), x);
            lemma_take_reads(bits, pos, bit_width(span), x);
        },
        (Some(lb), None) => {
            lemma_semi_constrained_roundtrip(bits, aligned, pos, (v - lb) as nat);
        },
        (None, _) => {
            lemma_unconstrained_roundtrip(bits, aligned, pos, v);
        },
    }
}

/// An integer that its constraint admits is read back.
pub proof fn lemma_integer_roundtrip(
    c: IntegerConstraint,
    bits: Seq<bool>,
    aligned: bool,
    pos: nat,
    v: int,
)
    requires
        c.admits(v),
        stands_at(bits, pos, integer_bits(c, aligned, pos, v)),
    ensures
        read_integer(c, bits, aligned, pos) == Some(
            (v, pos + integer_bits(c, aligned, pos, v).len()),
        ),
{
    if !c.extensible {
        lemma_integer_root_roundtrip(c, bits, aligned, pos, v);
    } else if c.in_root(v) {
        lemma_stands_split(bits, pos, seq![false], integer_root_bits(c, aligned, pos + 1, v));
        lemma_take_flag(bits, pos, false);
        lemma_integer_root_roundtrip(c, bits, aligned, pos + 1, v);
    } else {
        lemma_stands_split(bits, pos, seq![true], unconstrained_bits(aligned, pos + 1, v));
        lemma_take_flag(bits, pos, true);
        lemma_unconstrained_roundtrip(bits, aligned, pos + 1, v);
    }
}

/// A normally small number below `2^64` is read back.
pub proof fn lemma_small_number_roundtrip(bits: Seq<bool>, aligned: bool, pos: nat, x: nat)
    requires
        x < pow2(64),
        stands_at(bits, pos, small_number_bits(aligned, pos, x)),
    ensures
        read_small_number(bits, aligned, pos) == Some(
            (x, pos + small_number_bits(aligned, pos, x).len()),
        ),
{
    lemma2_to64();
    if x < 64 {
        lemma_bits_of_len(6, x);
        lemma_stands_split(bits, pos, seq![false], bits_of(6, x));
        lemma_take_flag(bits, pos, false);
        lemma_take_reads(bits, pos + 1, 6, x);
    } else {
        lemma_stands_split(bits, pos, seq![true], semi_constrained_bits(aligned, pos + 1, x));
        lemma_take_flag(bits, pos, true);
        lemma_semi_constrained_roundtrip(bits, aligned, pos + 1, x);
    }
}

/// The index of a root value is read back.
pub proof fn lemma_enumerated_root_roundtrip(
    c: EnumConstraint,
    bits: Seq<bool>,
    pos: nat,
    index: nat,
)
    requires
        index < c.root_count(),
        stands_at(bits, pos, bits_of(bit_width((c.root_count() - 1) as nat), index)),
    ensures
        read_enumerated_root(c, bits, pos) == Some(
            (index, pos + bit_width((c.root_count() - 1) as nat)),
        ),
{
    let width = bit_width((c.root_count() - 1) as nat);
    lemma_bit_width_bounds((c.root_count() - 1) as nat);
    lemma_bits_of_len(width, index);
    lemma_take_reads(bits, pos, width, index);
}

/// The index of an extension value is read back.
pub proof fn lemma_enumerated_extension_roundtrip(
    c: EnumConstraint,
    bits: Seq<bool>,
    aligned: bool,
    pos: nat,
    index: nat,
)
    requires
        c.root_count() <= index < c.root_count() + c.ext_count(),
        index <= usize::MAX,
        stands_at(
            bits,
            pos,
            small_number_bits(aligned, pos, (index - c.root_count()) as nat),
        ),
    ensures
        read_enumerated_extension(c, bits, aligned, pos) == Some(
            (
                index,
                pos + small_number_bits(aligned, pos, (index - c.root_count()) as nat).len(),
            ),
        ),
{
    lemma2_to64();
    lemma_small_number_roundtrip(bits, aligned, pos, (index - c.root_count()) as nat);
}

/// The index of an enumeration's value is read back.
pub proof fn lemma_enumerated_roundtrip(
    c: EnumConstraint,
    bits: Seq<bool>,
    aligned: bool,
    pos: nat,
    index: nat,
)
    requires
        c.admits(index),
        stands_at(bits, pos, enumerated_bits(c, aligned, pos, index)),
    ensures
        read_enumerated(c, bits, aligned, pos) == Some(
            (index, pos + enumerated_bits(c, aligned, pos, index).len()),
        ),
{
    let roots = c.root_count();
    if index < roots {
        let width = bit_width((roots - 1) as nat);
        let code = bits_of(width, index);
        lemma_bits_of_len(width, index);
        if c.extensible() {
            lemma_stands_split(bits, pos, seq![false], code);
            lemma_take_flag(bits, pos, false);
            lemma_enumerated_root_roundtrip(c, bits, pos + 1, index);
        } else {
            assert(Seq::<bool>::empty() + code =~= code);
            lemma_enumerated_root_roundtrip(c, bits, pos, index);
        }
    } else {
        let place = (index - roots) as nat;
        lemma_stands_split(bits, pos, seq![true], small_number_bits(aligned, pos + 1, place));
        lemma_take_flag(bits, pos, true);
        lemma_enumerated_extension_roundtrip(c, bits, aligned, pos + 1, index);
    }
}

/// A size within its bounds is read back.
pub proof fn lemma_length_root_roundtrip(
    c: SizeConstraint,
    bits: Seq<bool>,
    aligned: bool,
    pos: nat,
    len: nat,
)
    requires
        c.in_root(len),
        c.admits(len),
        stands_at(bits, pos, length_root_bits(c, aligned, pos, len)),
    ensures
        read_length_root(c, bits, aligned, pos) == Some(
            (len, pos + length_root_bits(c, aligned, pos, len).len()),
        ),
{
    match c.max_size {
        Some(mx) => {
            let span = (mx - c.lower()) as nat;
            let x = (len - c.lower()) as nat;
            lemma_bit_width_bounds(span);
            lemma_bits_of_len(bit_width(span), x);
            lemma_take_reads(bits, pos, bit_width(span), x);
        },
        None => {
            lemma_general_length_roundtrip(bits, aligned, pos, len);
        },
    }
}

/// A size that its constraint admits is read back.
pub proof fn lemma_length_roundtrip(
    c: SizeConstraint,
    bits: Seq<bool>,
    aligned: bool,
    pos: nat,
    len: nat,
)
    requires
        c.admits(len),
        stands_at(bits, pos, length_bits(c, aligned, pos, len)),
    ensures
        read_length(c, bits, aligned, pos) == Some(
            (len, pos + length_bits(c, aligned, pos, len).len()),
        ),
{
    if !c.extensible {
        lemma_length_root_roundtrip(c, bits, aligned, pos, len);
    } else if c.in_root(len) {
        lemma_stands_split(bits, pos, seq![false], length_root_bits(c, aligned, pos + 1, len));
        lemma_take_flag(bits, pos, false);
        lemma_length_root_roundtrip(c, bits, aligned, pos + 1, len);
    } else {
        lemma_stands_split(bits, pos, seq![true], general_length_bits(aligned, pos + 1, len));
        lemma_take_flag(bits, pos, true);
        lemma_general_length_roundtrip(bits, aligned, pos + 1, len);
    }
}

/// An octet string is its length, then its padding and content.
proof fn lemma_octet_string_layout(c: SizeConstraint, aligned: bool, pos: nat, bytes: Seq<u8>)
    ensures
        ({
            let length = length_bits(c, aligned, pos, bytes.len());
            let gap = padding(
                content_is_aligned(c, aligned, bytes.len(), SMALL_OCTETS as nat),
                pos + length.len(),
            );
            &&& octet_string_bits(c, aligned, pos, bytes) == length + (gap + octets_bits(bytes))
            &&& octets_bits(bytes).len() == 8 * bytes.len()
        }),
{
    let length = length_bits(c, aligned, pos, bytes.len());
    let gap = padding(
        content_is_aligned(c, aligned, bytes.len(), SMALL_OCTETS as nat),
        pos + length.len(),
    );
    lemma_concat(length, gap, octets_bits(bytes));
}

/// A bit string is its length, then its padding and content.
proof fn lemma_bit_string_layout(c: SizeConstraint, aligned: bool, pos: nat, content: Seq<bool>)
    ensures
        ({
            let length = length_bits(c, aligned, pos, content.len());
            let gap = padding(
                content_is_aligned(c, aligned, content.len(), SMALL_BITS as nat),
                pos + length.len(),
            );
            bit_string_bits(c, aligned, pos, content) == length + (gap + content)
        }),
{
    let length = length_bits(c, aligned, pos, content.len());
    let gap = padding(
        content_is_aligned(c, aligned, content.len(), SMALL_BITS as nat),
        pos + length.len(),
    );
    lemma_concat(length, gap, content);
}

/// An octet string whose size its constraint admits is read back.
pub proof fn lemma_octet_string_roundtrip(
    c: SizeConstraint,
    bits: Seq<bool>,
    aligned: bool,
    pos: nat,
    bytes: Seq<u8>,
)
    requires
        c.admits(bytes.len()),
        stands_at(bits, pos, octet_string_bits(c, aligned, pos, bytes)),
    ensures
        read_octet_string(c, bits, aligned, pos) == Some(
            (bytes, pos + octet_string_bits(c, aligned, pos, bytes).len()),
        ),
{
    let length = length_bits(c, aligned, pos, bytes.len());
    let active = content_is_aligned(c, aligned, bytes.len(), SMALL_OCTETS as nat);
    let after = pos + length.len();
    let gap = padding(active, after);
    let start = after + gap.len();
    let content = octets_bits(bytes);
    lemma_octet_string_layout(c, aligned, pos, bytes);
    lemma_stands_split(bits, pos, length, gap + content);
    lemma_stands_split(bits, after, gap, content);
    lemma_length_roundtrip(c, bits, aligned, pos, bytes.len());
    lemma_skip_reads(bits, active, after);
    lemma_octets_at(bits, start, bytes);
    assert(read_length(c, bits, aligned, pos) == Some((bytes.len(), after)));
    assert(skip_padding(bits, active, after) == Some(start));
    assert(start + 8 * bytes.len() <= bits.len());
}

/// A bit string whose size its constraint admits is read back.
pub proof fn lemma_bit_string_roundtrip(
    c: SizeConstraint,
    bits: Seq<bool>,
    aligned: bool,
    pos: nat,
    content: Seq<bool>,
)
    requires
        c.admits(content.len()),
        stands_at(bits, pos, bit_string_bits(c, aligned, pos, content)),
    ensures
        read_bit_string(c, bits, aligned, pos) == Some(
            (content, pos + bit_string_bits(c, aligned, pos, content).len()),
        ),
{
    let length = length_bits(c, aligned, pos, content.len());
    let active = content_is_aligned(c, aligned, content.len(), SMALL_BITS as nat);
    let after = pos + length.len();
    let gap = padding(active, after);
    let start = after + gap.len();
    lemma_bit_string_layout(c, aligned, pos, content);
    lemma_stands_split(bits, pos, length, gap + content);
    lemma_stands_split(bits, after, gap, content);
    lemma_length_roundtrip(c, bits, aligned, pos, content.len());
    lemma_skip_reads(bits, active, after);
    assert(read_length(c, bits, aligned, pos) == Some((content.len(), after)));
    assert(skip_padding(bits, active, after) == Some(start));
    assert(start + content.len() <= bits.len());
    assert(window(bits, start, content.len()) == content);
}

/// The index of a choice's alternative is read back.
pub proof fn lemma_choice_index_roundtrip(
    count: nat,
    extensible: bool,
    bits: Seq<bool>,
    pos: nat,
    index: nat,
)
    requires
        index < count,
        stands_at(bits, pos, choice_index_bits(count, extensible, index)),
    ensures
        read_choice_index(count, extensible, bits, pos) == Some(
            (index, pos + choice_index_bits(count, extensible, index).len()),
        ),
{
    let width = bit_width((count - 1) as nat);
    let code = bits_of(width, index);
    lemma_bit_width_bounds((count - 1) as nat);
    lemma_bits_of_len(width, index);
    if extensible {
        lemma_stands_split(bits, pos, seq![false], code);
        lemma_take_flag(bits, pos, false);
        lemma_take_reads(bits, pos + 1, width, index);
    } else {
        assert(Seq::<bool>::empty() + code =~= code);
        lemma_take_reads(bits, pos, width, index);
    }
}

/// Reading at the place where an encodable value was written gives the value
/// and the position behind it, whatever follows.
pub proof fn lemma_value_roundtrip(
    schema: Schema,
    v: ValueView,
    bits: Seq<bool>,
    aligned: bool,
    pos: nat,
)
    requires
        encodable(schema, v),
        stands_at(bits, pos, value_bits(schema, v, aligned, pos)),
    ensures
        read_value(schema, bits, aligned, pos) == Some(
            (v, pos + value_bits(schema, v, aligned, pos).len()),
        ),
    decreases schema, 0nat, 1nat,
{
    match schema {
        Schema::Boolean => {
            lemma_take_flag(bits, pos, v->Boolean_0);
        },
        Schema::Integer(c) => {
            lemma_integer_roundtrip(c, bits, aligned, pos, v->Integer_0);
        },
        Schema::Enumerated(c) => {
            lemma_enumerated_roundtrip(c, bits, aligned, pos, v->Enumerated_0);
        },
        Schema::OctetString(c) => {
            lemma_octet_string_roundtrip(c, bits, aligned, pos, v->OctetString_0);
        },
        Schema::BitString(c) => {
            lemma_bit_string_roundtrip(c, bits, aligned, pos, v->BitString_0);
        },
        Schema::Null => {},
        Schema::ObjectIdentifier => {},
        Schema::Sequence { fields } => {
            lemma_sequence_roundtrip(schema, v, bits, aligned, pos);
        },
        Schema::SequenceOf { size, element } => {
            lemma_sequence_of_roundtrip(schema, v, bits, aligned, pos);
        },
        Schema::Choice { alternatives, extensible } => {
            lemma_choice_roundtrip(schema, v, bits, aligned, pos);
        },
    }
}

/// The round trip of a sequence.
proof fn lemma_sequence_roundtrip(
    schema: Schema,
    v: ValueView,
    bits: Seq<bool>,
    aligned: bool,
    pos: nat,
)
    requires
        schema is Sequence,
        encodable(schema, v),
        stands_at(bits, pos, value_bits(schema, v, aligned, pos)),
    ensures
        read_value(schema, bits, aligned, pos) == Some(
            (v, pos + value_bits(schema, v, aligned, pos).len()),
        ),
    decreases schema, 0nat, 0nat,
{
    let fields = schema->fields@;
    let items = v->Sequence_0;
    assert(v == ValueView::Sequence(items));
    lemma_encodable_sequence(schema, items);
    assert(decreases_to!(schema => fields));
    lemma_fields_roundtrip(fields, items, bits, aligned, pos, fields.len());
    assert(items.take(fields.len() as int) =~= items);
}

/// The round trip of a repetition.
proof fn lemma_sequence_of_roundtrip(
    schema: Schema,
    v: ValueView,
    bits: Seq<bool>,
    aligned: bool,
    pos: nat,
)
    requires
        schema is SequenceOf,
        encodable(schema, v),
        stands_at(bits, pos, value_bits(schema, v, aligned, pos)),
    ensures
        read_value(schema, bits, aligned, pos) == Some(
            (v, pos + value_bits(schema, v, aligned, pos).len()),
        ),
    decreases schema, 0nat, 0nat,
{
    let size = schema->size;
    let element = *schema->element;
    let items = v->SequenceOf_0;
    assert(v == ValueView::SequenceOf(items));
    let length = length_bits(size, aligned, pos, items.len());
    let start = pos + length.len();
    lemma_encodable_sequence_of(schema, items);
    lemma_stands_split(bits, pos, length, items_bits(element, items, aligned, start, items.len()));
    lemma_length_roundtrip(size, bits, aligned, pos, items.len());
    assert(decreases_to!(schema => element));
    lemma_items_roundtrip(element, items, bits, aligned, start, items.len());
    assert(items.take(items.len() as int) =~= items);
}

/// What a choice is written as: the index of its alternative, then the
/// alternative's value.
proof fn lemma_choice_bits(schema: Schema, v: ValueView, aligned: bool, pos: nat)
    requires
        schema is Choice,
        v is Choice,
        v->Choice_0 < schema->alternatives@.len(),
    ensures
        value_bits(schema, v, aligned, pos) == choice_index_bits(
            schema->alternatives@.len(),
            schema->extensible,
            v->Choice_0,
        ) + value_bits(
            schema->alternatives@[v->Choice_0 as int],
            *v->Choice_1,
            aligned,
            pos + choice_index_bits(
                schema->alternatives@.len(),
                schema->extensible,
                v->Choice_0,
            ).len(),
        ),
{
}

/// What reading a choice gives, where its index and its alternative are
/// read.
proof fn lemma_choice_read(
    schema: Schema,
    bits: Seq<bool>,
    aligned: bool,
    pos: nat,
    index: nat,
    start: nat,
    inner: ValueView,
    end: nat,
)
    requires
        schema is Choice,
        index < schema->alternatives@.len(),
        read_choice_index(schema->alternatives@.len(), schema->extensible, bits, pos) == Some(
            (index, start),
        ),
        read_value(schema->alternatives@[index as int], bits, aligned, start) == Some(
            (inner, end),
        ),
    ensures
        read_value(schema, bits, aligned, pos) == Some(
            (ValueView::Choice(index, Box::new(inner)), end),
        ),
{
}

/// A choice that can be written names one of the alternatives, and its
/// value can be written under that alternative.
proof fn lemma_encodable_choice(schema: Schema, v: ValueView)
    requires
        schema is Choice,
        encodable(schema, v),
    ensures
        v is Choice,
        v->Choice_0 < schema->alternatives@.len(),
        encodable(schema->alternatives@[v->Choice_0 as int], *v->Choice_1),
        v == ValueView::Choice(v->Choice_0, Box::new(*v->Choice_1)),
{
}

/// The round trip of a choice.
proof fn lemma_choice_roundtrip(
    schema: Schema,
    v: ValueView,
    bits: Seq<bool>,
    aligned: bool,
    pos: nat,
)
    requires
        schema is Choice,
        encodable(schema, v),
        stands_at(bits, pos, value_bits(schema, v, aligned, pos)),
    ensures
        read_value(schema, bits, aligned, pos) == Some(
            (v, pos + value_bits(schema, v, aligned, pos).len()),
        ),
    decreases schema, 0nat, 0nat,
{
    lemma_encodable_choice(schema, v);
    let alternatives = schema->alternatives@;
    let index = v->Choice_0;
    let inner = *v->Choice_1;
    let chosen = alternatives[index as int];
    assert(decreases_to!(schema => chosen));
    let head = choice_index_bits(alternatives.len(), schema->extensible, index);
    let start = pos + head.len();
    let body = value_bits(chosen, inner, aligned, start);
    lemma_choice_bits(schema, v, aligned, pos);
    lemma_stands_split(bits, pos, head, body);
    lemma_choice_index_roundtrip(alternatives.len(), schema->extensible, bits, pos, index);
    lemma_value_roundtrip(chosen, inner, bits, aligned, start);
    lemma_choice_read(schema, bits, aligned, pos, index, start, inner, start + body.len());
}

/// Reading at the place where the first `n` fields of a sequence were
/// written gives those fields.
pub proof fn lemma_fields_roundtrip(
    fields: Seq<Schema>,
    items: Seq<ValueView>,
    bits: Seq<bool>,
    aligned: bool,
    pos: nat,
    n: nat,
)
    requires
        n <= fields.len(),
        fields_encodable(fields, items),
        stands_at(bits, pos, fields_bits(fields, items, aligned, pos, n)),
    ensures
        read_fields(fields, bits, aligned, pos, n) == Some(
            (items.take(n as int), pos + fields_bits(fields, items, aligned, pos, n).len()),
        ),
    decreases fields, n, 0nat,
{
    if n == 0 {
        assert(items.take(0) =~= Seq::<ValueView>::empty());
    } else {
        let before = fields_bits(fields, items, aligned, pos, (n - 1) as nat);
        let next = pos + before.len();
        let last = value_bits(fields[n - 1], items[n - 1], aligned, next);
        lemma_stands_split(bits, pos, before, last);
        lemma_fields_roundtrip(fields, items, bits, aligned, pos, (n - 1) as nat);
        assert(encodable(fields[n - 1], items[n - 1]));
        assert(decreases_to!(fields => fields[n - 1]));
        lemma_value_roundtrip(fields[n - 1], items[n - 1], bits, aligned, next);
        assert(items.take(n - 1).push(items[n - 1]) =~= items.take(n as int));
    }
}

/// Reading at the place where the first `n` elements of a repetition were
/// written gives those elements.
pub proof fn lemma_items_roundtrip(
    element: Schema,
    items: Seq<ValueView>,
    bits: Seq<bool>,
    aligned: bool,
    pos: nat,
    n: nat,
)
    requires
        n <= items.len(),
        items_encodable(element, items),
        stands_at(bits, pos, items_bits(element, items, aligned, pos, n)),
    ensures
        read_items(element, bits, aligned, pos, n) == Some(
            (items.take(n as int), pos + items_bits(element, items, aligned, pos, n).len()),
        ),
    decreases element, n, 0nat,
{
    if n == 0 {
        assert(items.take(0) =~= Seq::<ValueView>::empty());
    } else {
        let before = items_bits(element, items, aligned, pos, (n - 1) as nat);
        let next = pos + before.len();
        let last = value_bits(element, items[n - 1], aligned, next);
        lemma_stands_split(bits, pos, before, last);
        lemma_items_roundtrip(element, items, bits, aligned, pos, (n - 1) as nat);
        assert(encodable(element, items[n - 1]));
        lemma_value_roundtrip(element, items[n - 1], bits, aligned, next);
        assert(items.take(n - 1).push(items[n - 1]) =~= items.take(n as int));
    }
}

/// Decoding inverts encoding: what is decoded from the encoding of a value
/// that conforms to its schema and holds no object identifier, followed by
/// whatever bits, is that value; and the decoder stops where the encoding
/// ends. This holds of the aligned and of the unaligned variant.
pub proof fn encode_decode_roundtrip(schema: Schema, v: ValueView, aligned: bool, rest: Seq<bool>)
    requires
        encodable(schema, v),
    ensures
        read_value(schema, value_bits(schema, v, aligned, 0) + rest, aligned, 0) == Some(
            (v, value_bits(schema, v, aligned, 0).len()),
        ),
{
    let code = value_bits(schema, v, aligned, 0);
    assert(window(code + rest, 0, code.len()) =~= code);
    lemma_value_roundtrip(schema, v, code + rest, aligned, 0);
}

/// Decoding the octets that an encodable value was packed into gives the
/// value again, in the aligned and in the unaligned variant.
pub proof fn packed_roundtrip(schema: Schema, v: ValueView, aligned: bool)
    requires
        encodable(schema, v),
    ensures
        read_value(
            schema,
            octets_bits(packed(value_bits(schema, v, aligned, 0))),
            aligned,
            0,
        ) == Some((v, value_bits(schema, v, aligned, 0).len())),
{
    let code = value_bits(schema, v, aligned, 0);
    lemma_octets_bits_packed(code);
    encode_decode_roundtrip(schema, v, aligned, zeros(pad_len(code.len())));
}

/// A constrained integer that is not extensible takes exactly as many bits
/// as its range needs, the base-two logarithm of the number of its values
/// rounded up, and none where it has one value only; reading one consumes
/// exactly as many.
pub proof fn constrained_integer_width(
    lb: i64,
    ub: i64,
    v: int,
    bits: Seq<bool>,
    aligned: bool,
    pos: nat,
)
    requires
        lb <= ub,
    ensures
        ({
            let c = IntegerConstraint {
                lower_bound: Some(lb),
                upper_bound: Some(ub),
                extensible: false,
            };
            let width = ceil_log2((ub - lb + 1) as nat);
            &&& lb <= v <= ub ==> integer_bits(c, aligned, pos, v).len() == width
            &&& read_integer(c, bits, aligned, pos) matches Some((_, end)) ==> end == pos + width
            &&& lb == ub ==> width == 0
        }),
{
    let span = (ub - lb) as nat;
    lemma_bits_of_len(bit_width(span), (v - lb) as nat);
}

/// An integer outside the bounds of its extensible type is written with a
/// leading set bit. Reading after a set bit has nothing to do with the
/// bounds: it gives what reading an unconstrained integer behind the bit
/// gives, so two extensible types read the same there.
pub proof fn integer_extension_branch(
    c: IntegerConstraint,
    other: IntegerConstraint,
    v: int,
    bits: Seq<bool>,
    aligned: bool,
    pos: nat,
)
    requires
        c.extensible,
        other.extensible,
    ensures
        !c.in_root(v) ==> integer_bits(c, aligned, pos, v).len() >= 1 && integer_bits(
            c,
            aligned,
            pos,
            v,
        )[0],
        pos < bits.len() && bits[pos as int] ==> {
            &&& read_integer(c, bits, aligned, pos) == read_unconstrained(bits, aligned, pos + 1)
            &&& read_integer(c, bits, aligned, pos) == read_integer(other, bits, aligned, pos)
        },
{
    if pos < bits.len() && bits[pos as int] {
        assert(window(bits, pos, 1) =~= seq![true]);
        lemma_take_flag(bits, pos, true);
    }
}

/// An extension value of an enumeration is written with a leading set bit.
/// Reading after a set bit finds the index among the extension values
/// alone: the root values matter by their number only, so two enumerations
/// with as many root values and as many extension values read the same
/// there.
pub proof fn enumerated_extension_branch(
    c: EnumConstraint,
    other: EnumConstraint,
    index: nat,
    bits: Seq<bool>,
    aligned: bool,
    pos: nat,
)
    requires
        c.extensible(),
        other.extensible(),
        c.root_count() == other.root_count(),
        c.ext_count() == other.ext_count(),
    ensures
        index >= c.root_count() ==> enumerated_bits(c, aligned, pos, index).len() >= 1
            && enumerated_bits(c, aligned, pos, index)[0],
        pos < bits.len() && bits[pos as int] ==> {
            &&& read_enumerated(c, bits, aligned, pos) == read_enumerated_extension(
                c,
                bits,
                aligned,
                pos + 1,
            )
            &&& read_enumerated(c, bits, aligned, pos) == read_enumerated(other, bits, aligned, pos)
        },
{
    if pos < bits.len() && bits[pos as int] {
        assert(window(bits, pos, 1) =~= seq![true]);
        lemma_take_flag(bits, pos, true);
    }
}

/// Reading `n` elements gives `n` elements.
pub proof fn lemma_read_items_count(
    element: Schema,
    bits: Seq<bool>,
    aligned: bool,
    pos: nat,
    n: nat,
)
    ensures
        read_items(element, bits, aligned, pos, n) matches Some((items, _)) ==> items.len() == n,
    decreases n,
{
    if n > 0 {
        lemma_read_items_count(element, bits, aligned, pos, (n - 1) as nat);
    }
}

/// Reading a repetition reads its length determinant once, and then exactly
/// as many elements as that length says, one behind the other; the position
/// reached is the one behind the last of them.
pub proof fn sequence_of_reads_counted_elements(
    size: SizeConstraint,
    element: Schema,
    bits: Seq<bool>,
    aligned: bool,
    pos: nat,
)
    ensures
        read_value(Schema::SequenceOf { size, element: Box::new(element) }, bits, aligned, pos)
            matches Some((v, end)) ==> {
            &&& v is SequenceOf
            &&& read_length(size, bits, aligned, pos) matches Some((len, start))
            &&& v->SequenceOf_0.len() == len
            &&& read_items(element, bits, aligned, start, len) == Some((v->SequenceOf_0, end))
        },
{
    match read_length(size, bits, aligned, pos) {
        Some((len, start)) => {
            lemma_read_items_count(element, bits, aligned, start, len);
        },
        None => {},
    }
}

/// What `take` gives lies below `2^n`, and the position reached lies within
/// the bits.
pub proof fn lemma_take_sound(bits: Seq<bool>, pos: nat, n: nat)
    ensures
        take(bits, pos, n) matches Some((x, end)) ==> x < pow2(n) && end == pos + n && end
            <= bits.len(),
{
    if pos + n <= bits.len() {
        lemma_value_of_bound(window(bits, pos, n));
    }
}

/// A general length determinant that is read is below 16384.
pub proof fn lemma_general_length_sound(bits: Seq<bool>, aligned: bool, pos: nat)
    ensures
        read_general_length(bits, aligned, pos) matches Some((len, end)) ==> len < 16384 && pos
            <= end <= bits.len(),
{
    lemma2_to64();
    match skip_padding(bits, aligned, pos) {
        Some(start) => {
            lemma_take_sound(bits, start, 8);
            lemma_take_sound(bits, start + 8, 8);
        },
        None => {},
    }
}

/// A non-negative number that is read is below `2^64`.
pub proof fn lemma_semi_constrained_sound(bits: Seq<bool>, aligned: bool, pos: nat)
    ensures
        read_semi_constrained(bits, aligned, pos) matches Some((x, end)) ==> x < pow2(64) && pos
            <= end <= bits.len(),
{
    lemma_general_length_sound(bits, aligned, pos);
    match read_general_length(bits, aligned, pos) {
        Some((k, start)) => {
            if 1 <= k <= 8 {
                lemma_take_sound(bits, start, 8 * k);
                lemma_pow2_monotone(8 * k, 64);
            }
        },
        None => {},
    }
}

/// An integer that is read in two's complement is a 64-bit integer.
pub proof fn lemma_unconstrained_sound(bits: Seq<bool>, aligned: bool, pos: nat)
    ensures
        read_unconstrained(bits, aligned, pos) matches Some((v, end)) ==> i64::MIN <= v
            <= i64::MAX && pos <= end <= bits.len(),
{
    lemma_general_length_sound(bits, aligned, pos);
    match read_general_length(bits, aligned, pos) {
        Some((k, start)) => {
            if 1 <= k <= 8 {
                lemma2_to64();
                lemma2_to64_rest();
                lemma_take_sound(bits, start, 8 * k);
                lemma_pow2_unfold(8 * k);
                lemma_pow2_monotone((8 * k - 1) as nat, 63);
            }
        },
        None => {},
    }
}

/// An integer that is read is one that its constraint admits.
pub proof fn lemma_integer_sound(c: IntegerConstraint, bits: Seq<bool>, aligned: bool, pos: nat)
    ensures
        read_integer(c, bits, aligned, pos) matches Some((v, end)) ==> c.admits(v) && pos <= end
            <= bits.len(),
        read_integer_root(c, bits, aligned, pos) matches Some((v, end)) ==> c.in_root(v)
            && i64::MIN <= v <= i64::MAX && pos <= end <= bits.len(),
{
    lemma_take_sound(bits, pos, 1);
    lemma_unconstrained_sound(bits, aligned, pos);
    lemma_unconstrained_sound(bits, aligned, pos + 1);
    lemma_semi_constrained_sound(bits, aligned, pos);
    lemma_semi_constrained_sound(bits, aligned, pos + 1);
    match (c.lower_bound, c.upper_bound) {
        (Some(lb), Some(ub)) => {
            lemma_take_sound(bits, pos, bit_width((ub - lb) as nat));
            lemma_take_sound(bits, pos + 1, bit_width((ub - lb) as nat));
        },
        _ => {},
    }
}

/// A normally small number that is read is below `2^64`.
pub proof fn lemma_small_number_sound(bits: Seq<bool>, aligned: bool, pos: nat)
    ensures
        read_small_number(bits, aligned, pos) matches Some((x, end)) ==> x < pow2(64) && pos
            <= end <= bits.len(),
{
    lemma2_to64();
    lemma_take_sound(bits, pos, 1);
    lemma_take_sound(bits, pos + 1, 6);
    lemma_semi_constrained_sound(bits, aligned, pos + 1);
}

/// An index that is read names a value of the enumeration.
pub proof fn lemma_enumerated_sound(c: EnumConstraint, bits: Seq<bool>, aligned: bool, pos: nat)
    ensures
        read_enumerated(c, bits, aligned, pos) matches Some((index, end)) ==> c.admits(index)
            && pos <= end <= bits.len(),
{
    let roots = c.root_values.len();
    lemma_take_sound(bits, pos, 1);
    lemma_small_number_sound(bits, aligned, pos + 1);
    if c.root_count() > 0 {
        lemma_take_sound(bits, pos, bit_width((c.root_count() - 1) as nat));
        lemma_take_sound(bits, pos + 1, bit_width((c.root_count() - 1) as nat));
    }
}

/// A size that is read is one that its constraint admits.
pub proof fn lemma_length_sound(c: SizeConstraint, bits: Seq<bool>, aligned: bool, pos: nat)
    ensures
        read_length(c, bits, aligned, pos) matches Some((len, end)) ==> c.admits(len) && pos
            <= end <= bits.len() && (!c.extensible ==> c.in_root(len)),
{
    lemma_take_sound(bits, pos, 1);
    lemma_general_length_sound(bits, aligned, pos);
    lemma_general_length_sound(bits, aligned, pos + 1);
    match c.max_size {
        Some(mx) => {
            lemma_take_sound(bits, pos, bit_width((mx - c.lower()) as nat));
            lemma_take_sound(bits, pos + 1, bit_width((mx - c.lower()) as nat));
        },
        None => {},
    }
}

/// An octet string that is read has a size that its constraint admits.
pub proof fn lemma_octet_string_sound(c: SizeConstraint, bits: Seq<bool>, aligned: bool, pos: nat)
    ensures
        read_octet_string(c, bits, aligned, pos) matches Some((bytes, end)) ==> c.admits(
            bytes.len(),
        ) && pos <= end <= bits.len(),
{
    lemma_length_sound(c, bits, aligned, pos);
}

/// A bit string that is read has a size that its constraint admits.
pub proof fn lemma_bit_string_sound(c: SizeConstraint, bits: Seq<bool>, aligned: bool, pos: nat)
    ensures
        read_bit_string(c, bits, aligned, pos) matches Some((content, end)) ==> c.admits(
            content.len(),
        ) && pos <= end <= bits.len(),
{
    lemma_length_sound(c, bits, aligned, pos);
}

/// The index of an alternative that is read names one.
pub proof fn lemma_choice_index_sound(count: nat, extensible: bool, bits: Seq<bool>, pos: nat)
    ensures
        read_choice_index(count, extensible, bits, pos) matches Some((index, end)) ==> index
            < count && pos <= end <= bits.len(),
{
    lemma_take_sound(bits, pos, 1);
    if count > 0 {
        lemma_take_sound(bits, pos, bit_width((count - 1) as nat));
        lemma_take_sound(bits, pos + 1, bit_width((count - 1) as nat));
    }
}

/// What is decoded is a value of the schema: it conforms to it, holds no
/// object identifier, and so can be encoded again. The decoder never moves
/// backwards, and where it moves at all it stays within the bits.
pub proof fn decoded_value_is_encodable(schema: Schema, bits: Seq<bool>, aligned: bool, pos: nat)
    ensures
        read_value(schema, bits, aligned, pos) matches Some((v, end)) ==> encodable(schema, v)
            && pos <= end && (end <= bits.len() || end == pos),
    decreases schema, 0nat, 1nat,
{
    match schema {
        Schema::Boolean => {
            lemma_take_sound(bits, pos, 1);
        },
        Schema::Integer(c) => {
            lemma_integer_sound(c, bits, aligned, pos);
        },
        Schema::Enumerated(c) => {
            lemma_enumerated_sound(c, bits, aligned, pos);
        },
        Schema::OctetString(c) => {
            lemma_octet_string_sound(c, bits, aligned, pos);
        },
        Schema::BitString(c) => {
            lemma_bit_string_sound(c, bits, aligned, pos);
        },
        Schema::Null => {},
        Schema::ObjectIdentifier => {},
        Schema::Sequence { fields } => {
            lemma_read_sequence_sound(schema, bits, aligned, pos);
        },
        Schema::SequenceOf { size, element } => {
            lemma_read_sequence_of_sound(schema, bits, aligned, pos);
        },
        Schema::Choice { alternatives, extensible } => {
            lemma_read_choice_sound(schema, bits, aligned, pos);
        },
    }
}

proof fn lemma_read_sequence_sound(schema: Schema, bits: Seq<bool>, aligned: bool, pos: nat)
    requires
        schema is Sequence,
    ensures
        read_value(schema, bits, aligned, pos) matches Some((v, end)) ==> encodable(schema, v)
            && pos <= end && (end <= bits.len() || end == pos),
    decreases schema, 0nat, 0nat,
{
    let fields = schema->fields@;
    assert(decreases_to!(schema => fields));
    lemma_read_fields_sound(fields, bits, aligned, pos, fields.len());
    match read_fields(fields, bits, aligned, pos, fields.len()) {
        Some((items, end)) => {
            lemma_encodable_sequence(schema, items);
        },
        None => {},
    }
}

proof fn lemma_read_sequence_of_sound(schema: Schema, bits: Seq<bool>, aligned: bool, pos: nat)
    requires
        schema is SequenceOf,
    ensures
        read_value(schema, bits, aligned, pos) matches Some((v, end)) ==> encodable(schema, v)
            && pos <= end && (end <= bits.len() || end == pos),
    decreases schema, 0nat, 0nat,
{
    let size = schema->size;
    let element = *schema->element;
    lemma_length_sound(size, bits, aligned, pos);
    match read_length(size, bits, aligned, pos) {
        Some((len, start)) => {
            assert(decreases_to!(schema => element));
            lemma_read_items_sound(element, bits, aligned, start, len);
            match read_items(element, bits, aligned, start, len) {
                Some((items, end)) => {
                    lemma_encodable_sequence_of(schema, items);
                },
                None => {},
            }
        },
        None => {},
    }
}

proof fn lemma_read_choice_sound(schema: Schema, bits: Seq<bool>, aligned: bool, pos: nat)
    requires
        schema is Choice,
    ensures
        read_value(schema, bits, aligned, pos) matches Some((v, end)) ==> encodable(schema, v)
            && pos <= end && (end <= bits.len() || end == pos),
    decreases schema, 0nat, 0nat,
{
    let alternatives = schema->alternatives@;
    let extensible = schema->extensible;
    lemma_choice_index_sound(alternatives.len(), extensible, bits, pos);
    match read_choice_index(alternatives.len(), extensible, bits, pos) {
        Some((index, start)) => {
            let chosen = alternatives[index as int];
            assert(decreases_to!(schema => chosen));
            decoded_value_is_encodable(chosen, bits, aligned, start);
            match read_value(chosen, bits, aligned, start) {
                Some((inner, end)) => {
                    let v = ValueView::Choice(index, Box::new(inner));
                    assert(read_value(schema, bits, aligned, pos) == Some((v, end)));
                    assert(conforms(chosen, inner) && !inner.has_oid());
                    assert(*v->Choice_1 == inner);
                    assert(conforms(schema, v));
                },
                None => {},
            }
        },
        None => {},
    }
}

/// The first `n` fields that are read are values of their schemas.
pub proof fn lemma_read_fields_sound(
    fields: Seq<Schema>,
    bits: Seq<bool>,
    aligned: bool,
    pos: nat,
    n: nat,
)
    requires
        n <= fields.len(),
    ensures
        read_fields(fields, bits, aligned, pos, n) matches Some((items, end)) ==> {
            &&& items.len() == n
            &&& forall|i: int| 0 <= i < n ==> #[trigger] encodable(fields[i], items[i])
            &&& n == fields.len() ==> fields_encodable(fields, items)
            &&& pos <= end
            &&& end <= bits.len() || end == pos
        },
    decreases fields, n, 0nat,
{
    if n > 0 {
        lemma_read_fields_sound(fields, bits, aligned, pos, (n - 1) as nat);
        match read_fields(fields, bits, aligned, pos, (n - 1) as nat) {
            Some((before, next)) => {
                assert(decreases_to!(fields => fields[n - 1]));
                decoded_value_is_encodable(fields[n - 1], bits, aligned, next);
                match read_value(fields[n - 1], bits, aligned, next) {
                    Some((item, end)) => {
                        let items = before.push(item);
                        assert forall|i: int| 0 <= i < n implies #[trigger] encodable(
                            fields[i],
                            items[i],
                        ) by {
                            if i < n - 1 {
                                assert(encodable(fields[i], before[i]));
                            }
                        }
                    },
                    None => {},
                }
            },
            None => {},
        }
    }
}

/// The `n` elements that are read are values of the element's schema.
pub proof fn lemma_read_items_sound(
    element: Schema,
    bits: Seq<bool>,
    aligned: bool,
    pos: nat,
    n: nat,
)
    ensures
        read_items(element, bits, aligned, pos, n) matches Some((items, end)) ==> {
            &&& items.len() == n
            &&& items_encodable(element, items)
            &&& pos <= end
            &&& end <= bits.len() || end == pos
        },
    decreases element, n, 0nat,
{
    if n > 0 {
        lemma_read_items_sound(element, bits, aligned, pos, (n - 1) as nat);
        match read_items(element, bits, aligned, pos, (n - 1) as nat) {
            Some((before, next)) => {
                decoded_value_is_encodable(element, bits, aligned, next);
                match read_value(element, bits, aligned, next) {
                    Some((item, end)) => {
                        let items = before.push(item);
                        assert forall|i: int| 0 <= i < items.len() implies #[trigger] encodable(
                            element,
                            items[i],
                        ) by {
                            if i < n - 1 {
                                assert(encodable(element, before[i]));
                            }
                        }
                    },
                    None => {},
                }
            },
            None => {},
        }
    }
}

/// A value of a schema that demands an object identifier holds one.
pub proof fn lemma_demanded_oid_is_held(schema: Schema, v: ValueView)
    requires
        schema.demands_oid(),
        conforms(schema, v),
    ensures
        v.has_oid(),
    decreases schema,
{
    match schema {
        Schema::Sequence { fields } => {
            let items = v->Sequence_0;
            let i = choose|i: int| 0 <= i < fields@.len() && (#[trigger] fields@[i]).demands_oid();
            assert(conforms(fields@[i], items[i]));
            assert(decreases_to!(schema => fields@[i]));
            lemma_demanded_oid_is_held(fields@[i], items[i]);
            lemma_has_oid_item(items, i);
        },
        Schema::SequenceOf { size, element } => {
            let items = v->SequenceOf_0;
            assert(conforms(*element, items[0]));
            assert(decreases_to!(schema => *element));
            lemma_demanded_oid_is_held(*element, items[0]);
            lemma_has_oid_item(items, 0);
        },
        Schema::Choice { alternatives, extensible } => {
            let index = v->Choice_0;
            assert(alternatives@[index as int].demands_oid());
            assert(decreases_to!(schema => alternatives@[index as int]));
            lemma_demanded_oid_is_held(alternatives@[index as int], *v->Choice_1);
        },
        _ => {},
    }
}

/// Object identifiers are refused both ways. A schema that demands one has
/// no value that can be encoded, and nothing decodes as a value of it; what
/// the encoder and the decoder answer then is the `Encoding` error. And no
/// schema at all lets a value holding an object identifier through the
/// encoder or out of the decoder.
pub proof fn object_identifier_is_refused(
    schema: Schema,
    v: ValueView,
    bits: Seq<bool>,
    aligned: bool,
    pos: nat,
)
    ensures
        schema.demands_oid() ==> !encodable(schema, v),
        schema.demands_oid() ==> read_value(schema, bits, aligned, pos) is None,
        v.has_oid() ==> !encodable(schema, v),
        read_value(schema, bits, aligned, pos) matches Some((decoded, _)) ==> !decoded.has_oid(),
{
    decoded_value_is_encodable(schema, bits, aligned, pos);
    if schema.demands_oid() {
        if conforms(schema, v) {
            lemma_demanded_oid_is_held(schema, v);
        }
        match read_value(schema, bits, aligned, pos) {
            Some((decoded, _)) => {
                lemma_demanded_oid_is_held(schema, decoded);
            },
            None => {},
        }
    }
}

/// Whether `first` and `second` hold the same bits up to position `limit`.
pub open spec fn agree(first: Seq<bool>, second: Seq<bool>, limit: nat) -> bool {
    &&& limit <= first.len()
    &&& limit <= second.len()
    &&& first.subrange(0, limit as int) == second.subrange(0, limit as int)
}

/// Sequences that agree up to a limit hold the same bits in every window
/// below it.
pub proof fn lemma_agree_window(first: Seq<bool>, second: Seq<bool>, limit: nat, pos: nat, n: nat)
    requires
        agree(first, second, limit),
        pos + n <= limit,
    ensures
        window(first, pos, n) == window(second, pos, n),
{
    let a = first.subrange(0, limit as int);
    let b = second.subrange(0, limit as int);
    assert(window(first, pos, n) =~= a.subrange(pos as int, (pos + n) as int));
    assert(window(second, pos, n) =~= b.subrange(pos as int, (pos + n) as int));
}

proof fn lemma_take_local(first: Seq<bool>, second: Seq<bool>, limit: nat, pos: nat, n: nat)
    requires
        agree(first, second, limit),
        take(first, pos, n) matches Some((_, end)) && end <= limit,
    ensures
        take(second, pos, n) == take(first, pos, n),
{
    lemma_agree_window(first, second, limit, pos, n);
}

proof fn lemma_general_length_local(
    first: Seq<bool>,
    second: Seq<bool>,
    limit: nat,
    aligned: bool,
    pos: nat,
)
    requires
        agree(first, second, limit),
        read_general_length(first, aligned, pos) matches Some((_, end)) && end <= limit,
    ensures
        read_general_length(second, aligned, pos) == read_general_length(first, aligned, pos),
{
    let start = skip_padding(first, aligned, pos)->Some_0;
    lemma_take_local(first, second, limit, start, 8);
    let (head, after) = take(first, start, 8)->Some_0;
    if 128 <= head < 192 {
        lemma_take_local(first, second, limit, after, 8);
    }
}

proof fn lemma_semi_constrained_local(
    first: Seq<bool>,
    second: Seq<bool>,
    limit: nat,
    aligned: bool,
    pos: nat,
)
    requires
        agree(first, second, limit),
        read_semi_constrained(first, aligned, pos) matches Some((_, end)) && end <= limit,
    ensures
        read_semi_constrained(second, aligned, pos) == read_semi_constrained(first, aligned, pos),
{
    let (k, start) = read_general_length(first, aligned, pos)->Some_0;
    lemma_general_length_local(first, second, limit, aligned, pos);
    lemma_take_local(first, second, limit, start, 8 * k);
}

proof fn lemma_unconstrained_local(
    first: Seq<bool>,
    second: Seq<bool>,
    limit: nat,
    aligned: bool,
    pos: nat,
)
    requires
        agree(first, second, limit),
        read_unconstrained(first, aligned, pos) matches Some((_, end)) && end <= limit,
    ensures
        read_unconstrained(second, aligned, pos) == read_unconstrained(first, aligned, pos),
{
    let (k, start) = read_general_length(first, aligned, pos)->Some_0;
    lemma_general_length_local(first, second, limit, aligned, pos);
    lemma_take_local(first, second, limit, start, 8 * k);
}

proof fn lemma_integer_root_local(
    c: IntegerConstraint,
    first: Seq<bool>,
    second: Seq<bool>,
    limit: nat,
    aligned: bool,
    pos: nat,
)
    requires
        agree(first, second, limit),
        read_integer_root(c, first, aligned, pos) matches Some((_, end)) && end <= limit,
    ensures
        read_integer_root(c, second, aligned, pos) == read_integer_root(c, first, aligned, pos),
{
    match (c.lower_bound, c.upper_bound) {
        (Some(lb), Some(ub)) => {
            lemma_take_local(first, second, limit, pos, bit_width((ub - lb) as nat));
        },
        (Some(lb), None) => {
            lemma_semi_constrained_local(first, second, limit, aligned, pos);
        },
        (None, _) => {
            lemma_unconstrained_local(first, second, limit, aligned, pos);
        },
    }
}

proof fn lemma_integer_local(
    c: IntegerConstraint,
    first: Seq<bool>,
    second: Seq<bool>,
    limit: nat,
    aligned: bool,
    pos: nat,
)
    requires
        agree(first, second, limit),
        read_integer(c, first, aligned, pos) matches Some((_, end)) && end <= limit,
    ensures
        read_integer(c, second, aligned, pos) == read_integer(c, first, aligned, pos),
{
    if !c.extensible {
        lemma_integer_root_local(c, first, second, limit, aligned, pos);
    } else {
        let (flag, next) = take(first, pos, 1)->Some_0;
        lemma_unconstrained_sound(first, aligned, next);
        lemma_integer_sound(c, first, aligned, next);
        lemma_take_local(first, second, limit, pos, 1);
        if flag == 1 {
            lemma_unconstrained_local(first, second, limit, aligned, next);
        } else {
            lemma_integer_root_local(c, first, second, limit, aligned, next);
        }
    }
}

proof fn lemma_small_number_local(
    first: Seq<bool>,
    second: Seq<bool>,
    limit: nat,
    aligned: bool,
    pos: nat,
)
    requires
        agree(first, second, limit),
        read_small_number(first, aligned, pos) matches Some((_, end)) && end <= limit,
    ensures
        read_small_number(second, aligned, pos) == read_small_number(first, aligned, pos),
{
    let (flag, next) = take(first, pos, 1)->Some_0;
    lemma_semi_constrained_sound(first, aligned, next);
    lemma_take_local(first, second, limit, pos, 1);
    if flag == 1 {
        lemma_semi_constrained_local(first, second, limit, aligned, next);
    } else {
        lemma_take_local(first, second, limit, next, 6);
    }
}

proof fn lemma_enumerated_local(
    c: EnumConstraint,
    first: Seq<bool>,
    second: Seq<bool>,
    limit: nat,
    aligned: bool,
    pos: nat,
)
    requires
        agree(first, second, limit),
        read_enumerated(c, first, aligned, pos) matches Some((_, end)) && end <= limit,
    ensures
        read_enumerated(c, second, aligned, pos) == read_enumerated(c, first, aligned, pos),
{
    let width = bit_width((c.root_count() - 1) as nat);
    if !c.extensible() {
        lemma_take_local(first, second, limit, pos, width);
    } else {
        let (flag, next) = take(first, pos, 1)->Some_0;
        lemma_small_number_sound(first, aligned, next);
        lemma_take_local(first, second, limit, pos, 1);
        if flag == 1 {
            lemma_small_number_local(first, second, limit, aligned, next);
        } else {
            lemma_take_local(first, second, limit, next, width);
        }
    }
}

proof fn lemma_length_root_local(
    c: SizeConstraint,
    first: Seq<bool>,
    second: Seq<bool>,
    limit: nat,
    aligned: bool,
    pos: nat,
)
    requires
        agree(first, second, limit),
        read_length_root(c, first, aligned, pos) matches Some((_, end)) && end <= limit,
    ensures
        read_length_root(c, second, aligned, pos) == read_length_root(c, first, aligned, pos),
{
    match c.max_size {
        Some(mx) => {
            lemma_take_local(first, second, limit, pos, bit_width((mx - c.lower()) as nat));
        },
        None => {
            lemma_general_length_local(first, second, limit, aligned, pos);
        },
    }
}

proof fn lemma_length_local(
    c: SizeConstraint,
    first: Seq<bool>,
    second: Seq<bool>,
    limit: nat,
    aligned: bool,
    pos: nat,
)
    requires
        agree(first, second, limit),
        read_length(c, first, aligned, pos) matches Some((_, end)) && end <= limit,
    ensures
        read_length(c, second, aligned, pos) == read_length(c, first, aligned, pos),
{
    if !c.extensible {
        lemma_length_root_local(c, first, second, limit, aligned, pos);
    } else {
        let (flag, next) = take(first, pos, 1)->Some_0;
        lemma_general_length_sound(first, aligned, next);
        lemma_take_local(first, second, limit, pos, 1);
        if flag == 1 {
            lemma_general_length_local(first, second, limit, aligned, next);
        } else {
            lemma_length_root_local(c, first, second, limit, aligned, next);
        }
    }
}

proof fn lemma_octet_string_local(
    c: SizeConstraint,
    first: Seq<bool>,
    second: Seq<bool>,
    limit: nat,
    aligned: bool,
    pos: nat,
)
    requires
        agree(first, second, limit),
        read_octet_string(c, first, aligned, pos) matches Some((_, end)) && end <= limit,
    ensures
        read_octet_string(c, second, aligned, pos) == read_octet_string(c, first, aligned, pos),
{
    let (len, after) = read_length(c, first, aligned, pos)->Some_0;
    let active = content_is_aligned(c, aligned, len, SMALL_OCTETS as nat);
    let start = skip_padding(first, active, after)->Some_0;
    lemma_length_local(c, first, second, limit, aligned, pos);
    assert forall|i: int| 0 <= i < len implies octets_at(first, start, len)[i] == octets_at(
        second,
        start,
        len,
    )[i] by {
        lemma_agree_window(first, second, limit, (start + 8 * i) as nat, 8);
    }
    assert(octets_at(first, start, len) =~= octets_at(second, start, len));
}

proof fn lemma_bit_string_local(
    c: SizeConstraint,
    first: Seq<bool>,
    second: Seq<bool>,
    limit: nat,
    aligned: bool,
    pos: nat,
)
    requires
        agree(first, second, limit),
        read_bit_string(c, first, aligned, pos) matches Some((_, end)) && end <= limit,
    ensures
        read_bit_string(c, second, aligned, pos) == read_bit_string(c, first, aligned, pos),
{
    let (len, after) = read_length(c, first, aligned, pos)->Some_0;
    let active = content_is_aligned(c, aligned, len, SMALL_BITS as nat);
    let start = skip_padding(first, active, after)->Some_0;
    lemma_length_local(c, first, second, limit, aligned, pos);
    lemma_agree_window(first, second, limit, start, len);
}

proof fn lemma_choice_index_local(
    count: nat,
    extensible: bool,
    first: Seq<bool>,
    second: Seq<bool>,
    limit: nat,
    pos: nat,
)
    requires
        agree(first, second, limit),
        read_choice_index(count, extensible, first, pos) matches Some((_, end)) && end <= limit,
    ensures
        read_choice_index(count, extensible, second, pos) == read_choice_index(
            count,
            extensible,
            first,
            pos,
        ),
{
    let width = bit_width((count - 1) as nat);
    if extensible {
        lemma_take_local(first, second, limit, pos, 1);
        lemma_take_local(first, second, limit, pos + 1, width);
    } else {
        lemma_take_local(first, second, limit, pos, width);
    }
}

/// What a value is read from are the bits up to the position reached: a
/// sequence that agrees with `first` that far gives the same value and the
/// same position.
pub proof fn lemma_read_value_local(
    schema: Schema,
    first: Seq<bool>,
    second: Seq<bool>,
    limit: nat,
    aligned: bool,
    pos: nat,
)
    requires
        agree(first, second, limit),
        read_value(schema, first, aligned, pos) matches Some((_, end)) && end <= limit,
    ensures
        read_value(schema, second, aligned, pos) == read_value(schema, first, aligned, pos),
    decreases schema, 0nat, 1nat,
{
    match schema {
        Schema::Boolean => {
            lemma_take_local(first, second, limit, pos, 1);
        },
        Schema::Integer(c) => {
            lemma_integer_local(c, first, second, limit, aligned, pos);
        },
        Schema::Enumerated(c) => {
            lemma_enumerated_local(c, first, second, limit, aligned, pos);
        },
        Schema::OctetString(c) => {
            lemma_octet_string_local(c, first, second, limit, aligned, pos);
        },
        Schema::BitString(c) => {
            lemma_bit_string_local(c, first, second, limit, aligned, pos);
        },
        Schema::Null => {},
        Schema::ObjectIdentifier => {},
        Schema::Sequence { fields } => {
            assert(decreases_to!(schema => fields@));
            lemma_read_fields_local(fields@, first, second, limit, aligned, pos, fields@.len());
        },
        Schema::SequenceOf { size, element } => {
            lemma_read_sequence_of_local(schema, first, second, limit, aligned, pos);
        },
        Schema::Choice { alternatives, extensible } => {
            lemma_read_choice_local(schema, first, second, limit, aligned, pos);
        },
    }
}

proof fn lemma_read_sequence_of_local(
    schema: Schema,
    first: Seq<bool>,
    second: Seq<bool>,
    limit: nat,
    aligned: bool,
    pos: nat,
)
    requires
        schema is SequenceOf,
        agree(first, second, limit),
        read_value(schema, first, aligned, pos) matches Some((_, end)) && end <= limit,
    ensures
        read_value(schema, second, aligned, pos) == read_value(schema, first, aligned, pos),
    decreases schema, 0nat, 0nat,
{
    let size = schema->size;
    let element = *schema->element;
    let (len, start) = read_length(size, first, aligned, pos)->Some_0;
    assert(decreases_to!(schema => element));
    lemma_read_items_sound(element, first, aligned, start, len);
    lemma_length_local(size, first, second, limit, aligned, pos);
    lemma_read_items_local(element, first, second, limit, aligned, start, len);
}

proof fn lemma_read_choice_local(
    schema: Schema,
    first: Seq<bool>,
    second: Seq<bool>,
    limit: nat,
    aligned: bool,
    pos: nat,
)
    requires
        schema is Choice,
        agree(first, second, limit),
        read_value(schema, first, aligned, pos) matches Some((_, end)) && end <= limit,
    ensures
        read_value(schema, second, aligned, pos) == read_value(schema, first, aligned, pos),
    decreases schema, 0nat, 0nat,
{
    let count = schema->alternatives@.len();
    let (index, start) = read_choice_index(count, schema->extensible, first, pos)->Some_0;
    let chosen = schema->alternatives@[index as int];
    assert(decreases_to!(schema => chosen));
    decoded_value_is_encodable(chosen, first, aligned, start);
    lemma_choice_index_local(count, schema->extensible, first, second, limit, pos);
    lemma_read_value_local(chosen, first, second, limit, aligned, start);
}

proof fn lemma_read_fields_local(
    fields: Seq<Schema>,
    first: Seq<bool>,
    second: Seq<bool>,
    limit: nat,
    aligned: bool,
    pos: nat,
    n: nat,
)
    requires
        n <= fields.len(),
        agree(first, second, limit),
        read_fields(fields, first, aligned, pos, n) matches Some((_, end)) && end <= limit,
    ensures
        read_fields(fields, second, aligned, pos, n) == read_fields(fields, first, aligned, pos, n),
    decreases fields, n, 0nat,
{
    if n > 0 {
        let (before, next) = read_fields(fields, first, aligned, pos, (n - 1) as nat)->Some_0;
        assert(decreases_to!(fields => fields[n - 1]));
        decoded_value_is_encodable(fields[n - 1], first, aligned, next);
        lemma_read_fields_local(fields, first, second, limit, aligned, pos, (n - 1) as nat);
        lemma_read_value_local(fields[n - 1], first, second, limit, aligned, next);
    }
}

proof fn lemma_read_items_local(
    element: Schema,
    first: Seq<bool>,
    second: Seq<bool>,
    limit: nat,
    aligned: bool,
    pos: nat,
    n: nat,
)
    requires
        agree(first, second, limit),
        read_items(element, first, aligned, pos, n) matches Some((_, end)) && end <= limit,
    ensures
        read_items(element, second, aligned, pos, n) == read_items(element, first, aligned, pos, n),
    decreases element, n, 0nat,
{
    if n > 0 {
        let (before, next) = read_items(element, first, aligned, pos, (n - 1) as nat)->Some_0;
        decoded_value_is_encodable(element, first, aligned, next);
        lemma_read_items_local(element, first, second, limit, aligned, pos, (n - 1) as nat);
        lemma_read_value_local(element, first, second, limit, aligned, next);
    }
}

/// Decoding takes no notice of what follows a value: where a value is
/// decoded from some bits, the same value is decoded, and the same position
/// reached, from any bits that are the same up to that position. So a
/// repetition gives the elements that its length determinant counts,
/// whatever the buffer holds behind them.
pub proof fn decoding_ignores_what_follows(
    schema: Schema,
    first: Seq<bool>,
    second: Seq<bool>,
    aligned: bool,
    pos: nat,
)
    requires
        read_value(schema, first, aligned, pos) matches Some((_, end)) && agree(
            first,
            second,
            end,
        ),
    ensures
        read_value(schema, second, aligned, pos) == read_value(schema, first, aligned, pos),
{
    let end = read_value(schema, first, aligned, pos)->Some_0.1;
    lemma_read_value_local(schema, first, second, end, aligned, pos);
}

} // verus!
