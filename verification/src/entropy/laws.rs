//! What holds of the entropy scheme: whatever is generated is a value of
//! the schema.

use crate::entropy::generate::lemma_be_value_bound;
use crate::entropy::scheme::{
    be_bytes, be_value, draw, flattened, flattened_enumerated, flattened_fields, flattened_integer,
    flattened_integer_root, flattened_items, flattened_size, flattened_size_root, generated,
    generated_bit_string, generated_enumerated, generated_fields, generated_integer,
    generated_integer_root, generated_items, generated_octet_string, generated_size,
    generated_unconstrained, greatest_size, integer_is_bounded, integer_range, octets_for, pick,
    spend,
};
use crate::numeric::{
    bit_width, lemma_bit_width_bounds, lemma_octets_bits_packed, lemma_pow2_monotone, packed,
    pad_len, zeros,
};
use crate::per::rules::twos_complement;
use crate::schema::{EnumConstraint, IntegerConstraint, Schema, SizeConstraint};
use crate::value::{
    ValueView, conforms, fields_conform, items_conform, lemma_conforms_sequence,
    lemma_conforms_sequence_of, lemma_no_oid_items,
};
use vstd::arithmetic::div_mod::lemma_small_mod;
use vstd::arithmetic::power2::{lemma2_to64, lemma2_to64_rest, lemma_pow2_adds, pow2};
use vstd::prelude::*;

verus! {

/// A number drawn from `k` octets lies below `256^k`, and the position
/// reached lies within the entropy.
pub proof fn lemma_draw_sound(entropy: Seq<u8>, pos: nat, k: nat)
    ensures
        draw(entropy, pos, k) matches Some((x, end)) ==> x < pow2(8 * k) && end == pos + k && end
            <= entropy.len(),
{
    if pos + k <= entropy.len() {
        lemma_be_value_bound(entropy.subrange(pos as int, (pos + k) as int));
    }
}

/// A number picked from zero to `span` lies in that range.
pub proof fn lemma_pick_sound(entropy: Seq<u8>, pos: nat, span: nat)
    ensures
        pick(entropy, pos, span) matches Some((x, end)) ==> x <= span && pos <= end
            <= entropy.len(),
{
    lemma_draw_sound(entropy, pos, octets_for(span));
}

/// Any integer that is generated without bounds is a 64-bit integer.
pub proof fn lemma_generated_unconstrained_sound(entropy: Seq<u8>, pos: nat)
    ensures
        generated_unconstrained(entropy, pos) matches Some((v, end)) ==> i64::MIN <= v
            <= i64::MAX && pos <= end <= entropy.len(),
{
    lemma2_to64();
    lemma2_to64_rest();
    lemma_draw_sound(entropy, pos, 8);
}

/// An integer that is generated is one that its constraint admits.
pub proof fn lemma_generated_integer_sound(c: IntegerConstraint, entropy: Seq<u8>, pos: nat)
    ensures
        generated_integer(c, entropy, pos) matches Some((v, end)) ==> c.admits(v) && pos <= end
            <= entropy.len(),
        generated_integer_root(c, entropy, pos) matches Some((v, end)) ==> c.in_root(v)
            && i64::MIN <= v <= i64::MAX && pos <= end <= entropy.len(),
{
    let (lo, hi) = integer_range(c);
    lemma_pick_sound(entropy, pos, 1);
    lemma_generated_unconstrained_sound(entropy, pos);
    if lo <= hi {
        lemma_pick_sound(entropy, pos, (hi - lo) as nat);
    }
    match pick(entropy, pos, 1) {
        Some((flag, next)) => {
            lemma_generated_unconstrained_sound(entropy, next);
            if lo <= hi {
                lemma_pick_sound(entropy, next, (hi - lo) as nat);
            }
        },
        None => {},
    }
}

/// An index that is generated names a value of the enumeration.
pub proof fn lemma_generated_enumerated_sound(c: EnumConstraint, entropy: Seq<u8>, pos: nat)
    ensures
        generated_enumerated(c, entropy, pos) matches Some((index, end)) ==> c.admits(index)
            && pos <= end <= entropy.len(),
{
    let roots = c.root_values.len();
    lemma_pick_sound(entropy, pos, 1);
    if c.root_count() > 0 {
        lemma_pick_sound(entropy, pos, (c.root_count() - 1) as nat);
    }
    match pick(entropy, pos, 1) {
        Some((flag, next)) => {
            if c.root_count() > 0 {
                lemma_pick_sound(entropy, next, (c.root_count() - 1) as nat);
            }
            if c.ext_count() > 0 {
                lemma_pick_sound(entropy, next, (c.ext_count() - 1) as nat);
            }
        },
        None => {},
    }
}

/// A size that is generated is one that its constraint admits.
pub proof fn lemma_generated_size_sound(c: SizeConstraint, entropy: Seq<u8>, pos: nat)
    ensures
        generated_size(c, entropy, pos) matches Some((len, end)) ==> c.admits(len) && pos <= end
            <= entropy.len(),
{
    lemma_pick_sound(entropy, pos, 1);
    if c.lower() <= greatest_size(c) {
        lemma_pick_sound(entropy, pos, (greatest_size(c) - c.lower()) as nat);
    }
    match pick(entropy, pos, 1) {
        Some((flag, next)) => {
            lemma_pick_sound(entropy, next, 16383);
            if c.lower() <= greatest_size(c) {
                lemma_pick_sound(entropy, next, (greatest_size(c) - c.lower()) as nat);
            }
        },
        None => {},
    }
}

/// Whatever is generated is a value of the schema: it conforms to it, and it
/// holds an object identifier only where the schema mentions one. The
/// generator never moves backwards, and where it moves at all it stays
/// within the entropy.
pub proof fn generated_value_conforms(schema: Schema, entropy: Seq<u8>, pos: nat)
    ensures
        generated(schema, entropy, pos) matches Some((v, end)) ==> {
            &&& conforms(schema, v)
            &&& !schema.mentions_oid() ==> !v.has_oid()
            &&& pos <= end
            &&& end <= entropy.len() || end == pos
        },
    decreases schema, 0nat, 1nat,
{
    match schema {
        Schema::Boolean => {
            lemma_pick_sound(entropy, pos, 1);
        },
        Schema::Integer(c) => {
            lemma_generated_integer_sound(c, entropy, pos);
        },
        Schema::Enumerated(c) => {
            lemma_generated_enumerated_sound(c, entropy, pos);
        },
        Schema::OctetString(c) => {
            lemma_generated_size_sound(c, entropy, pos);
        },
        Schema::BitString(c) => {
            lemma_generated_size_sound(c, entropy, pos);
        },
        Schema::Null => {},
        Schema::ObjectIdentifier => {},
        Schema::Sequence { fields } => {
            lemma_generated_sequence_conforms(schema, entropy, pos);
        },
        Schema::SequenceOf { size, element } => {
            lemma_generated_sequence_of_conforms(schema, entropy, pos);
        },
        Schema::Choice { alternatives, extensible } => {
            lemma_generated_choice_conforms(schema, entropy, pos);
        },
    }
}

proof fn lemma_generated_sequence_conforms(schema: Schema, entropy: Seq<u8>, pos: nat)
    requires
        schema is Sequence,
    ensures
        generated(schema, entropy, pos) matches Some((v, end)) ==> {
            &&& conforms(schema, v)
            &&& !schema.mentions_oid() ==> !v.has_oid()
            &&& pos <= end
            &&& end <= entropy.len() || end == pos
        },
    decreases schema, 0nat, 0nat,
{
    let fields = schema->fields@;
    assert(decreases_to!(schema => fields));
    lemma_generated_fields_conform(fields, entropy, pos, fields.len());
    match generated_fields(fields, entropy, pos, fields.len()) {
        Some((items, end)) => {
            lemma_conforms_sequence(schema, items);
            if !schema.mentions_oid() {
                assert forall|i: int| 0 <= i < items.len() implies !(#[trigger] items[i]).has_oid() by {
                    assert(!schema->fields@[i].mentions_oid());
                }
                lemma_no_oid_items(items);
            }
        },
        None => {},
    }
}

proof fn lemma_generated_sequence_of_conforms(schema: Schema, entropy: Seq<u8>, pos: nat)
    requires
        schema is SequenceOf,
    ensures
        generated(schema, entropy, pos) matches Some((v, end)) ==> {
            &&& conforms(schema, v)
            &&& !schema.mentions_oid() ==> !v.has_oid()
            &&& pos <= end
            &&& end <= entropy.len() || end == pos
        },
    decreases schema, 0nat, 0nat,
{
    let size = schema->size;
    let element = *schema->element;
    lemma_generated_size_sound(size, entropy, pos);
    match generated_size(size, entropy, pos) {
        Some((len, start)) => {
            assert(decreases_to!(schema => element));
            lemma_generated_items_conform(element, entropy, start, len);
            match generated_items(element, entropy, start, len) {
                Some((items, end)) => {
                    lemma_conforms_sequence_of(schema, items);
                    if !schema.mentions_oid() {
                        lemma_no_oid_items(items);
                    }
                },
                None => {},
            }
        },
        None => {},
    }
}

proof fn lemma_generated_choice_conforms(schema: Schema, entropy: Seq<u8>, pos: nat)
    requires
        schema is Choice,
    ensures
        generated(schema, entropy, pos) matches Some((v, end)) ==> {
            &&& conforms(schema, v)
            &&& !schema.mentions_oid() ==> !v.has_oid()
            &&& pos <= end
            &&& end <= entropy.len() || end == pos
        },
    decreases schema, 0nat, 0nat,
{
    let alternatives = schema->alternatives@;
    if alternatives.len() > 0 {
        lemma_pick_sound(entropy, pos, (alternatives.len() - 1) as nat);
        match pick(entropy, pos, (alternatives.len() - 1) as nat) {
            Some((index, start)) => {
                let chosen = alternatives[index as int];
                assert(decreases_to!(schema => chosen));
                generated_value_conforms(chosen, entropy, start);
                match generated(chosen, entropy, start) {
                    Some((inner, end)) => {
                        let v = ValueView::Choice(index, Box::new(inner));
                        assert(generated(schema, entropy, pos) == Some((v, end)));
                        assert(*v->Choice_1 == inner);
                        assert(conforms(schema, v));
                        if !schema.mentions_oid() {
                            assert(!schema->alternatives@[index as int].mentions_oid());
                        }
                    },
                    None => {},
                }
            },
            None => {},
        }
    }
}

/// The first `n` fields that are generated are values of their schemas.
pub proof fn lemma_generated_fields_conform(
    fields: Seq<Schema>,
    entropy: Seq<u8>,
    pos: nat,
    n: nat,
)
    requires
        n <= fields.len(),
    ensures
        generated_fields(fields, entropy, pos, n) matches Some((items, end)) ==> {
            &&& items.len() == n
            &&& forall|i: int| 0 <= i < n ==> #[trigger] conforms(fields[i], items[i])
            &&& forall|i: int|
                0 <= i < n && !fields[i].mentions_oid() ==> !(#[trigger] items[i]).has_oid()
            &&& n == fields.len() ==> fields_conform(fields, items)
            &&& pos <= end
            &&& end <= entropy.len() || end == pos
        },
    decreases fields, n, 0nat,
{
    if n > 0 {
        lemma_generated_fields_conform(fields, entropy, pos, (n - 1) as nat);
        match generated_fields(fields, entropy, pos, (n - 1) as nat) {
            Some((before, next)) => {
                assert(decreases_to!(fields => fields[n - 1]));
                generated_value_conforms(fields[n - 1], entropy, next);
                match generated(fields[n - 1], entropy, next) {
                    Some((item, end)) => {
                        let items = before.push(item);
                        assert forall|i: int| 0 <= i < n implies #[trigger] conforms(
                            fields[i],
                            items[i],
                        ) by {
                            if i < n - 1 {
                                assert(conforms(fields[i], before[i]));
                            }
                        }
                        assert forall|i: int|
                            0 <= i < n && !fields[i].mentions_oid() implies !(
                        #[trigger] items[i]).has_oid() by {
                            if i < n - 1 {
                                assert(!before[i].has_oid());
                            }
                        }
                    },
                    None => {},
                }
            },
            None => {},
        }
    }
}

/// The `n` elements that are generated are values of the element's schema.
pub proof fn lemma_generated_items_conform(element: Schema, entropy: Seq<u8>, pos: nat, n: nat)
    ensures
        generated_items(element, entropy, pos, n) matches Some((items, end)) ==> {
            &&& items.len() == n
            &&& items_conform(element, items)
            &&& !element.mentions_oid() ==> forall|i: int|
                0 <= i < n ==> !(#[trigger] items[i]).has_oid()
            &&& pos <= end
            &&& end <= entropy.len() || end == pos
        },
    decreases element, n, 0nat,
{
    if n > 0 {
        lemma_generated_items_conform(element, entropy, pos, (n - 1) as nat);
        match generated_items(element, entropy, pos, (n - 1) as nat) {
            Some((before, next)) => {
                generated_value_conforms(element, entropy, next);
                match generated(element, entropy, next) {
                    Some((item, end)) => {
                        let items = before.push(item);
                        assert forall|i: int| 0 <= i < items.len() implies #[trigger] conforms(
                            element,
                            items[i],
                        ) by {
                            if i < n - 1 {
                                assert(conforms(element, before[i]));
                            }
                        }
                        if !element.mentions_oid() {
                            assert forall|i: int| 0 <= i < n implies !(#[trigger] items[i]).has_oid() by {
                                if i < n - 1 {
                                    assert(!before[i].has_oid());
                                }
                            }
                        }
                    },
                    None => {},
                }
            },
            None => {},
        }
    }
}

/// Whether the octets `code` lie in `entropy` at position `pos`.
pub open spec fn lies_at(entropy: Seq<u8>, pos: nat, code: Seq<u8>) -> bool {
    &&& pos + code.len() <= entropy.len()
    &&& entropy.subrange(pos as int, (pos + code.len()) as int) == code
}

/// Where two runs of octets lie one after the other, each of them lies.
pub proof fn lemma_lies_split(entropy: Seq<u8>, pos: nat, first: Seq<u8>, second: Seq<u8>)
    requires
        lies_at(entropy, pos, first + second),
    ensures
        lies_at(entropy, pos, first),
        lies_at(entropy, pos + first.len(), second),
{
    let whole = entropy.subrange(pos as int, (pos + (first + second).len()) as int);
    assert(entropy.subrange(pos as int, (pos + first.len()) as int) =~= whole.subrange(
        0,
        first.len() as int,
    ));
    assert(whole.subrange(0, first.len() as int) =~= first);
    assert(entropy.subrange(
        (pos + first.len()) as int,
        (pos + first.len() + second.len()) as int,
    ) =~= whole.subrange(first.len() as int, whole.len() as int));
    assert(whole.subrange(first.len() as int, whole.len() as int) =~= second);
}

/// The `k` octets written for a number that fits them spell that number.
pub proof fn lemma_be_value_be_bytes(k: nat, x: nat)
    requires
        x < pow2(8 * k),
    ensures
        be_bytes(k, x).len() == k,
        be_value(be_bytes(k, x)) == x,
    decreases k,
{
    lemma2_to64();
    if k > 0 {
        lemma_pow2_adds(8 * (k - 1) as nat, 8);
        lemma_be_value_be_bytes((k - 1) as nat, x / 256);
        assert(be_bytes(k, x).drop_last() =~= be_bytes((k - 1) as nat, x / 256));
    }
}

/// `be_bytes` gives as many octets as asked for.
pub proof fn lemma_be_bytes_len(k: nat, x: nat)
    ensures
        be_bytes(k, x).len() == k,
    decreases k,
{
    if k > 0 {
        lemma_be_bytes_len((k - 1) as nat, x / 256);
    }
}

/// A number from zero to `span` is picked by the octets spent on it.
pub proof fn lemma_pick_roundtrip(entropy: Seq<u8>, pos: nat, span: nat, x: nat)
    requires
        x <= span,
        lies_at(entropy, pos, spend(span, x)),
    ensures
        pick(entropy, pos, span) == Some((x, pos + spend(span, x).len())),
{
    lemma_bit_width_bounds(span);
    lemma_pow2_monotone(bit_width(span), 8 * octets_for(span));
    lemma_be_value_be_bytes(octets_for(span), x);
    lemma_small_mod(x, span + 1);
}

/// One of two ways is picked by the octet spent on it.
pub proof fn lemma_flag_roundtrip(entropy: Seq<u8>, pos: nat, flag: bool)
    requires
        lies_at(entropy, pos, seq![if flag { 1u8 } else { 0u8 }]),
    ensures
        pick(entropy, pos, 1) == Some((if flag { 1nat } else { 0nat }, pos + 1)),
{
    assert(bit_width(1) == 1) by {
        reveal_with_fuel(bit_width, 2);
    }
    assert(octets_for(1) == 1);
    let octet = entropy.subrange(pos as int, (pos + 1) as int);
    let spent = seq![if flag { 1u8 } else { 0u8 }];
    assert(spent.len() == 1);
    assert(octet == spent);
    assert(octet.drop_last().len() == 0);
    assert(be_value(octet.drop_last()) == 0);
    assert(octet.last() == spent[0]);
    assert(be_value(octet) == octet.last());
    assert(draw(entropy, pos, 1) == Some((be_value(octet), pos + 1)));
    let x = be_value(octet);
    assert(x == if flag { 1nat } else { 0nat });
    assert(x % 2 == x);
    assert(pick(entropy, pos, 1) == Some((x % ((1 + 1) as nat), pos + 1)));
}

/// Any 64-bit integer is generated from the eight octets it flattens to.
pub proof fn lemma_unconstrained_entropy_roundtrip(entropy: Seq<u8>, pos: nat, v: int)
    requires
        i64::MIN <= v <= i64::MAX,
        lies_at(entropy, pos, be_bytes(8, twos_complement(8, v))),
    ensures
        generated_unconstrained(entropy, pos) == Some((v, pos + 8)),
{
    lemma2_to64();
    lemma2_to64_rest();
    lemma_be_value_be_bytes(8, twos_complement(8, v));
}

/// An integer is generated from the octets that it flattens to.
pub proof fn lemma_integer_entropy_roundtrip(
    c: IntegerConstraint,
    entropy: Seq<u8>,
    pos: nat,
    v: int,
)
    requires
        c.admits(v),
        lies_at(entropy, pos, flattened_integer(c, v)),
    ensures
        generated_integer(c, entropy, pos) == Some((v, pos + flattened_integer(c, v).len())),
{
    let (lo, hi) = integer_range(c);
    let start = if c.extensible {
        pos + 1
    } else {
        pos
    };
    if c.extensible {
        if c.in_root(v) {
            lemma_lies_split(entropy, pos, seq![0u8], flattened_integer_root(c, v));
            lemma_flag_roundtrip(entropy, pos, false);
        } else {
            lemma_lies_split(entropy, pos, seq![1u8], be_bytes(8, twos_complement(8, v)));
            lemma_flag_roundtrip(entropy, pos, true);
            lemma_be_bytes_len(8, twos_complement(8, v));
            lemma_unconstrained_entropy_roundtrip(entropy, start, v);
        }
    }
    if c.in_root(v) {
        if integer_is_bounded(c) {
            lemma_pick_roundtrip(entropy, start, (hi - lo) as nat, (v - lo) as nat);
        } else {
            lemma_be_bytes_len(8, twos_complement(8, v));
            lemma_unconstrained_entropy_roundtrip(entropy, start, v);
        }
    }
}

/// The index of an enumeration's value is generated from the octets that it
/// flattens to.
pub proof fn lemma_enumerated_entropy_roundtrip(
    c: EnumConstraint,
    entropy: Seq<u8>,
    pos: nat,
    index: nat,
)
    requires
        c.admits(index),
        lies_at(entropy, pos, flattened_enumerated(c, index)),
    ensures
        generated_enumerated(c, entropy, pos) == Some(
            (index, pos + flattened_enumerated(c, index).len()),
        ),
{
    let roots = c.root_count();
    if index < roots {
        let code = spend((roots - 1) as nat, index);
        if c.extensible() {
            lemma_lies_split(entropy, pos, seq![0u8], code);
            lemma_flag_roundtrip(entropy, pos, false);
            lemma_pick_roundtrip(entropy, pos + 1, (roots - 1) as nat, index);
        } else {
            assert(Seq::<u8>::empty() + code =~= code);
            lemma_pick_roundtrip(entropy, pos, (roots - 1) as nat, index);
        }
    } else {
        let place = (index - roots) as nat;
        let code = spend((c.ext_count() - 1) as nat, place);
        lemma_lies_split(entropy, pos, seq![1u8], code);
        lemma_flag_roundtrip(entropy, pos, true);
        lemma_pick_roundtrip(entropy, pos + 1, (c.ext_count() - 1) as nat, place);
    }
}

/// A size is generated from the octets that it flattens to.
pub proof fn lemma_size_entropy_roundtrip(c: SizeConstraint, entropy: Seq<u8>, pos: nat, len: nat)
    requires
        c.admits(len),
        lies_at(entropy, pos, flattened_size(c, len)),
    ensures
        generated_size(c, entropy, pos) == Some((len, pos + flattened_size(c, len).len())),
{
    let span = (greatest_size(c) - c.lower()) as nat;
    let offset = (len - c.lower()) as nat;
    if !c.extensible {
        lemma_pick_roundtrip(entropy, pos, span, offset);
    } else if c.in_root(len) {
        lemma_lies_split(entropy, pos, seq![0u8], flattened_size_root(c, len));
        lemma_flag_roundtrip(entropy, pos, false);
        lemma_pick_roundtrip(entropy, pos + 1, span, offset);
    } else {
        lemma_lies_split(entropy, pos, seq![1u8], spend(16383, len));
        lemma_flag_roundtrip(entropy, pos, true);
        lemma_pick_roundtrip(entropy, pos + 1, 16383, len);
    }
}

/// An octet string is generated from the octets that it flattens to.
pub proof fn lemma_octet_string_entropy_roundtrip(
    c: SizeConstraint,
    entropy: Seq<u8>,
    pos: nat,
    bytes: Seq<u8>,
)
    requires
        c.admits(bytes.len()),
        lies_at(entropy, pos, flattened_size(c, bytes.len()) + bytes),
    ensures
        generated_octet_string(c, entropy, pos) == Some(
            (bytes, pos + (flattened_size(c, bytes.len()) + bytes).len()),
        ),
{
    lemma_lies_split(entropy, pos, flattened_size(c, bytes.len()), bytes);
    lemma_size_entropy_roundtrip(c, entropy, pos, bytes.len());
}

/// A bit string is generated from the octets that it flattens to.
pub proof fn lemma_bit_string_entropy_roundtrip(
    c: SizeConstraint,
    entropy: Seq<u8>,
    pos: nat,
    content: Seq<bool>,
)
    requires
        c.admits(content.len()),
        lies_at(entropy, pos, flattened_size(c, content.len()) + packed(content)),
    ensures
        generated_bit_string(c, entropy, pos) == Some(
            (content, pos + (flattened_size(c, content.len()) + packed(content)).len()),
        ),
{
    lemma_lies_split(entropy, pos, flattened_size(c, content.len()), packed(content));
    lemma_size_entropy_roundtrip(c, entropy, pos, content.len());
    lemma_octets_bits_packed(content);
    assert(packed(content).len() == (content.len() + 7) / 8);
    assert((content + zeros(pad_len(content.len()))).subrange(0, content.len() as int)
        =~= content);
}

/// Generating from the place where a conforming value was flattened gives
/// the value and the position behind its octets, whatever follows.
pub proof fn lemma_entropy_roundtrip(schema: Schema, v: ValueView, entropy: Seq<u8>, pos: nat)
    requires
        conforms(schema, v),
        lies_at(entropy, pos, flattened(schema, v)),
    ensures
        generated(schema, entropy, pos) == Some((v, pos + flattened(schema, v).len())),
    decreases schema, 0nat, 1nat,
{
    match schema {
        Schema::Boolean => {
            lemma_flag_roundtrip(entropy, pos, v->Boolean_0);
        },
        Schema::Integer(c) => {
            lemma_integer_entropy_roundtrip(c, entropy, pos, v->Integer_0);
        },
        Schema::Enumerated(c) => {
            lemma_enumerated_entropy_roundtrip(c, entropy, pos, v->Enumerated_0);
        },
        Schema::OctetString(c) => {
            lemma_octet_string_entropy_roundtrip(c, entropy, pos, v->OctetString_0);
        },
        Schema::BitString(c) => {
            lemma_bit_string_entropy_roundtrip(c, entropy, pos, v->BitString_0);
        },
        Schema::Null => {},
        Schema::ObjectIdentifier => {},
        Schema::Sequence { fields } => {
            lemma_sequence_entropy_roundtrip(schema, v, entropy, pos);
        },
        Schema::SequenceOf { size, element } => {
            lemma_sequence_of_entropy_roundtrip(schema, v, entropy, pos);
        },
        Schema::Choice { alternatives, extensible } => {
            lemma_choice_entropy_roundtrip(schema, v, entropy, pos);
        },
    }
}

proof fn lemma_sequence_entropy_roundtrip(
    schema: Schema,
    v: ValueView,
    entropy: Seq<u8>,
    pos: nat,
)
    requires
        schema is Sequence,
        conforms(schema, v),
        lies_at(entropy, pos, flattened(schema, v)),
    ensures
        generated(schema, entropy, pos) == Some((v, pos + flattened(schema, v).len())),
    decreases schema, 0nat, 0nat,
{
    let fields = schema->fields@;
    let items = v->Sequence_0;
    assert(v == ValueView::Sequence(items));
    lemma_conforms_sequence(schema, items);
    assert(decreases_to!(schema => fields));
    lemma_fields_entropy_roundtrip(fields, items, entropy, pos, fields.len());
    assert(items.take(fields.len() as int) =~= items);
}

proof fn lemma_sequence_of_entropy_roundtrip(
    schema: Schema,
    v: ValueView,
    entropy: Seq<u8>,
    pos: nat,
)
    requires
        schema is SequenceOf,
        conforms(schema, v),
        lies_at(entropy, pos, flattened(schema, v)),
    ensures
        generated(schema, entropy, pos) == Some((v, pos + flattened(schema, v).len())),
    decreases schema, 0nat, 0nat,
{
    let size = schema->size;
    let element = *schema->element;
    let items = v->SequenceOf_0;
    assert(v == ValueView::SequenceOf(items));
    let head = flattened_size(size, items.len());
    lemma_conforms_sequence_of(schema, items);
    lemma_lies_split(entropy, pos, head, flattened_items(element, items, items.len()));
    lemma_size_entropy_roundtrip(size, entropy, pos, items.len());
    assert(decreases_to!(schema => element));
    lemma_items_entropy_roundtrip(element, items, entropy, pos + head.len(), items.len());
    assert(items.take(items.len() as int) =~= items);
}

proof fn lemma_choice_entropy_roundtrip(schema: Schema, v: ValueView, entropy: Seq<u8>, pos: nat)
    requires
        schema is Choice,
        conforms(schema, v),
        lies_at(entropy, pos, flattened(schema, v)),
    ensures
        generated(schema, entropy, pos) == Some((v, pos + flattened(schema, v).len())),
    decreases schema, 0nat, 0nat,
{
    let alternatives = schema->alternatives@;
    let index = v->Choice_0;
    let inner = *v->Choice_1;
    let chosen = alternatives[index as int];
    let head = spend((alternatives.len() - 1) as nat, index);
    let body = flattened(chosen, inner);
    let start = pos + head.len();
    assert(v == ValueView::Choice(index, Box::new(inner)));
    assert(index < alternatives.len() && conforms(chosen, inner));
    assert(flattened(schema, v) == head + body);
    lemma_lies_split(entropy, pos, head, body);
    lemma_pick_roundtrip(entropy, pos, (alternatives.len() - 1) as nat, index);
    assert(decreases_to!(schema => chosen));
    lemma_entropy_roundtrip(chosen, inner, entropy, start);
    assert(generated(chosen, entropy, start) == Some((inner, start + body.len())));
}

/// Generating from the place where the first `n` fields of a sequence were
/// flattened gives those fields.
pub proof fn lemma_fields_entropy_roundtrip(
    fields: Seq<Schema>,
    items: Seq<ValueView>,
    entropy: Seq<u8>,
    pos: nat,
    n: nat,
)
    requires
        n <= fields.len(),
        fields_conform(fields, items),
        lies_at(entropy, pos, flattened_fields(fields, items, n)),
    ensures
        generated_fields(fields, entropy, pos, n) == Some(
            (items.take(n as int), pos + flattened_fields(fields, items, n).len()),
        ),
    decreases fields, n, 0nat,
{
    if n == 0 {
        assert(items.take(0) =~= Seq::<ValueView>::empty());
    } else {
        let before = flattened_fields(fields, items, (n - 1) as nat);
        let last = flattened(fields[n - 1], items[n - 1]);
        lemma_lies_split(entropy, pos, before, last);
        lemma_fields_entropy_roundtrip(fields, items, entropy, pos, (n - 1) as nat);
        assert(conforms(fields[n - 1], items[n - 1]));
        assert(decreases_to!(fields => fields[n - 1]));
        lemma_entropy_roundtrip(fields[n - 1], items[n - 1], entropy, pos + before.len());
        assert(items.take(n - 1).push(items[n - 1]) =~= items.take(n as int));
    }
}

/// Generating from the place where the first `n` elements of a repetition
/// were flattened gives those elements.
pub proof fn lemma_items_entropy_roundtrip(
    element: Schema,
    items: Seq<ValueView>,
    entropy: Seq<u8>,
    pos: nat,
    n: nat,
)
    requires
        n <= items.len(),
        items_conform(element, items),
        lies_at(entropy, pos, flattened_items(element, items, n)),
    ensures
        generated_items(element, entropy, pos, n) == Some(
            (items.take(n as int), pos + flattened_items(element, items, n).len()),
        ),
    decreases element, n, 0nat,
{
    if n == 0 {
        assert(items.take(0) =~= Seq::<ValueView>::empty());
    } else {
        let before = flattened_items(element, items, (n - 1) as nat);
        let last = flattened(element, items[n - 1]);
        lemma_lies_split(entropy, pos, before, last);
        lemma_items_entropy_roundtrip(element, items, entropy, pos, (n - 1) as nat);
        assert(conforms(element, items[n - 1]));
        lemma_entropy_roundtrip(element, items[n - 1], entropy, pos + before.len());
        assert(items.take(n - 1).push(items[n - 1]) =~= items.take(n as int));
    }
}

/// Generating inverts flattening: what is generated from the entropy that a
/// conforming value flattens to, followed by whatever octets, is that value;
/// and generating consumes exactly the octets that flattening wrote.
pub proof fn flatten_generate_roundtrip(schema: Schema, v: ValueView, rest: Seq<u8>)
    requires
        conforms(schema, v),
    ensures
        generated(schema, flattened(schema, v) + rest, 0) == Some(
            (v, flattened(schema, v).len()),
        ),
{
    let code = flattened(schema, v);
    assert((code + rest).subrange(0, code.len() as int) =~= code);
    lemma_entropy_roundtrip(schema, v, code + rest, 0);
}

} // verus!
