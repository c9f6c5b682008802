//! Generating a value from entropy.

use crate::entropy::scheme::{
    be_value, draw, generated, generated_bit_string, generated_enumerated,
    generated_enumerated_root, generated_fields, generated_integer, generated_integer_root,
    generated_items, generated_octet_string, generated_size, generated_size_root,
    generated_unconstrained, pick,
};
use crate::error::ErrorKind;
use crate::numeric::{bit_at, lemma_pow2_monotone, octets_bits, significant_bits};
use crate::schema::{
    EnumConstraint, GENERAL_LENGTH_LIMIT, IntegerConstraint, Schema, SizeConstraint,
};
use crate::value::{Value, ValueView, lemma_views_push, model, views};
use vstd::arithmetic::power2::{lemma2_to64, lemma2_to64_rest, lemma_pow2_adds, pow2};
use vstd::prelude::*;

verus! {

/// A number spelled by `n` octets lies below `256^n`.
pub proof fn lemma_be_value_bound(bytes: Seq<u8>)
    ensures
        be_value(bytes) < pow2(8 * bytes.len()),
    decreases bytes.len(),
{
    lemma2_to64();
    if bytes.len() > 0 {
        lemma_be_value_bound(bytes.drop_last());
        lemma_pow2_adds(8 * (bytes.len() - 1) as nat, 8);
    }
}

/// Takes the next `k` octets as a number.
fn draw_octets(entropy: &[u8], pos: &mut usize, k: u8) -> (r: Result<u64, ErrorKind>)
    requires
        *old(pos) <= entropy@.len(),
        k <= 8,
    ensures
        *final(pos) <= entropy@.len(),
        match r {
            Ok(x) => draw(entropy@, *old(pos) as nat, k as nat) == Some(
                (x as nat, *final(pos) as nat),
            ),
            Err(e) => e == ErrorKind::Entropic && draw(entropy@, *old(pos) as nat, k as nat)
                is None,
        },
{
    let start = *pos;
    if entropy.len() - start < k as usize {
        return Err(ErrorKind::Entropic);
    }
    let mut x: u64 = 0;
    let mut i: u8 = 0;
    while i < k
        invariant
            i <= k <= 8,
            start + k <= entropy@.len() <= usize::MAX,
            x == be_value(entropy@.subrange(start as int, start + i)),
        decreases k - i,
    {
        let ghost taken = entropy@.subrange(start as int, start + i);
        proof {
            lemma_be_value_bound(taken);
            lemma_pow2_monotone(8 * i as nat, 56);
            lemma2_to64();
            lemma2_to64_rest();
            let next = entropy@.subrange(start as int, start + i + 1);
            assert(next.drop_last() =~= taken);
        }
        x = x * 256 + entropy[start + i as usize] as u64;
        i = i + 1;
    }
    *pos = start + k as usize;
    Ok(x)
}

/// Picks a number from zero to `span`.
fn pick_number(entropy: &[u8], pos: &mut usize, span: u64) -> (r: Result<u64, ErrorKind>)
    requires
        *old(pos) <= entropy@.len(),
    ensures
        *final(pos) <= entropy@.len(),
        match r {
            Ok(x) => pick(entropy@, *old(pos) as nat, span as nat) == Some(
                (x as nat, *final(pos) as nat),
            ) && x <= span,
            Err(e) => e == ErrorKind::Entropic && pick(entropy@, *old(pos) as nat, span as nat)
                is None,
        },
{
    let k: u8 = (significant_bits(span) + 7) / 8;
    let ghost start = *pos;
    let x = draw_octets(entropy, pos, k)?;
    if span == u64::MAX {
        Ok(x)
    } else {
        Ok(x % (span + 1))
    }
}

/// Picks between two ways.
fn pick_flag(entropy: &[u8], pos: &mut usize) -> (r: Result<bool, ErrorKind>)
    requires
        *old(pos) <= entropy@.len(),
    ensures
        *final(pos) <= entropy@.len(),
        match r {
            Ok(flag) => pick(entropy@, *old(pos) as nat, 1) matches Some((x, end)) && flag == (x
                == 1) && end == *final(pos),
            Err(e) => e == ErrorKind::Entropic && pick(entropy@, *old(pos) as nat, 1) is None,
        },
{
    let x = pick_number(entropy, pos, 1)?;
    Ok(x == 1)
}

/// Generates any 64-bit integer.
fn generate_unconstrained(entropy: &[u8], pos: &mut usize) -> (r: Result<i64, ErrorKind>)
    requires
        *old(pos) <= entropy@.len(),
    ensures
        *final(pos) <= entropy@.len(),
        match r {
            Ok(v) => generated_unconstrained(entropy@, *old(pos) as nat) == Some(
                (v as int, *final(pos) as nat),
            ),
            Err(e) => e == ErrorKind::Entropic && generated_unconstrained(
                entropy@,
                *old(pos) as nat,
            ) is None,
        },
{
    proof {
        lemma2_to64();
        lemma2_to64_rest();
    }
    let x = draw_octets(entropy, pos, 8)?;
    if x >= 0x8000_0000_0000_0000u64 {
        Ok((x as i128 - 0x1_0000_0000_0000_0000i128) as i64)
    } else {
        Ok(x as i64)
    }
}

/// Generates an integer within the bounds of `c`.
fn generate_integer_root(entropy: &[u8], pos: &mut usize, c: &IntegerConstraint) -> (r: Result<
    i64,
    ErrorKind,
>)
    requires
        *old(pos) <= entropy@.len(),
    ensures
        *final(pos) <= entropy@.len(),
        match r {
            Ok(v) => generated_integer_root(*c, entropy@, *old(pos) as nat) == Some(
                (v as int, *final(pos) as nat),
            ),
            Err(e) => e == ErrorKind::Entropic && generated_integer_root(
                *c,
                entropy@,
                *old(pos) as nat,
            ) is None,
        },
{
    if c.lower_bound.is_none() && c.upper_bound.is_none() {
        return generate_unconstrained(entropy, pos);
    }
    let lo: i64 = match c.lower_bound {
        Some(lb) => lb,
        None => i64::MIN,
    };
    let hi: i64 = match c.upper_bound {
        Some(ub) => ub,
        None => i64::MAX,
    };
    if lo > hi {
        return Err(ErrorKind::Entropic);
    }
    let span: u64 = (hi as i128 - lo as i128) as u64;
    let x = pick_number(entropy, pos, span)?;
    Ok((lo as i128 + x as i128) as i64)
}

/// Generates an integer of `c`.
pub fn generate_integer(entropy: &[u8], pos: &mut usize, c: &IntegerConstraint) -> (r: Result<
    i64,
    ErrorKind,
>)
    requires
        *old(pos) <= entropy@.len(),
    ensures
        *final(pos) <= entropy@.len(),
        match r {
            Ok(v) => generated_integer(*c, entropy@, *old(pos) as nat) == Some(
                (v as int, *final(pos) as nat),
            ),
            Err(e) => e == ErrorKind::Entropic && generated_integer(
                *c,
                entropy@,
                *old(pos) as nat,
            ) is None,
        },
{
    if !c.extensible {
        generate_integer_root(entropy, pos, c)
    } else {
        let outside = pick_flag(entropy, pos)?;
        if outside {
            generate_unconstrained(entropy, pos)
        } else {
            generate_integer_root(entropy, pos, c)
        }
    }
}

/// Generates the index of a root value.
fn generate_enumerated_root(entropy: &[u8], pos: &mut usize, c: &EnumConstraint) -> (r: Result<
    usize,
    ErrorKind,
>)
    requires
        *old(pos) <= entropy@.len(),
    ensures
        *final(pos) <= entropy@.len(),
        match r {
            Ok(i) => generated_enumerated_root(*c, entropy@, *old(pos) as nat) == Some(
                (i as nat, *final(pos) as nat),
            ),
            Err(e) => e == ErrorKind::Entropic && generated_enumerated_root(
                *c,
                entropy@,
                *old(pos) as nat,
            ) is None,
        },
{
    let roots = c.root_values.len();
    if roots == 0 {
        return Err(ErrorKind::Entropic);
    }
    let x = pick_number(entropy, pos, (roots - 1) as u64)?;
    Ok(x as usize)
}

/// Generates the index of a value of `c`.
pub fn generate_enumerated(entropy: &[u8], pos: &mut usize, c: &EnumConstraint) -> (r: Result<
    usize,
    ErrorKind,
>)
    requires
        *old(pos) <= entropy@.len(),
    ensures
        *final(pos) <= entropy@.len(),
        match r {
            Ok(i) => generated_enumerated(*c, entropy@, *old(pos) as nat) == Some(
                (i as nat, *final(pos) as nat),
            ),
            Err(e) => e == ErrorKind::Entropic && generated_enumerated(
                *c,
                entropy@,
                *old(pos) as nat,
            ) is None,
        },
{
    if c.ext_marker_index.is_none() {
        return generate_enumerated_root(entropy, pos, c);
    }
    let extension = pick_flag(entropy, pos)?;
    let extras = c.ext_values.len();
    if extension && extras > 0 {
        let x = pick_number(entropy, pos, (extras - 1) as u64)?;
        match c.root_values.len().checked_add(x as usize) {
            Some(index) => Ok(index),
            None => Err(ErrorKind::Entropic),
        }
    } else {
        generate_enumerated_root(entropy, pos, c)
    }
}

/// Generates a size within the bounds of `c`.
fn generate_size_root(entropy: &[u8], pos: &mut usize, c: &SizeConstraint) -> (r: Result<
    usize,
    ErrorKind,
>)
    requires
        *old(pos) <= entropy@.len(),
    ensures
        *final(pos) <= entropy@.len(),
        match r {
            Ok(len) => generated_size_root(*c, entropy@, *old(pos) as nat) == Some(
                (len as nat, *final(pos) as nat),
            ),
            Err(e) => e == ErrorKind::Entropic && generated_size_root(
                *c,
                entropy@,
                *old(pos) as nat,
            ) is None,
        },
{
    let lower = c.minimum();
    let greatest: usize = match c.max_size {
        Some(mx) => mx,
        None => GENERAL_LENGTH_LIMIT - 1,
    };
    if lower > greatest {
        return Err(ErrorKind::Entropic);
    }
    let x = pick_number(entropy, pos, (greatest - lower) as u64)?;
    Ok(lower + x as usize)
}

/// Generates a size of `c`.
pub fn generate_size(entropy: &[u8], pos: &mut usize, c: &SizeConstraint) -> (r: Result<
    usize,
    ErrorKind,
>)
    requires
        *old(pos) <= entropy@.len(),
    ensures
        *final(pos) <= entropy@.len(),
        match r {
            Ok(len) => generated_size(*c, entropy@, *old(pos) as nat) == Some(
                (len as nat, *final(pos) as nat),
            ),
            Err(e) => e == ErrorKind::Entropic && generated_size(*c, entropy@, *old(pos) as nat)
                is None,
        },
{
    if !c.extensible {
        generate_size_root(entropy, pos, c)
    } else {
        let outside = pick_flag(entropy, pos)?;
        if outside {
            let x = pick_number(entropy, pos, (GENERAL_LENGTH_LIMIT - 1) as u64)?;
            Ok(x as usize)
        } else {
            generate_size_root(entropy, pos, c)
        }
    }
}

/// Generates an octet string.
pub fn generate_octet_string(entropy: &[u8], pos: &mut usize, c: &SizeConstraint) -> (r: Result<
    Vec<u8>,
    ErrorKind,
>)
    requires
        *old(pos) <= entropy@.len(),
    ensures
        *final(pos) <= entropy@.len(),
        match r {
            Ok(bytes) => generated_octet_string(*c, entropy@, *old(pos) as nat) == Some(
                (bytes@, *final(pos) as nat),
            ),
            Err(e) => e == ErrorKind::Entropic && generated_octet_string(
                *c,
                entropy@,
                *old(pos) as nat,
            ) is None,
        },
{
    let len = generate_size(entropy, pos, c)?;
    let start = *pos;
    if entropy.len() - start < len {
        return Err(ErrorKind::Entropic);
    }
    let mut bytes: Vec<u8> = Vec::new();
    let mut i: usize = 0;
    while i < len
        invariant
            i <= len,
            start + len <= entropy@.len() <= usize::MAX,
            bytes@ == entropy@.subrange(start as int, start + i),
        decreases len - i,
    {
        bytes.push(entropy[start + i]);
        assert(bytes@ =~= entropy@.subrange(start as int, start + i + 1));
        i += 1;
    }
    *pos = start + len;
    Ok(bytes)
}

/// Generates a bit string.
pub fn generate_bit_string(entropy: &[u8], pos: &mut usize, c: &SizeConstraint) -> (r: Result<
    Vec<bool>,
    ErrorKind,
>)
    requires
        *old(pos) <= entropy@.len(),
    ensures
        *final(pos) <= entropy@.len(),
        match r {
            Ok(content) => generated_bit_string(*c, entropy@, *old(pos) as nat) == Some(
                (content@, *final(pos) as nat),
            ),
            Err(e) => e == ErrorKind::Entropic && generated_bit_string(
                *c,
                entropy@,
                *old(pos) as nat,
            ) is None,
        },
{
    let len = generate_size(entropy, pos, c)?;
    let start = *pos;
    let octets: usize = len / 8 + if len % 8 == 0 {
        0
    } else {
        1
    };
    assert(octets == (len + 7) / 8);
    if entropy.len() - start < octets {
        return Err(ErrorKind::Entropic);
    }
    let ghost source = octets_bits(entropy@.subrange(start as int, start + octets));
    let mut content: Vec<bool> = Vec::new();
    let mut i: usize = 0;
    assert(content@ =~= source.subrange(0, 0));
    while i < len
        invariant
            i <= len,
            octets == (len + 7) / 8,
            start + octets <= entropy@.len() <= usize::MAX,
            source == octets_bits(entropy@.subrange(start as int, start + octets)),
            content@ == source.subrange(0, i as int),
        decreases len - i,
    {
        let bit = bit_at(entropy[start + i / 8], (i % 8) as u8);
        content.push(bit);
        assert(content@ =~= source.subrange(0, i + 1));
        i += 1;
    }
    *pos = start + octets;
    Ok(content)
}

/// Once some field cannot be generated, neither can the fields up to a
/// later one.
pub proof fn lemma_generated_fields_fails(
    fields: Seq<Schema>,
    entropy: Seq<u8>,
    pos: nat,
    k: nat,
    n: nat,
)
    requires
        k <= n <= fields.len(),
        generated_fields(fields, entropy, pos, k) is None,
    ensures
        generated_fields(fields, entropy, pos, n) is None,
    decreases n,
{
    if k < n {
        lemma_generated_fields_fails(fields, entropy, pos, k, (n - 1) as nat);
    }
}

/// Once some element cannot be generated, neither can the elements up to a
/// later one.
pub proof fn lemma_generated_items_fails(
    element: Schema,
    entropy: Seq<u8>,
    pos: nat,
    k: nat,
    n: nat,
)
    requires
        k <= n,
        generated_items(element, entropy, pos, k) is None,
    ensures
        generated_items(element, entropy, pos, n) is None,
    decreases n,
{
    if k < n {
        lemma_generated_items_fails(element, entropy, pos, k, (n - 1) as nat);
    }
}

/// Generates a value of `schema` from the octets at `pos`, and moves `pos`
/// behind those consumed. Fails with `Entropic` where the octets run out or
/// the schema has no value.
pub fn generate(entropy: &[u8], pos: &mut usize, schema: &Schema) -> (r: Result<Value, ErrorKind>)
    requires
        *old(pos) <= entropy@.len(),
    ensures
        *final(pos) <= entropy@.len(),
        match r {
            Ok(v) => generated(*schema, entropy@, *old(pos) as nat) == Some(
                (v@, *final(pos) as nat),
            ),
            Err(e) => e == ErrorKind::Entropic && generated(*schema, entropy@, *old(pos) as nat)
                is None,
        },
    decreases schema, 0nat,
{
    match schema {
        Schema::Boolean => {
            let flag = pick_flag(entropy, pos)?;
            Ok(Value::Boolean(flag))
        },
        Schema::Integer(c) => {
            let x = generate_integer(entropy, pos, c)?;
            Ok(Value::Integer(x))
        },
        Schema::Enumerated(c) => {
            let i = generate_enumerated(entropy, pos, c)?;
            Ok(Value::Enumerated(i))
        },
        Schema::OctetString(c) => {
            let bytes = generate_octet_string(entropy, pos, c)?;
            Ok(Value::OctetString(bytes))
        },
        Schema::BitString(c) => {
            let content = generate_bit_string(entropy, pos, c)?;
            Ok(Value::BitString(content))
        },
        Schema::Null => Ok(Value::Null),
        Schema::ObjectIdentifier => Ok(Value::ObjectIdentifier),
        Schema::Sequence { fields } => {
            proof {
                assert(decreases_to!(schema => fields));
            }
            let items = generate_fields(entropy, pos, fields)?;
            Ok(Value::Sequence(items))
        },
        Schema::SequenceOf { size, element } => {
            let len = generate_size(entropy, pos, size)?;
            proof {
                assert(decreases_to!(schema => element));
            }
            let items = generate_items(entropy, pos, element, len)?;
            Ok(Value::SequenceOf(items))
        },
        Schema::Choice { alternatives, extensible } => {
            let count = alternatives.len();
            if count == 0 {
                return Err(ErrorKind::Entropic);
            }
            let x = pick_number(entropy, pos, (count - 1) as u64)?;
            let index = x as usize;
            proof {
                assert(decreases_to!(schema => alternatives[index as int]));
            }
            let inner = generate(entropy, pos, &alternatives[index])?;
            Ok(Value::Choice(index, Box::new(inner)))
        },
    }
}

/// Generates the fields of a sequence, one after the other.
fn generate_fields(entropy: &[u8], pos: &mut usize, fields: &Vec<Schema>) -> (r: Result<
    Vec<Value>,
    ErrorKind,
>)
    requires
        *old(pos) <= entropy@.len(),
    ensures
        *final(pos) <= entropy@.len(),
        match r {
            Ok(items) => generated_fields(fields@, entropy@, *old(pos) as nat, fields@.len())
                == Some((views(items@), *final(pos) as nat)),
            Err(e) => e == ErrorKind::Entropic && generated_fields(
                fields@,
                entropy@,
                *old(pos) as nat,
                fields@.len(),
            ) is None,
        },
    decreases fields, 1nat,
{
    let ghost origin = *pos as nat;
    let mut items: Vec<Value> = Vec::new();
    let mut i: usize = 0;
    assert(views(items@) =~= Seq::<ValueView>::empty());
    while i < fields.len()
        invariant
            i <= fields.len(),
            *pos <= entropy@.len(),
            origin == *old(pos),
            generated_fields(fields@, entropy@, origin, i as nat) == Some(
                (views(items@), *pos as nat),
            ),
        decreases fields.len() - i,
    {
        assert(decreases_to!(fields => fields[i as int]));
        match generate(entropy, pos, &fields[i]) {
            Ok(item) => {
                proof {
                    lemma_views_push(items@, item);
                }
                items.push(item);
            },
            Err(e) => {
                proof {
                    lemma_generated_fields_fails(
                        fields@,
                        entropy@,
                        origin,
                        (i + 1) as nat,
                        fields@.len(),
                    );
                }
                return Err(e);
            },
        }
        i += 1;
    }
    Ok(items)
}

/// Generates `count` elements of a repetition, one after the other.
fn generate_items(entropy: &[u8], pos: &mut usize, element: &Schema, count: usize) -> (r: Result<
    Vec<Value>,
    ErrorKind,
>)
    requires
        *old(pos) <= entropy@.len(),
    ensures
        *final(pos) <= entropy@.len(),
        match r {
            Ok(items) => generated_items(*element, entropy@, *old(pos) as nat, count as nat)
                == Some((views(items@), *final(pos) as nat)),
            Err(e) => e == ErrorKind::Entropic && generated_items(
                *element,
                entropy@,
                *old(pos) as nat,
                count as nat,
            ) is None,
        },
    decreases element, 1nat,
{
    let ghost origin = *pos as nat;
    let mut items: Vec<Value> = Vec::new();
    let mut i: usize = 0;
    assert(views(items@) =~= Seq::<ValueView>::empty());
    while i < count
        invariant
            i <= count,
            *pos <= entropy@.len(),
            origin == *old(pos),
            generated_items(*element, entropy@, origin, i as nat) == Some(
                (views(items@), *pos as nat),
            ),
        decreases count - i,
    {
        match generate(entropy, pos, element) {
            Ok(item) => {
                proof {
                    lemma_views_push(items@, item);
                }
                items.push(item);
            },
            Err(e) => {
                proof {
                    lemma_generated_items_fails(
                        *element,
                        entropy@,
                        origin,
                        (i + 1) as nat,
                        count as nat,
                    );
                }
                return Err(e);
            },
        }
        i += 1;
    }
    Ok(items)
}

/// Generates a value of `schema` from `entropy`, read from its start. The
/// same octets under the same schema always give the same value. Fails with
/// `Entropic` where the octets run out before the value is complete, or the
/// schema has no value.
pub fn from_entropy(schema: &Schema, entropy: &[u8]) -> (r: Result<Value, ErrorKind>)
    ensures
        match r {
            Ok(v) => generated(*schema, entropy@, 0) matches Some((model, _)) && model == v@,
            Err(e) => e == ErrorKind::Entropic && generated(*schema, entropy@, 0) is None,
        },
{
    let mut pos: usize = 0;
    generate(entropy, &mut pos, schema)
}

} // verus!
