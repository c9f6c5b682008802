//! Decoders: one per kind, each reading from a wire buffer exactly what the
//! rules say stands at the cursor. Every failure, whether the bits end too
//! early or spell no value of the kind, is reported as `Encoding`.

use crate::error::ErrorKind;
use crate::numeric::{
    lemma_value_of_bound, octet_power, octets_at, octets_bits, significant_bits, window,
};
use crate::per::rules::{
    SMALL_BITS, SMALL_OCTETS, read_bit_string, read_enumerated, read_enumerated_extension,
    read_enumerated_root, read_fields, read_general_length, read_integer, read_integer_root,
    read_items, read_length, read_length_root, read_octet_string, read_semi_constrained,
    read_small_number, read_unconstrained, read_value, skip_padding, take,
};
use crate::schema::{Codec, EnumConstraint, IntegerConstraint, Schema, SizeConstraint};
use crate::value::{Value, ValueView, lemma_views_push, model, views};
use crate::wire::WireBuffer;
use vstd::arithmetic::power2::{lemma2_to64, lemma_pow2_unfold, pow2};
use vstd::prelude::*;

verus! {

/// Reads `n` bits as a number.
fn take_bits(buf: &mut WireBuffer, n: u8) -> (r: Result<u64, ErrorKind>)
    requires
        old(buf).wf(),
        n <= 64,
    ensures
        final(buf).wf(),
        final(buf).bits() == old(buf).bits(),
        final(buf).aligned() == old(buf).aligned(),
        match r {
            Ok(x) => take(old(buf).bits(), old(buf).cursor(), n as nat) == Some(
                (x as nat, final(buf).cursor()),
            ) && x < pow2(n as nat),
            Err(e) => e == ErrorKind::Encoding && take(old(buf).bits(), old(buf).cursor(), n as nat)
                is None,
        },
{
    proof {
        lemma_value_of_bound(window(buf.bits(), buf.cursor(), n as nat));
    }
    match buf.read_bits(n) {
        Ok(x) => Ok(x),
        Err(_) => Err(ErrorKind::Encoding),
    }
}

/// Moves over the padding that stands at the cursor where `active` holds.
fn pass_padding(buf: &mut WireBuffer, active: bool) -> (r: Result<(), ErrorKind>)
    requires
        old(buf).wf(),
    ensures
        final(buf).wf(),
        final(buf).bits() == old(buf).bits(),
        final(buf).aligned() == old(buf).aligned(),
        match r {
            Ok(()) => skip_padding(old(buf).bits(), active, old(buf).cursor()) == Some(
                final(buf).cursor(),
            ),
            Err(e) => e == ErrorKind::Encoding && skip_padding(
                old(buf).bits(),
                active,
                old(buf).cursor(),
            ) is None,
        },
{
    if active {
        match buf.skip_to_octet() {
            Ok(()) => Ok(()),
            Err(_) => Err(ErrorKind::Encoding),
        }
    } else {
        proof {
            buf.lemma_cursor_in_bounds();
        }
        Ok(())
    }
}

/// Reads `len` octets.
fn take_octets(buf: &mut WireBuffer, len: usize) -> (r: Result<Vec<u8>, ErrorKind>)
    requires
        old(buf).wf(),
    ensures
        final(buf).wf(),
        final(buf).bits() == old(buf).bits(),
        final(buf).aligned() == old(buf).aligned(),
        match r {
            Ok(bytes) => {
                &&& old(buf).cursor() + 8 * len <= old(buf).bits().len()
                &&& bytes@ == octets_at(old(buf).bits(), old(buf).cursor(), len as nat)
                &&& final(buf).cursor() == old(buf).cursor() + 8 * len
            },
            Err(e) => e == ErrorKind::Encoding && old(buf).cursor() + 8 * len > old(
                buf,
            ).bits().len(),
        },
{
    let ghost bits = buf.bits();
    let ghost start = buf.cursor();
    let mut bytes: Vec<u8> = Vec::new();
    let mut i: usize = 0;
    proof {
        buf.lemma_cursor_in_bounds();
    }
    while i < len
        invariant
            i <= len,
            buf.wf(),
            buf.bits() == bits,
            bits == old(buf).bits(),
            start == old(buf).cursor(),
            buf.aligned() == old(buf).aligned(),
            buf.cursor() == start + 8 * i,
            start + 8 * i <= bits.len(),
            bytes@ == octets_at(bits, start, i as nat),
        decreases len - i,
    {
        proof {
            lemma2_to64();
        }
        let x = match take_bits(buf, 8) {
            Ok(x) => x,
            Err(e) => {
                return Err(e);
            },
        };
        bytes.push(x as u8);
        assert(bytes@ =~= octets_at(bits, start, (i + 1) as nat));
        i += 1;
    }
    Ok(bytes)
}

/// Reads `len` bits.
fn take_content(buf: &mut WireBuffer, len: usize) -> (r: Result<Vec<bool>, ErrorKind>)
    requires
        old(buf).wf(),
    ensures
        final(buf).wf(),
        final(buf).bits() == old(buf).bits(),
        final(buf).aligned() == old(buf).aligned(),
        match r {
            Ok(content) => {
                &&& old(buf).cursor() + len <= old(buf).bits().len()
                &&& content@ == window(old(buf).bits(), old(buf).cursor(), len as nat)
                &&& final(buf).cursor() == old(buf).cursor() + len
            },
            Err(e) => e == ErrorKind::Encoding && old(buf).cursor() + len > old(buf).bits().len(),
        },
{
    let ghost bits = buf.bits();
    let ghost start = buf.cursor();
    let mut content: Vec<bool> = Vec::new();
    let mut i: usize = 0;
    proof {
        buf.lemma_cursor_in_bounds();
        assert(content@ =~= window(bits, start, 0));
    }
    while i < len
        invariant
            i <= len,
            buf.wf(),
            buf.bits() == bits,
            bits == old(buf).bits(),
            start == old(buf).cursor(),
            buf.aligned() == old(buf).aligned(),
            buf.cursor() == start + i,
            start + i <= bits.len(),
            content@ == window(bits, start, i as nat),
        decreases len - i,
    {
        let bit = match buf.read_bit() {
            Ok(bit) => bit,
            Err(_) => {
                return Err(ErrorKind::Encoding);
            },
        };
        content.push(bit);
        assert(content@ =~= window(bits, start, (i + 1) as nat));
        i += 1;
    }
    Ok(content)
}

/// Reads a boolean.
pub fn decode_bool(buf: &mut WireBuffer) -> (r: Result<bool, ErrorKind>)
    requires
        old(buf).wf(),
    ensures
        final(buf).wf(),
        final(buf).bits() == old(buf).bits(),
        final(buf).aligned() == old(buf).aligned(),
        match r {
            Ok(b) => take(old(buf).bits(), old(buf).cursor(), 1) matches Some((flag, end))
                && b == (flag == 1) && end == final(buf).cursor(),
            Err(e) => e == ErrorKind::Encoding && take(old(buf).bits(), old(buf).cursor(), 1)
                is None,
        },
{
    match take_bits(buf, 1) {
        Ok(flag) => Ok(flag == 1),
        Err(e) => Err(e),
    }
}

/// Reads a general length determinant.
pub fn decode_general_length(buf: &mut WireBuffer) -> (r: Result<usize, ErrorKind>)
    requires
        old(buf).wf(),
    ensures
        final(buf).wf(),
        final(buf).bits() == old(buf).bits(),
        final(buf).aligned() == old(buf).aligned(),
        match r {
            Ok(len) => read_general_length(old(buf).bits(), old(buf).aligned(), old(buf).cursor())
                == Some((len as nat, final(buf).cursor())) && len < 16384,
            Err(e) => e == ErrorKind::Encoding && read_general_length(
                old(buf).bits(),
                old(buf).aligned(),
                old(buf).cursor(),
            ) is None,
        },
{
    proof {
        lemma2_to64();
    }
    let aligned = buf.is_aligned();
    pass_padding(buf, aligned)?;
    let first = take_bits(buf, 8)?;
    if first < 128 {
        Ok(first as usize)
    } else if first < 192 {
        let second = take_bits(buf, 8)?;
        Ok(((first - 128) * 256 + second) as usize)
    } else {
        Err(ErrorKind::Encoding)
    }
}

/// Reads a non-negative number of up to eight octets.
pub fn decode_semi_constrained(buf: &mut WireBuffer) -> (r: Result<u64, ErrorKind>)
    requires
        old(buf).wf(),
    ensures
        final(buf).wf(),
        final(buf).bits() == old(buf).bits(),
        final(buf).aligned() == old(buf).aligned(),
        match r {
            Ok(x) => read_semi_constrained(old(buf).bits(), old(buf).aligned(), old(buf).cursor())
                == Some((x as nat, final(buf).cursor())),
            Err(e) => e == ErrorKind::Encoding && read_semi_constrained(
                old(buf).bits(),
                old(buf).aligned(),
                old(buf).cursor(),
            ) is None,
        },
{
    let k = decode_general_length(buf)?;
    if k == 0 || k > 8 {
        return Err(ErrorKind::Encoding);
    }
    take_bits(buf, 8 * (k as u8))
}

/// Reads an integer of up to eight octets in two's complement.
pub fn decode_unconstrained(buf: &mut WireBuffer) -> (r: Result<i64, ErrorKind>)
    requires
        old(buf).wf(),
    ensures
        final(buf).wf(),
        final(buf).bits() == old(buf).bits(),
        final(buf).aligned() == old(buf).aligned(),
        match r {
            Ok(v) => read_unconstrained(old(buf).bits(), old(buf).aligned(), old(buf).cursor())
                == Some((v as int, final(buf).cursor())),
            Err(e) => e == ErrorKind::Encoding && read_unconstrained(
                old(buf).bits(),
                old(buf).aligned(),
                old(buf).cursor(),
            ) is None,
        },
{
    let k = decode_general_length(buf)?;
    if k == 0 || k > 8 {
        return Err(ErrorKind::Encoding);
    }
    let k: u8 = k as u8;
    let u = take_bits(buf, 8 * k)?;
    let whole = octet_power(k);
    proof {
        lemma2_to64();
        lemma_pow2_unfold(8 * k as nat);
    }
    let half = whole / 2;
    if u as u128 >= half {
        Ok((u as i128 - whole as i128) as i64)
    } else {
        Ok(u as i64)
    }
}

/// Reads an integer within the bounds of `c`.
fn decode_integer_root(buf: &mut WireBuffer, c: &IntegerConstraint) -> (r: Result<i64, ErrorKind>)
    requires
        old(buf).wf(),
    ensures
        final(buf).wf(),
        final(buf).bits() == old(buf).bits(),
        final(buf).aligned() == old(buf).aligned(),
        match r {
            Ok(v) => read_integer_root(*c, old(buf).bits(), old(buf).aligned(), old(buf).cursor())
                == Some((v as int, final(buf).cursor())),
            Err(e) => e == ErrorKind::Encoding && read_integer_root(
                *c,
                old(buf).bits(),
                old(buf).aligned(),
                old(buf).cursor(),
            ) is None,
        },
{
    match (c.lower_bound, c.upper_bound) {
        (Some(lb), Some(ub)) => {
            if lb > ub {
                return Err(ErrorKind::Encoding);
            }
            let span: u64 = (ub as i128 - lb as i128) as u64;
            let x = take_bits(buf, significant_bits(span))?;
            if x > span {
                return Err(ErrorKind::Encoding);
            }
            Ok((lb as i128 + x as i128) as i64)
        },
        (Some(lb), None) => {
            let x = decode_semi_constrained(buf)?;
            let v: i128 = lb as i128 + x as i128;
            if v > i64::MAX as i128 {
                return Err(ErrorKind::Encoding);
            }
            Ok(v as i64)
        },
        (None, Some(ub)) => {
            let v = decode_unconstrained(buf)?;
            if v > ub {
                return Err(ErrorKind::Encoding);
            }
            Ok(v)
        },
        (None, None) => decode_unconstrained(buf),
    }
}

/// Reads an integer. Where the extension bit is set, the value is read as an
/// unconstrained integer and is not held against the bounds.
pub fn decode_integer(buf: &mut WireBuffer, c: &IntegerConstraint) -> (r: Result<i64, ErrorKind>)
    requires
        old(buf).wf(),
    ensures
        final(buf).wf(),
        final(buf).bits() == old(buf).bits(),
        final(buf).aligned() == old(buf).aligned(),
        match r {
            Ok(v) => read_integer(*c, old(buf).bits(), old(buf).aligned(), old(buf).cursor())
                == Some((v as int, final(buf).cursor())),
            Err(e) => e == ErrorKind::Encoding && read_integer(
                *c,
                old(buf).bits(),
                old(buf).aligned(),
                old(buf).cursor(),
            ) is None,
        },
{
    if !c.extensible {
        decode_integer_root(buf, c)
    } else {
        let flag = take_bits(buf, 1)?;
        if flag == 1 {
            decode_unconstrained(buf)
        } else {
            decode_integer_root(buf, c)
        }
    }
}

/// Reads a normally small number.
pub fn decode_small_number(buf: &mut WireBuffer) -> (r: Result<u64, ErrorKind>)
    requires
        old(buf).wf(),
    ensures
        final(buf).wf(),
        final(buf).bits() == old(buf).bits(),
        final(buf).aligned() == old(buf).aligned(),
        match r {
            Ok(x) => read_small_number(old(buf).bits(), old(buf).aligned(), old(buf).cursor())
                == Some((x as nat, final(buf).cursor())),
            Err(e) => e == ErrorKind::Encoding && read_small_number(
                old(buf).bits(),
                old(buf).aligned(),
                old(buf).cursor(),
            ) is None,
        },
{
    let flag = take_bits(buf, 1)?;
    if flag == 1 {
        decode_semi_constrained(buf)
    } else {
        take_bits(buf, 6)
    }
}

/// Reads the index of a root value.
fn decode_enumerated_root(buf: &mut WireBuffer, c: &EnumConstraint) -> (r: Result<usize, ErrorKind>)
    requires
        old(buf).wf(),
    ensures
        final(buf).wf(),
        final(buf).bits() == old(buf).bits(),
        final(buf).aligned() == old(buf).aligned(),
        match r {
            Ok(i) => read_enumerated_root(*c, old(buf).bits(), old(buf).cursor()) == Some(
                (i as nat, final(buf).cursor()),
            ),
            Err(e) => e == ErrorKind::Encoding && read_enumerated_root(
                *c,
                old(buf).bits(),
                old(buf).cursor(),
            ) is None,
        },
{
    let roots = c.root_values.len();
    if roots == 0 {
        return Err(ErrorKind::Encoding);
    }
    let x = take_bits(buf, significant_bits((roots - 1) as u64))?;
    if x >= roots as u64 {
        return Err(ErrorKind::Encoding);
    }
    Ok(x as usize)
}

/// Reads the index of an extension value.
fn decode_enumerated_extension(buf: &mut WireBuffer, c: &EnumConstraint) -> (r: Result<
    usize,
    ErrorKind,
>)
    requires
        old(buf).wf(),
    ensures
        final(buf).wf(),
        final(buf).bits() == old(buf).bits(),
        final(buf).aligned() == old(buf).aligned(),
        match r {
            Ok(i) => read_enumerated_extension(
                *c,
                old(buf).bits(),
                old(buf).aligned(),
                old(buf).cursor(),
            ) == Some((i as nat, final(buf).cursor())),
            Err(e) => e == ErrorKind::Encoding && read_enumerated_extension(
                *c,
                old(buf).bits(),
                old(buf).aligned(),
                old(buf).cursor(),
            ) is None,
        },
{
    let x = decode_small_number(buf)?;
    if x >= c.ext_values.len() as u64 {
        return Err(ErrorKind::Encoding);
    }
    match c.root_values.len().checked_add(x as usize) {
        Some(index) => Ok(index),
        None => Err(ErrorKind::Encoding),
    }
}

/// Reads the index of an enumeration's value. Where the extension bit is
/// set, the index is found among the extension values alone.
pub fn decode_enumerated(buf: &mut WireBuffer, c: &EnumConstraint) -> (r: Result<usize, ErrorKind>)
    requires
        old(buf).wf(),
    ensures
        final(buf).wf(),
        final(buf).bits() == old(buf).bits(),
        final(buf).aligned() == old(buf).aligned(),
        match r {
            Ok(i) => read_enumerated(*c, old(buf).bits(), old(buf).aligned(), old(buf).cursor())
                == Some((i as nat, final(buf).cursor())),
            Err(e) => e == ErrorKind::Encoding && read_enumerated(
                *c,
                old(buf).bits(),
                old(buf).aligned(),
                old(buf).cursor(),
            ) is None,
        },
{
    if c.ext_marker_index.is_none() {
        decode_enumerated_root(buf, c)
    } else {
        let flag = take_bits(buf, 1)?;
        if flag == 1 {
            decode_enumerated_extension(buf, c)
        } else {
            decode_enumerated_root(buf, c)
        }
    }
}

/// Reads a size within the bounds of `c`.
fn decode_length_root(buf: &mut WireBuffer, c: &SizeConstraint) -> (r: Result<usize, ErrorKind>)
    requires
        old(buf).wf(),
    ensures
        final(buf).wf(),
        final(buf).bits() == old(buf).bits(),
        final(buf).aligned() == old(buf).aligned(),
        match r {
            Ok(len) => read_length_root(*c, old(buf).bits(), old(buf).aligned(), old(buf).cursor())
                == Some((len as nat, final(buf).cursor())),
            Err(e) => e == ErrorKind::Encoding && read_length_root(
                *c,
                old(buf).bits(),
                old(buf).aligned(),
                old(buf).cursor(),
            ) is None,
        },
{
    let lower = c.minimum();
    match c.max_size {
        Some(mx) => {
            if lower > mx {
                return Err(ErrorKind::Encoding);
            }
            let span: u64 = (mx - lower) as u64;
            let x = take_bits(buf, significant_bits(span))?;
            if x > span {
                return Err(ErrorKind::Encoding);
            }
            Ok(lower + x as usize)
        },
        None => {
            let len = decode_general_length(buf)?;
            if len < lower {
                return Err(ErrorKind::Encoding);
            }
            Ok(len)
        },
    }
}

/// Reads the length determinant of a string or a repetition.
pub fn decode_length_determinant(buf: &mut WireBuffer, c: &SizeConstraint) -> (r: Result<
    usize,
    ErrorKind,
>)
    requires
        old(buf).wf(),
    ensures
        final(buf).wf(),
        final(buf).bits() == old(buf).bits(),
        final(buf).aligned() == old(buf).aligned(),
        match r {
            Ok(len) => read_length(*c, old(buf).bits(), old(buf).aligned(), old(buf).cursor())
                == Some((len as nat, final(buf).cursor())),
            Err(e) => e == ErrorKind::Encoding && read_length(
                *c,
                old(buf).bits(),
                old(buf).aligned(),
                old(buf).cursor(),
            ) is None,
        },
{
    if !c.extensible {
        decode_length_root(buf, c)
    } else {
        let flag = take_bits(buf, 1)?;
        if flag == 1 {
            decode_general_length(buf)
        } else {
            decode_length_root(buf, c)
        }
    }
}

/// Reads an octet string.
pub fn decode_octetstring(buf: &mut WireBuffer, c: &SizeConstraint) -> (r: Result<
    Vec<u8>,
    ErrorKind,
>)
    requires
        old(buf).wf(),
    ensures
        final(buf).wf(),
        final(buf).bits() == old(buf).bits(),
        final(buf).aligned() == old(buf).aligned(),
        match r {
            Ok(bytes) => read_octet_string(
                *c,
                old(buf).bits(),
                old(buf).aligned(),
                old(buf).cursor(),
            ) == Some((bytes@, final(buf).cursor())),
            Err(e) => e == ErrorKind::Encoding && read_octet_string(
                *c,
                old(buf).bits(),
                old(buf).aligned(),
                old(buf).cursor(),
            ) is None,
        },
{
    let len = decode_length_determinant(buf, c)?;
    let gap = buf.is_aligned() && len > 0 && !c.is_fixed_within(SMALL_OCTETS);
    pass_padding(buf, gap)?;
    take_octets(buf, len)
}

/// Reads a bit string.
pub fn decode_bitstring(buf: &mut WireBuffer, c: &SizeConstraint) -> (r: Result<
    Vec<bool>,
    ErrorKind,
>)
    requires
        old(buf).wf(),
    ensures
        final(buf).wf(),
        final(buf).bits() == old(buf).bits(),
        final(buf).aligned() == old(buf).aligned(),
        match r {
            Ok(content) => read_bit_string(
                *c,
                old(buf).bits(),
                old(buf).aligned(),
                old(buf).cursor(),
            ) == Some((content@, final(buf).cursor())),
            Err(e) => e == ErrorKind::Encoding && read_bit_string(
                *c,
                old(buf).bits(),
                old(buf).aligned(),
                old(buf).cursor(),
            ) is None,
        },
{
    let len = decode_length_determinant(buf, c)?;
    let gap = buf.is_aligned() && len > 0 && !c.is_fixed_within(SMALL_BITS);
    pass_padding(buf, gap)?;
    take_content(buf, len)
}

/// Reads a null, which takes no bits.
pub fn decode_null(buf: &mut WireBuffer)
    requires
        old(buf).wf(),
    ensures
        *final(buf) == *old(buf),
{
}

/// Object identifiers are not supported: always refuses with `Encoding` and
/// reads nothing.
pub fn decode_object_identifier(buf: &mut WireBuffer) -> (r: Result<Value, ErrorKind>)
    ensures
        r is Err,
        r->Err_0 == ErrorKind::Encoding,
        *final(buf) == *old(buf),
{
    Err(ErrorKind::Encoding)
}

/// Once some field cannot be read, neither can the fields up to a later one.
pub proof fn lemma_read_fields_fails(
    fields: Seq<Schema>,
    bits: Seq<bool>,
    aligned: bool,
    pos: nat,
    k: nat,
    n: nat,
)
    requires
        k <= n <= fields.len(),
        read_fields(fields, bits, aligned, pos, k) is None,
    ensures
        read_fields(fields, bits, aligned, pos, n) is None,
    decreases n,
{
    if k < n {
        lemma_read_fields_fails(fields, bits, aligned, pos, k, (n - 1) as nat);
    }
}

/// Once some element cannot be read, neither can the elements up to a later
/// one.
pub proof fn lemma_read_items_fails(
    element: Schema,
    bits: Seq<bool>,
    aligned: bool,
    pos: nat,
    k: nat,
    n: nat,
)
    requires
        k <= n,
        read_items(element, bits, aligned, pos, k) is None,
    ensures
        read_items(element, bits, aligned, pos, n) is None,
    decreases n,
{
    if k < n {
        lemma_read_items_fails(element, bits, aligned, pos, k, (n - 1) as nat);
    }
}

/// Reads a value of `schema`.
pub fn decode_value(buf: &mut WireBuffer, schema: &Schema) -> (r: Result<Value, ErrorKind>)
    requires
        old(buf).wf(),
    ensures
        final(buf).wf(),
        final(buf).bits() == old(buf).bits(),
        final(buf).aligned() == old(buf).aligned(),
        match r {
            Ok(v) => read_value(*schema, old(buf).bits(), old(buf).aligned(), old(buf).cursor())
                == Some((v@, final(buf).cursor())),
            Err(e) => e == ErrorKind::Encoding && read_value(
                *schema,
                old(buf).bits(),
                old(buf).aligned(),
                old(buf).cursor(),
            ) is None,
        },
    decreases schema, 0nat,
{
    match schema {
        Schema::Boolean => {
            let b = decode_bool(buf)?;
            Ok(Value::Boolean(b))
        },
        Schema::Integer(c) => {
            let x = decode_integer(buf, c)?;
            Ok(Value::Integer(x))
        },
        Schema::Enumerated(c) => {
            let i = decode_enumerated(buf, c)?;
            Ok(Value::Enumerated(i))
        },
        Schema::OctetString(c) => {
            let bytes = decode_octetstring(buf, c)?;
            Ok(Value::OctetString(bytes))
        },
        Schema::BitString(c) => {
            let content = decode_bitstring(buf, c)?;
            Ok(Value::BitString(content))
        },
        Schema::Null => {
            decode_null(buf);
            Ok(Value::Null)
        },
        Schema::ObjectIdentifier => decode_object_identifier(buf),
        Schema::Sequence { fields } => {
            proof {
                assert(decreases_to!(schema => fields));
            }
            let items = decode_fields(buf, fields)?;
            Ok(Value::Sequence(items))
        },
        Schema::SequenceOf { size, element } => {
            let len = decode_length_determinant(buf, size)?;
            proof {
                assert(decreases_to!(schema => element));
            }
            let items = decode_items(buf, element, len)?;
            Ok(Value::SequenceOf(items))
        },
        Schema::Choice { alternatives, extensible } => {
            if *extensible {
                let flag = take_bits(buf, 1)?;
                if flag == 1 {
                    return Err(ErrorKind::Encoding);
                }
            }
            let count = alternatives.len();
            if count == 0 {
                return Err(ErrorKind::Encoding);
            }
            let x = take_bits(buf, significant_bits((count - 1) as u64))?;
            if x >= count as u64 {
                return Err(ErrorKind::Encoding);
            }
            let index = x as usize;
            proof {
                assert(decreases_to!(schema => alternatives[index as int]));
            }
            let inner = decode_value(buf, &alternatives[index])?;
            Ok(Value::Choice(index, Box::new(inner)))
        },
    }
}

/// Reads the fields of a sequence, one after the other.
fn decode_fields(buf: &mut WireBuffer, fields: &Vec<Schema>) -> (r: Result<Vec<Value>, ErrorKind>)
    requires
        old(buf).wf(),
    ensures
        final(buf).wf(),
        final(buf).bits() == old(buf).bits(),
        final(buf).aligned() == old(buf).aligned(),
        match r {
            Ok(items) => read_fields(
                fields@,
                old(buf).bits(),
                old(buf).aligned(),
                old(buf).cursor(),
                fields@.len(),
            ) == Some((views(items@), final(buf).cursor())),
            Err(e) => e == ErrorKind::Encoding && read_fields(
                fields@,
                old(buf).bits(),
                old(buf).aligned(),
                old(buf).cursor(),
                fields@.len(),
            ) is None,
        },
    decreases fields, 1nat,
{
    let ghost bits = buf.bits();
    let ghost aligned = buf.aligned();
    let ghost origin = buf.cursor();
    let mut items: Vec<Value> = Vec::new();
    let mut i: usize = 0;
    assert(views(items@) =~= Seq::<ValueView>::empty());
    while i < fields.len()
        invariant
            i <= fields.len(),
            buf.wf(),
            buf.bits() == bits,
            bits == old(buf).bits(),
            buf.aligned() == aligned,
            aligned == old(buf).aligned(),
            origin == old(buf).cursor(),
            read_fields(fields@, bits, aligned, origin, i as nat) == Some(
                (views(items@), buf.cursor()),
            ),
        decreases fields.len() - i,
    {
        assert(decreases_to!(fields => fields[i as int]));
        match decode_value(buf, &fields[i]) {
            Ok(item) => {
                proof {
                    lemma_views_push(items@, item);
                }
                items.push(item);
            },
            Err(e) => {
                proof {
                    lemma_read_fields_fails(
                        fields@,
                        bits,
                        aligned,
                        origin,
                        (i + 1) as nat,
                        fields@.len(),
                    );
                }
                return Err(e);
            },
        }
        i += 1;
    }
    Ok(items)
}

/// Reads exactly `count` elements of a repetition, one after the other.
fn decode_items(buf: &mut WireBuffer, element: &Schema, count: usize) -> (r: Result<
    Vec<Value>,
    ErrorKind,
>)
    requires
        old(buf).wf(),
    ensures
        final(buf).wf(),
        final(buf).bits() == old(buf).bits(),
        final(buf).aligned() == old(buf).aligned(),
        match r {
            Ok(items) => read_items(
                *element,
                old(buf).bits(),
                old(buf).aligned(),
                old(buf).cursor(),
                count as nat,
            ) == Some((views(items@), final(buf).cursor())),
            Err(e) => e == ErrorKind::Encoding && read_items(
                *element,
                old(buf).bits(),
                old(buf).aligned(),
                old(buf).cursor(),
                count as nat,
            ) is None,
        },
    decreases element, 1nat,
{
    let ghost bits = buf.bits();
    let ghost aligned = buf.aligned();
    let ghost origin = buf.cursor();
    let mut items: Vec<Value> = Vec::new();
    let mut i: usize = 0;
    assert(views(items@) =~= Seq::<ValueView>::empty());
    while i < count
        invariant
            i <= count,
            buf.wf(),
            buf.bits() == bits,
            bits == old(buf).bits(),
            buf.aligned() == aligned,
            aligned == old(buf).aligned(),
            origin == old(buf).cursor(),
            read_items(*element, bits, aligned, origin, i as nat) == Some(
                (views(items@), buf.cursor()),
            ),
        decreases count - i,
    {
        match decode_value(buf, element) {
            Ok(item) => {
                proof {
                    lemma_views_push(items@, item);
                }
                items.push(item);
            },
            Err(e) => {
                proof {
                    lemma_read_items_fails(
                        *element,
                        bits,
                        aligned,
                        origin,
                        (i + 1) as nat,
                        count as nat,
                    );
                }
                return Err(e);
            },
        }
        i += 1;
    }
    Ok(items)
}

/// Decodes the octets `bytes` as a value of `schema`. Bits after the value
/// are ignored. Octets that are no encoding of such a value, or that end too
/// early, are refused with `Encoding`.
pub fn per_decode(schema: &Schema, bytes: &[u8], codec: Codec) -> (r: Result<Value, ErrorKind>)
    ensures
        match r {
            Ok(v) => read_value(*schema, octets_bits(bytes@), codec.aligned(), 0) matches Some(
                (model, end),
            ) && model == v@,
            Err(e) => e == ErrorKind::Encoding && read_value(
                *schema,
                octets_bits(bytes@),
                codec.aligned(),
                0,
            ) is None,
        },
{
    let mut buf = WireBuffer::from_bytes(bytes, codec.is_aligned());
    decode_value(&mut buf, schema)
}

} // verus!
