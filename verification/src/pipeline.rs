//! The two operations at the boundary: from raw entropy to wire octets, and
//! back. Both are pure: they keep nothing between calls.

use crate::entropy::flatten::to_entropy;
use crate::entropy::generate::from_entropy;
use crate::entropy::laws::{flatten_generate_roundtrip, generated_value_conforms};
use crate::entropy::scheme::{flattened, generated};
use crate::error::ErrorKind;
use crate::numeric::{octets_bits, packed};
use crate::per::decode::per_decode;
use crate::per::encode::per_encode;
use crate::per::laws::{decoded_value_is_encodable, encode_decode_roundtrip, packed_roundtrip};
use crate::per::rules::{read_value, value_bits};
use crate::schema::{Codec, Schema};
use crate::value::{ValueView, encodable};
use vstd::prelude::*;

verus! {

/// The number of octets of entropy that generation reads from: shorter
/// input is filled up with zero octets, longer input is cut.
pub const ENTROPY_CAP: usize = 200_000;

/// The greatest number of octets that flattening a decoded value may take.
pub const STAGING_CAPACITY: usize = 2_000_000;

/// `raw` filled up with zero octets, or cut, to the entropy cap.
pub open spec fn capped(raw: Seq<u8>) -> Seq<u8> {
    Seq::new(
        ENTROPY_CAP as nat,
        |i: int|
            if i < raw.len() {
                raw[i]
            } else {
                0u8
            },
    )
}

/// `result`, unless it is longer than `out_max` octets.
pub open spec fn fitted(result: Result<Seq<u8>, ErrorKind>, out_max: nat) -> Result<
    Seq<u8>,
    ErrorKind,
> {
    match result {
        Ok(bytes) => if bytes.len() > out_max {
            Err(ErrorKind::Truncated)
        } else {
            Ok(bytes)
        },
        Err(e) => Err(e),
    }
}

/// The wire octets that `raw` is structured to: the packed encoding of the
/// value generated from the capped entropy. `Entropic` where no value is
/// generated, `Encoding` where the value cannot be encoded.
pub open spec fn structured(schema: Schema, aligned: bool, raw: Seq<u8>) -> Result<
    Seq<u8>,
    ErrorKind,
> {
    match generated(schema, capped(raw), 0) {
        None => Err(ErrorKind::Entropic),
        Some((v, _)) => if encodable(schema, v) {
            Ok(packed(value_bits(schema, v, aligned, 0)))
        } else {
            Err(ErrorKind::Encoding)
        },
    }
}

/// The entropy that `wire` is destructured to: the flattening of the value
/// decoded from it. `Encoding` where nothing is decoded, `Entropic` where
/// the flattening exceeds the staging capacity.
pub open spec fn destructured(schema: Schema, aligned: bool, wire: Seq<u8>) -> Result<
    Seq<u8>,
    ErrorKind,
> {
    match read_value(schema, octets_bits(wire), aligned, 0) {
        None => Err(ErrorKind::Encoding),
        Some((v, _)) => if flattened(schema, v).len() > STAGING_CAPACITY {
            Err(ErrorKind::Entropic)
        } else {
            Ok(flattened(schema, v))
        },
    }
}

/// What a result holds, as a sequence.
pub open spec fn outcome(r: Result<Vec<u8>, ErrorKind>) -> Result<Seq<u8>, ErrorKind> {
    match r {
        Ok(bytes) => Ok(bytes@),
        Err(e) => Err(e),
    }
}

/// Fills `raw` up with zero octets, or cuts it, to the entropy cap.
pub fn cap_entropy(raw: &[u8]) -> (entropy: Vec<u8>)
    ensures
        entropy@ == capped(raw@),
{
    let mut entropy: Vec<u8> = Vec::new();
    let mut i: usize = 0;
    while i < ENTROPY_CAP
        invariant
            i <= ENTROPY_CAP,
            entropy@.len() == i,
            forall|j: int| 0 <= j < i ==> #[trigger] entropy@[j] == capped(raw@)[j],
        decreases ENTROPY_CAP - i,
    {
        entropy.push(if i < raw.len() { raw[i] } else { 0 });
        i += 1;
    }
    assert(entropy@ =~= capped(raw@));
    entropy
}

/// Turns raw entropy into the wire octets of a value of `schema`: generates
/// the value from the capped entropy, then encodes it. Fails with `Entropic`
/// where generation fails, with `Encoding` where encoding fails, and with
/// `Truncated` where the octets are more than `out_max`.
pub fn structure(schema: &Schema, codec: Codec, raw_entropy: &[u8], out_max: usize) -> (r: Result<
    Vec<u8>,
    ErrorKind,
>)
    ensures
        outcome(r) == fitted(structured(*schema, codec.aligned(), raw_entropy@), out_max as nat),
{
    let entropy = cap_entropy(raw_entropy);
    let value = match from_entropy(schema, entropy.as_slice()) {
        Ok(value) => value,
        Err(_) => {
            return Err(ErrorKind::Entropic);
        },
    };
    let bytes = match per_encode(schema, &value, codec) {
        Ok(bytes) => bytes,
        Err(_) => {
            return Err(ErrorKind::Encoding);
        },
    };
    if bytes.len() > out_max {
        return Err(ErrorKind::Truncated);
    }
    Ok(bytes)
}

/// Turns wire octets back into entropy: decodes a value of `schema`, then
/// flattens it. Fails with `Encoding` where decoding fails, with `Entropic`
/// where the entropy exceeds the staging capacity, and with `Truncated`
/// where it is more than `out_max` octets.
pub fn destructure(schema: &Schema, codec: Codec, wire: &[u8], out_max: usize) -> (r: Result<
    Vec<u8>,
    ErrorKind,
>)
    ensures
        outcome(r) == fitted(destructured(*schema, codec.aligned(), wire@), out_max as nat),
{
    let value = match per_decode(schema, wire, codec) {
        Ok(value) => value,
        Err(_) => {
            return Err(ErrorKind::Encoding);
        },
    };
    proof {
        decoded_value_is_encodable(*schema, octets_bits(wire@), codec.aligned(), 0);
    }
    let entropy = match to_entropy(schema, &value, STAGING_CAPACITY) {
        Ok(entropy) => entropy,
        Err(_) => {
            return Err(ErrorKind::Entropic);
        },
    };
    if entropy.len() > out_max {
        return Err(ErrorKind::Truncated);
    }
    Ok(entropy)
}

/// What a boundary call answers and leaves in the output buffer: the length
/// of the result, which then stands at the start of the buffer, or the code
/// of the error, with the buffer as it was.
pub open spec fn delivered(
    result: Result<Seq<u8>, ErrorKind>,
    before: Seq<u8>,
    code: int,
    after: Seq<u8>,
) -> bool {
    match result {
        Ok(bytes) => {
            &&& code == bytes.len()
            &&& after.len() == before.len()
            &&& after.subrange(0, bytes.len() as int) == bytes
            &&& after.subrange(bytes.len() as int, after.len() as int) == before.subrange(
                bytes.len() as int,
                before.len() as int,
            )
        },
        Err(e) => code == e.spec_code() && after == before,
    }
}

/// Whether the lengths given at the boundary can be used: neither is
/// negative, and neither exceeds its buffer.
pub open spec fn lengths_valid(in_len: int, in_size: nat, out_max: int, out_size: nat) -> bool {
    0 <= in_len <= in_size && 0 <= out_max <= out_size
}

/// Checks the lengths given at the boundary.
fn check_lengths(in_len: isize, in_size: usize, out_max: isize, out_size: usize) -> (r: Option<
    (usize, usize),
>)
    ensures
        match r {
            Some((n, m)) => lengths_valid(in_len as int, in_size as nat, out_max as int, out_size as nat)
                && n == in_len && m == out_max,
            None => !lengths_valid(in_len as int, in_size as nat, out_max as int, out_size as nat),
        },
{
    if in_len < 0 || out_max < 0 {
        return None;
    }
    let n = in_len as usize;
    let m = out_max as usize;
    if n > in_size || m > out_size {
        return None;
    }
    Some((n, m))
}

/// The first `n` octets of `data`.
fn leading(data: &[u8], n: usize) -> (head: Vec<u8>)
    requires
        n <= data@.len(),
    ensures
        head@ == data@.subrange(0, n as int),
{
    let mut head: Vec<u8> = Vec::new();
    let mut i: usize = 0;
    while i < n
        invariant
            i <= n <= data@.len(),
            head@ == data@.subrange(0, i as int),
        decreases n - i,
    {
        head.push(data[i]);
        assert(head@ =~= data@.subrange(0, i + 1));
        i += 1;
    }
    head
}

/// Puts `result` at the start of `buf_out` and answers its length, or
/// answers the code of the error.
fn deliver(result: Result<Vec<u8>, ErrorKind>, buf_out: &mut Vec<u8>, out_max: usize) -> (code:
    isize)
    requires
        out_max <= old(buf_out)@.len(),
        out_max <= isize::MAX,
        result matches Ok(bytes) ==> bytes@.len() <= out_max,
    ensures
        delivered(outcome(result), old(buf_out)@, code as int, final(buf_out)@),
{
    match result {
        Err(e) => e.code(),
        Ok(bytes) => {
            let mut i: usize = 0;
            while i < bytes.len()
                invariant
                    i <= bytes@.len() <= out_max <= buf_out@.len(),
                    buf_out@.len() == old(buf_out)@.len(),
                    forall|j: int| 0 <= j < i ==> #[trigger] buf_out@[j] == bytes@[j],
                    forall|j: int|
                        i <= j < buf_out@.len() ==> #[trigger] buf_out@[j] == old(buf_out)@[j],
                decreases bytes.len() - i,
            {
                buf_out.set(i, bytes[i]);
                i += 1;
            }
            assert(buf_out@.subrange(0, bytes@.len() as int) =~= bytes@);
            assert(buf_out@.subrange(bytes@.len() as int, buf_out@.len() as int) =~= old(
                buf_out,
            )@.subrange(bytes@.len() as int, old(buf_out)@.len() as int));
            bytes.len() as isize
        },
    }
}

/// `structure` as it is offered across the boundary, with signed lengths:
/// reads the first `in_len` octets of `buf_in`, and writes at most `out_max`
/// octets to the start of `buf_out`. Answers the number of octets written,
/// or the negative code of the error: `Args` where a length is negative or
/// exceeds its buffer, else what `structure` fails with.
pub fn structure_into(
    schema: &Schema,
    codec: Codec,
    buf_in: &[u8],
    in_len: isize,
    buf_out: &mut Vec<u8>,
    out_max: isize,
) -> (code: isize)
    ensures
        if lengths_valid(in_len as int, buf_in@.len(), out_max as int, old(buf_out)@.len()) {
            delivered(
                fitted(
                    structured(*schema, codec.aligned(), buf_in@.subrange(0, in_len as int)),
                    out_max as nat,
                ),
                old(buf_out)@,
                code as int,
                final(buf_out)@,
            )
        } else {
            code == ErrorKind::Args.spec_code() && final(buf_out)@ == old(buf_out)@
        },
{
    match check_lengths(in_len, buf_in.len(), out_max, buf_out.len()) {
        None => ErrorKind::Args.code(),
        Some((n, m)) => {
            let input = leading(buf_in, n);
            let result = structure(schema, codec, input.as_slice(), m);
            deliver(result, buf_out, m)
        },
    }
}

/// `destructure` as it is offered across the boundary, with signed lengths:
/// reads the first `in_len` octets of `buf_in`, and writes at most `out_max`
/// octets to the start of `buf_out`. Answers the number of octets written,
/// or the negative code of the error: `Args` where a length is negative or
/// exceeds its buffer, else what `destructure` fails with.
pub fn destructure_into(
    schema: &Schema,
    codec: Codec,
    buf_in: &[u8],
    in_len: isize,
    buf_out: &mut Vec<u8>,
    out_max: isize,
) -> (code: isize)
    ensures
        if lengths_valid(in_len as int, buf_in@.len(), out_max as int, old(buf_out)@.len()) {
            delivered(
                fitted(
                    destructured(*schema, codec.aligned(), buf_in@.subrange(0, in_len as int)),
                    out_max as nat,
                ),
                old(buf_out)@,
                code as int,
                final(buf_out)@,
            )
        } else {
            code == ErrorKind::Args.spec_code() && final(buf_out)@ == old(buf_out)@
        },
{
    match check_lengths(in_len, buf_in.len(), out_max, buf_out.len()) {
        None => ErrorKind::Args.code(),
        Some((n, m)) => {
            let input = leading(buf_in, n);
            let result = destructure(schema, codec, input.as_slice(), m);
            deliver(result, buf_out, m)
        },
    }
}

/// Structuring fails in two ways only: with `Entropic`, where no value is
/// generated, and with `Encoding`; and with `Encoding` only under a schema
/// that mentions an object identifier. Under any other schema the value that
/// is generated is always encoded, so that a call fails with `Entropic`,
/// fails with `Truncated` because the octets are more than the caller takes,
/// or succeeds.
pub proof fn structure_fails_only_for_want_of_entropy(
    schema: Schema,
    aligned: bool,
    raw: Seq<u8>,
    out_max: nat,
)
    ensures
        structured(schema, aligned, raw) matches Err(e) ==> e == ErrorKind::Entropic || (e
            == ErrorKind::Encoding && schema.mentions_oid()),
        fitted(structured(schema, aligned, raw), out_max) matches Err(e) ==> {
            ||| e == ErrorKind::Entropic
            ||| e == ErrorKind::Encoding && schema.mentions_oid()
            ||| e == ErrorKind::Truncated && (structured(schema, aligned, raw) matches Ok(bytes)
                && bytes.len() > out_max)
        },
{
    generated_value_conforms(schema, capped(raw), 0);
}

/// Structuring reads the capped entropy and nothing else: two inputs that
/// are the same once filled up with zero octets, or cut, to the cap give the
/// same result. So octets behind the first 200,000 are never read, zero
/// octets at the end of a shorter input change nothing, and the same input
/// always gives the same octets.
pub proof fn structure_reads_capped_entropy(
    schema: Schema,
    aligned: bool,
    first: Seq<u8>,
    second: Seq<u8>,
)
    requires
        capped(first) == capped(second),
    ensures
        structured(schema, aligned, first) == structured(schema, aligned, second),
{
}

/// What the cap makes of an input: octets behind the cap are dropped, and
/// zero octets that end an input of no more than the cap's length add
/// nothing to it.
pub proof fn capped_entropy_facts(raw: Seq<u8>, excess: Seq<u8>, fill: nat)
    ensures
        raw.len() >= ENTROPY_CAP ==> capped(raw + excess) == capped(raw),
        capped(raw + Seq::new(fill, |i: int| 0u8)) == capped(raw),
        capped(raw).len() == ENTROPY_CAP,
{
    if raw.len() >= ENTROPY_CAP {
        assert(capped(raw + excess) =~= capped(raw));
    }
    assert(capped(raw + Seq::new(fill, |i: int| 0u8)) =~= capped(raw));
}

/// Destructuring undoes the encoding half of structuring: from the wire
/// octets that an input is structured to, it gives the flattening of the
/// value that was generated from that input.
pub proof fn destructure_inverts_encoding(schema: Schema, aligned: bool, raw: Seq<u8>)
    ensures
        structured(schema, aligned, raw) matches Ok(wire) ==> (generated(schema, capped(raw), 0)
            matches Some((v, _)) && destructured(schema, aligned, wire) == (if flattened(
            schema,
            v,
        ).len() > STAGING_CAPACITY {
            Err::<Seq<u8>, ErrorKind>(ErrorKind::Entropic)
        } else {
            Ok::<Seq<u8>, ErrorKind>(flattened(schema, v))
        })),
{
    match generated(schema, capped(raw), 0) {
        Some((v, _)) => {
            if encodable(schema, v) {
                packed_roundtrip(schema, v, aligned);
            }
        },
        None => {},
    }
}

/// Structuring undoes flattening: from the entropy that a value flattens to,
/// where that is no more than the entropy cap and the value can be encoded,
/// structuring gives the packed encoding of that very value.
pub proof fn structure_inverts_flattening(schema: Schema, aligned: bool, v: ValueView)
    requires
        encodable(schema, v),
        flattened(schema, v).len() <= ENTROPY_CAP,
    ensures
        structured(schema, aligned, flattened(schema, v)) == Ok::<Seq<u8>, ErrorKind>(
            packed(value_bits(schema, v, aligned, 0)),
        ),
{
    let flat = flattened(schema, v);
    let fill = Seq::new((ENTROPY_CAP - flat.len()) as nat, |i: int| 0u8);
    assert(capped(flat) =~= flat + fill);
    flatten_generate_roundtrip(schema, v, fill);
}

/// Every value that is generated under a schema without object identifiers
/// survives the round trip through the wire: decoding its encoding, in the
/// aligned or in the unaligned variant and whatever bits follow, gives the
/// value again.
pub proof fn generated_values_round_trip(
    schema: Schema,
    aligned: bool,
    entropy: Seq<u8>,
    rest: Seq<bool>,
)
    requires
        !schema.mentions_oid(),
    ensures
        generated(schema, entropy, 0) matches Some((v, _)) ==> read_value(
            schema,
            value_bits(schema, v, aligned, 0) + rest,
            aligned,
            0,
        ) == Some((v, value_bits(schema, v, aligned, 0).len())),
{
    generated_value_conforms(schema, entropy, 0);
    match generated(schema, entropy, 0) {
        Some((v, _)) => {
            encode_decode_roundtrip(schema, v, aligned, rest);
        },
        None => {},
    }
}

} // verus!
