//! Bit-level arithmetic: how many bits a range needs, and the big-endian
//! correspondence between natural numbers and bit sequences.

use vstd::arithmetic::div_mod::lemma_div_denominator;
use vstd::arithmetic::power2::{
    lemma2_to64, lemma_pow2_adds, lemma_pow2_pos, lemma_pow2_strictly_increases, lemma_pow2_unfold,
    pow2,
};
use vstd::prelude::*;

verus! {

/// The number of significant bits of `d`: zero for zero, otherwise one more
/// than the position of the highest set bit.
pub open spec fn bit_width(d: nat) -> nat
    decreases d,
{
    if d == 0 {
        0
    } else {
        1 + bit_width(d / 2)
    }
}

/// The number of bits needed to tell `range` alternatives apart, that is the
/// base-two logarithm of `range`, rounded up.
pub open spec fn ceil_log2(range: nat) -> nat {
    if range == 0 {
        0
    } else {
        bit_width((range - 1) as nat)
    }
}

/// The `n` low bits of `x`, most significant first.
pub open spec fn bits_of(n: nat, x: nat) -> Seq<bool>
    decreases n,
{
    if n == 0 {
        Seq::empty()
    } else {
        bits_of((n - 1) as nat, x / 2).push(x % 2 == 1)
    }
}

/// The number that a bit sequence spells, most significant bit first.
pub open spec fn value_of(s: Seq<bool>) -> nat
    decreases s.len(),
{
    if s.len() == 0 {
        0
    } else {
        2 * value_of(s.drop_last()) + if s.last() { 1nat } else { 0nat }
    }
}

/// `n` zero bits.
pub open spec fn zeros(n: nat) -> Seq<bool> {
    Seq::new(n, |i: int| false)
}

/// The bits in `bits[from .. from + n]`; recommended only when they exist.
pub open spec fn window(bits: Seq<bool>, from: nat, n: nat) -> Seq<bool> {
    bits.subrange(from as int, (from + n) as int)
}

/// The number of padding bits between position `pos` and the next octet
/// boundary at or after it.
pub open spec fn pad_len(pos: nat) -> nat {
    ((8 - pos % 8) % 8) as nat
}

/// The bits of a byte sequence, each byte most significant bit first.
pub open spec fn octets_bits(bytes: Seq<u8>) -> Seq<bool> {
    Seq::new(8 * bytes.len(), |i: int| bits_of(8, bytes[i / 8] as nat)[i % 8])
}

/// The `len` octets that start at `pos`.
pub open spec fn octets_at(bits: Seq<bool>, pos: nat, len: nat) -> Seq<u8> {
    Seq::new(len, |i: int| value_of(window(bits, (pos + 8 * i) as nat, 8)) as u8)
}

/// The octets that hold `bits`, the last one filled up with zero bits.
pub open spec fn packed(bits: Seq<bool>) -> Seq<u8> {
    octets_at(bits + zeros(pad_len(bits.len())), 0, (bits.len() + pad_len(bits.len())) / 8)
}

/// The number of significant bits of `d`.
pub fn significant_bits(d: u64) -> (n: u8)
    ensures
        n == bit_width(d as nat),
        n <= 64,
{
    proof {
        lemma2_to64();
        lemma_bit_width_le(d as nat, 64);
    }
    let mut rest: u64 = d;
    let mut n: u8 = 0;
    while rest > 0
        invariant
            bit_width(d as nat) == n + bit_width(rest as nat),
            bit_width(d as nat) <= 64,
        decreases rest,
    {
        rest = rest / 2;
        n = n + 1;
    }
    n
}

/// Bit `k` of a byte, counting from the most significant.
pub fn bit_at(byte: u8, k: u8) -> (b: bool)
    requires
        k < 8,
    ensures
        b == bits_of(8, byte as nat)[k as int],
{
    proof {
        lemma2_to64();
        lemma_bits_of_index(8, byte as nat, k as nat);
    }
    let weight: u8 = if k == 0 {
        128
    } else if k == 1 {
        64
    } else if k == 2 {
        32
    } else if k == 3 {
        16
    } else if k == 4 {
        8
    } else if k == 5 {
        4
    } else if k == 6 {
        2
    } else {
        1
    };
    assert(weight == pow2((7 - k) as nat));
    (byte / weight) % 2 == 1
}

/// `256^k`, for up to eight octets.
pub fn octet_power(k: u8) -> (p: u128)
    requires
        k <= 8,
    ensures
        p == pow2(8 * k as nat),
        p <= pow2(64),
{
    proof {
        lemma2_to64();
    }
    let mut p: u128 = 1;
    let mut i: u8 = 0;
    while i < k
        invariant
            i <= k <= 8,
            p == pow2(8 * i as nat),
            p <= pow2(64),
        decreases k - i,
    {
        proof {
            lemma_pow2_adds(8 * i as nat, 8);
            lemma_pow2_monotone(8 * (i + 1) as nat, 64);
            lemma2_to64();
        }
        p = p * 256;
        i = i + 1;
    }
    p
}

/// Powers of two grow with their exponent.
pub proof fn lemma_pow2_monotone(a: nat, b: nat)
    requires
        a <= b,
    ensures
        pow2(a) <= pow2(b),
{
    if a < b {
        lemma_pow2_strictly_increases(a, b);
    }
}

/// `bit_width(d)` is the least width that can hold `d`.
pub proof fn lemma_bit_width_bounds(d: nat)
    ensures
        d < pow2(bit_width(d)),
        d > 0 ==> pow2((bit_width(d) - 1) as nat) <= d,
    decreases d,
{
    if d == 0 {
        lemma2_to64();
    } else {
        lemma_bit_width_bounds(d / 2);
        lemma_pow2_unfold(bit_width(d));
        if d / 2 > 0 {
            lemma_pow2_unfold(bit_width(d / 2));
        } else {
            lemma2_to64();
        }
    }
}

/// A number below `2^n` has at most `n` significant bits.
pub proof fn lemma_bit_width_le(d: nat, n: nat)
    requires
        d < pow2(n),
    ensures
        bit_width(d) <= n,
    decreases d,
{
    if d > 0 {
        if n == 0 {
            lemma2_to64();
        } else {
            lemma_pow2_unfold(n);
            lemma_bit_width_le(d / 2, (n - 1) as nat);
        }
    }
}

/// The rounded-up logarithm is the least exponent whose power of two
/// reaches `range`.
pub proof fn ceil_log2_is_least(range: nat)
    requires
        range >= 1,
    ensures
        pow2(ceil_log2(range)) >= range,
        forall|k: nat| k < ceil_log2(range) ==> pow2(k) < range,
{
    let d = (range - 1) as nat;
    lemma_bit_width_bounds(d);
    assert forall|k: nat| k < ceil_log2(range) implies pow2(k) < range by {
        let top = (bit_width(d) - 1) as nat;
        if k < top {
            lemma_pow2_strictly_increases(k, top);
        }
    }
}

/// The `n`-bit rendering of a number has `n` bits.
pub proof fn lemma_bits_of_len(n: nat, x: nat)
    ensures
        bits_of(n, x).len() == n,
    decreases n,
{
    if n > 0 {
        lemma_bits_of_len((n - 1) as nat, x / 2);
    }
}

/// Bit `i` of the `n`-bit rendering of `x` is the digit of weight `2^(n-1-i)`.
pub proof fn lemma_bits_of_index(n: nat, x: nat, i: nat)
    requires
        i < n,
    ensures
        bits_of(n, x).len() == n,
        bits_of(n, x)[i as int] == ((x / pow2((n - 1 - i) as nat)) % 2 == 1),
    decreases n,
{
    lemma_bits_of_len(n, x);
    lemma_bits_of_len((n - 1) as nat, x / 2);
    let shorter = bits_of((n - 1) as nat, x / 2);
    assert(bits_of(n, x) == shorter.push(x % 2 == 1));
    if i == n - 1 {
        lemma2_to64();
        assert(pow2((n - 1 - i) as nat) == 1);
        assert(bits_of(n, x)[i as int] == (x % 2 == 1));
    } else {
        let m = (n - 2 - i) as nat;
        let weight = pow2(m);
        lemma_bits_of_index((n - 1) as nat, x / 2, i);
        lemma_pow2_unfold(m + 1);
        lemma_pow2_pos(m);
        lemma_div_denominator(x as int, 2, weight as int);
        assert(pow2((n - 1 - i) as nat) == 2 * weight);
        assert((x / 2) / weight == x / (2 * weight));
        assert(bits_of(n, x)[i as int] == shorter[i as int]);
        assert(shorter[i as int] == (((x / 2) / weight) % 2 == 1));
    }
}

/// The number that `n` bits spell lies below `2^n`.
pub proof fn lemma_value_of_bound(s: Seq<bool>)
    ensures
        value_of(s) < pow2(s.len()),
    decreases s.len(),
{
    if s.len() == 0 {
        lemma2_to64();
    } else {
        lemma_value_of_bound(s.drop_last());
        lemma_pow2_unfold(s.len());
    }
}

/// Reading back the `n` bits written for `x` gives `x`, provided it fit.
pub proof fn lemma_value_of_bits_of(n: nat, x: nat)
    requires
        x < pow2(n),
    ensures
        value_of(bits_of(n, x)) == x,
    decreases n,
{
    if n == 0 {
        lemma2_to64();
    } else {
        lemma_pow2_unfold(n);
        lemma_bits_of_len((n - 1) as nat, x / 2);
        lemma_value_of_bits_of((n - 1) as nat, x / 2);
        let s = bits_of(n, x);
        assert(s.drop_last() =~= bits_of((n - 1) as nat, x / 2));
    }
}

/// Writing the number that `s` spells, in as many bits, gives `s` again.
pub proof fn lemma_bits_of_value_of(s: Seq<bool>)
    ensures
        bits_of(s.len(), value_of(s)) == s,
    decreases s.len(),
{
    if s.len() > 0 {
        lemma_bits_of_value_of(s.drop_last());
        assert(bits_of(s.len(), value_of(s)) =~= s);
    }
}

/// The bits of a byte sequence extended by one byte.
pub proof fn lemma_octets_bits_push(bytes: Seq<u8>, b: u8)
    ensures
        octets_bits(bytes.push(b)) == octets_bits(bytes) + bits_of(8, b as nat),
{
    lemma_bits_of_len(8, b as nat);
    let l = octets_bits(bytes.push(b));
    let r = octets_bits(bytes) + bits_of(8, b as nat);
    assert(l.len() == r.len());
    assert forall|i: int| 0 <= i < l.len() implies l[i] == r[i] by {
        if i < 8 * bytes.len() {
            assert(bytes.push(b)[i / 8] == bytes[i / 8]);
        } else {
            assert(i / 8 == bytes.len());
            assert(i % 8 == i - 8 * bytes.len());
        }
    }
    assert(l =~= r);
}

/// Where the bits of `bytes` stand at `start`, the octets read there are
/// `bytes`.
pub proof fn lemma_octets_at(bits: Seq<bool>, start: nat, bytes: Seq<u8>)
    requires
        start + 8 * bytes.len() <= bits.len(),
        window(bits, start, 8 * bytes.len()) == octets_bits(bytes),
    ensures
        octets_at(bits, start, bytes.len()) == bytes,
{
    let read = octets_at(bits, start, bytes.len());
    assert forall|i: int| 0 <= i < bytes.len() implies read[i] == bytes[i] by {
        let octet = window(bits, (start + 8 * i) as nat, 8);
        let expected = bits_of(8, bytes[i] as nat);
        lemma_bits_of_len(8, bytes[i] as nat);
        assert forall|k: int| 0 <= k < 8 implies octet[k] == expected[k] by {
            assert(octet[k] == window(bits, start, 8 * bytes.len())[8 * i + k]);
            assert(octets_bits(bytes)[8 * i + k] == bits_of(8, bytes[(8 * i + k) / 8] as nat)[(8
                * i + k) % 8]);
            assert((8 * i + k) / 8 == i);
            assert((8 * i + k) % 8 == k);
        }
        assert(octet =~= expected);
        lemma2_to64();
        lemma_value_of_bits_of(8, bytes[i] as nat);
    }
    assert(read =~= bytes);
}

/// The octets whose bits are `bits` filled up with zero bits are `packed(bits)`.
pub proof fn lemma_packed(bits: Seq<bool>, bytes: Seq<u8>)
    requires
        octets_bits(bytes) == bits + zeros(pad_len(bits.len())),
    ensures
        bytes == packed(bits),
{
    let filled = bits + zeros(pad_len(bits.len()));
    assert(filled.len() == 8 * bytes.len());
    assert(window(filled, 0, 8 * bytes.len()) =~= filled);
    lemma_octets_at(filled, 0, bytes);
}

/// The bits of the octets that hold `bits` are `bits`, filled up with zero
/// bits to whole octets.
pub proof fn lemma_octets_bits_packed(bits: Seq<bool>)
    ensures
        octets_bits(packed(bits)) == bits + zeros(pad_len(bits.len())),
{
    let filled = bits + zeros(pad_len(bits.len()));
    let count = (filled.len() / 8) as nat;
    let bytes = packed(bits);
    let unpacked = octets_bits(bytes);
    assert(bytes.len() == count);
    assert(unpacked.len() == filled.len());
    assert forall|j: int| 0 <= j < filled.len() implies unpacked[j] == filled[j] by {
        let octet = window(filled, (8 * (j / 8)) as nat, 8);
        lemma2_to64();
        lemma_value_of_bound(octet);
        lemma_bits_of_value_of(octet);
        assert(bytes[j / 8] == value_of(octet) as u8);
        assert(octet[j % 8] == filled[8 * (j / 8) + j % 8]);
    }
    assert(unpacked =~= filled);
}

} // verus!
