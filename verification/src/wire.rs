//! The wire buffer: an owned sequence of octets with a cursor of bit precision.
//!
//! A buffer is a sequence of bits and a cursor into it. Reading moves the
//! cursor over bits that are there; writing appends at the end. The same type
//! serves both, since a buffer lives for one encode or one decode call.

use crate::error::ErrorKind;
use crate::numeric::{
    bit_at, bits_of, lemma_bits_of_len, lemma_octets_bits_push, lemma_packed, lemma_value_of_bound,
    octets_bits, packed, pad_len, value_of, window, zeros,
};
use vstd::arithmetic::power2::{
    lemma2_to64, lemma2_to64_rest, lemma_pow2_strictly_increases, lemma_pow2_unfold, pow2,
};
use vstd::prelude::*;

verus! {

/// An owned, growable sequence of octets with a cursor of bit precision.
pub struct WireBuffer {
    /// The complete octets.
    bytes: Vec<u8>,
    /// The octet the cursor is in.
    byte_index: usize,
    /// The cursor's offset inside that octet, 0 to 7.
    bit_offset: u8,
    /// The bits of an octet under construction, right-aligned.
    pending: u8,
    /// Whether the aligned discipline applies.
    aligned: bool,
}

impl WireBuffer {
    /// The bits held, complete octets first.
    pub closed spec fn bits(&self) -> Seq<bool> {
        if self.byte_index == self.bytes@.len() {
            octets_bits(self.bytes@) + bits_of(self.bit_offset as nat, self.pending as nat)
        } else {
            octets_bits(self.bytes@)
        }
    }

    /// The cursor, as a number of bits from the start.
    pub closed spec fn cursor(&self) -> nat {
        (8 * self.byte_index + self.bit_offset) as nat
    }

    /// Whether the aligned discipline applies to this buffer.
    pub closed spec fn aligned(&self) -> bool {
        self.aligned
    }

    /// The representation invariant.
    pub closed spec fn wf(&self) -> bool {
        &&& self.bit_offset < 8
        &&& self.byte_index <= self.bytes@.len()
        &&& self.byte_index == self.bytes@.len() ==> self.pending < pow2(self.bit_offset as nat)
        &&& self.byte_index < self.bytes@.len() ==> self.pending == 0
    }

    /// A buffer can be written to when its cursor stands at the end.
    pub open spec fn writable(&self) -> bool {
        self.wf() && self.cursor() == self.bits().len()
    }

    /// The cursor never stands beyond the bits held.
    pub proof fn lemma_cursor_in_bounds(&self)
        requires
            self.wf(),
        ensures
            self.cursor() <= self.bits().len(),
    {
        lemma_bits_of_len(self.bit_offset as nat, self.pending as nat);
    }

    /// An empty buffer, ready for writing.
    pub fn new(aligned: bool) -> (buf: WireBuffer)
        ensures
            buf.writable(),
            buf.bits() == Seq::<bool>::empty(),
            buf.cursor() == 0,
            buf.aligned() == aligned,
    {
        let buf = WireBuffer { bytes: Vec::new(), byte_index: 0, bit_offset: 0, pending: 0, aligned };
        proof {
            lemma2_to64();
            assert(buf.bits() =~= Seq::<bool>::empty());
        }
        buf
    }

    /// A buffer over a copy of `data`, with the cursor at its first bit.
    pub fn from_bytes(data: &[u8], aligned: bool) -> (buf: WireBuffer)
        ensures
            buf.wf(),
            buf.bits() == octets_bits(data@),
            buf.cursor() == 0,
            buf.aligned() == aligned,
    {
        let mut bytes: Vec<u8> = Vec::new();
        let mut i: usize = 0;
        while i < data.len()
            invariant
                i <= data.len(),
                bytes@ == data@.subrange(0, i as int),
            decreases data.len() - i,
        {
            bytes.push(data[i]);
            i += 1;
            assert(bytes@ =~= data@.subrange(0, i as int));
        }
        assert(bytes@ =~= data@);
        let buf = WireBuffer { bytes, byte_index: 0, bit_offset: 0, pending: 0, aligned };
        proof {
            lemma2_to64();
            assert(bits_of(0, 0) =~= Seq::<bool>::empty());
            assert(buf.bits() =~= octets_bits(data@));
        }
        buf
    }

    /// Whether the aligned discipline applies to this buffer.
    pub fn is_aligned(&self) -> (a: bool)
        ensures
            a == self.aligned(),
    {
        self.aligned
    }

    /// The cursor as an octet index and a bit offset inside that octet.
    pub fn position(&self) -> (p: (usize, u8))
        requires
            self.wf(),
        ensures
            p.1 < 8,
            8 * p.0 + p.1 == self.cursor(),
    {
        (self.byte_index, self.bit_offset)
    }

    /// Whether `n` more bits can be read.
    pub fn has_bits(&self, n: u8) -> (b: bool)
        requires
            self.wf(),
        ensures
            b == (self.cursor() + n <= self.bits().len()),
    {
        proof {
            lemma_bits_of_len(self.bit_offset as nat, self.pending as nat);
        }
        let rest: usize = self.bytes.len() - self.byte_index;
        if rest == 0 {
            n == 0
        } else if rest > 32 {
            true
        } else {
            rest * 8 - self.bit_offset as usize >= n as usize
        }
    }

    /// Appends one bit.
    pub fn write_bit(&mut self, bit: bool)
        requires
            old(self).writable(),
        ensures
            final(self).writable(),
            final(self).bits() == old(self).bits().push(bit),
            final(self).cursor() == old(self).cursor() + 1,
            final(self).aligned() == old(self).aligned(),
    {
        proof {
            lemma_bits_of_len(self.bit_offset as nat, self.pending as nat);
            lemma2_to64();
            lemma_pow2_unfold((self.bit_offset + 1) as nat);
            if self.bit_offset < 7 {
                lemma_pow2_strictly_increases((self.bit_offset + 1) as nat, 8);
            }
        }
        let ghost before = *self;
        let grown: u8 = self.pending * 2 + if bit { 1 } else { 0 };
        assert(bits_of((before.bit_offset + 1) as nat, grown as nat) == bits_of(
            before.bit_offset as nat,
            before.pending as nat,
        ).push(bit)) by {
            assert(grown as nat / 2 == before.pending as nat);
        }
        if self.bit_offset == 7 {
            self.bytes.push(grown);
            self.byte_index = self.bytes.len();
            self.bit_offset = 0;
            self.pending = 0;
            proof {
                lemma_octets_bits_push(before.bytes@, grown);
                assert(bits_of(0, 0) =~= Seq::<bool>::empty());
                assert(self.bits() =~= before.bits().push(bit));
            }
        } else {
            self.pending = grown;
            self.bit_offset = self.bit_offset + 1;
            proof {
                lemma_bits_of_len(self.bit_offset as nat, self.pending as nat);
                assert(self.bits() =~= before.bits().push(bit));
            }
        }
    }

    /// Appends the low `n` bits of `value`, most significant first.
    pub fn write_bits(&mut self, n: u8, value: u64)
        requires
            old(self).writable(),
            n <= 64,
        ensures
            final(self).writable(),
            final(self).bits() == old(self).bits() + bits_of(n as nat, value as nat),
            final(self).cursor() == old(self).cursor() + n,
            final(self).aligned() == old(self).aligned(),
        decreases n,
    {
        if n > 0 {
            self.write_bits(n - 1, value / 2);
            self.write_bit(value % 2 == 1);
            assert(self.bits() =~= old(self).bits() + bits_of(n as nat, value as nat));
        } else {
            assert(self.bits() =~= old(self).bits() + bits_of(n as nat, value as nat));
        }
    }

    /// Reads one bit, or fails with `Truncated` at the end, leaving the
    /// buffer as it was.
    pub fn read_bit(&mut self) -> (r: Result<bool, ErrorKind>)
        requires
            old(self).wf(),
        ensures
            final(self).wf(),
            final(self).bits() == old(self).bits(),
            final(self).aligned() == old(self).aligned(),
            match r {
                Ok(bit) => {
                    &&& old(self).cursor() < old(self).bits().len()
                    &&& bit == old(self).bits()[old(self).cursor() as int]
                    &&& final(self).cursor() == old(self).cursor() + 1
                },
                Err(e) => {
                    &&& e == ErrorKind::Truncated
                    &&& old(self).cursor() >= old(self).bits().len()
                    &&& final(self).cursor() == old(self).cursor()
                },
            },
    {
        proof {
            lemma_bits_of_len(self.bit_offset as nat, self.pending as nat);
        }
        if self.byte_index >= self.bytes.len() {
            return Err(ErrorKind::Truncated);
        }
        let bit = bit_at(self.bytes[self.byte_index], self.bit_offset);
        if self.bit_offset == 7 {
            self.byte_index = self.byte_index + 1;
            self.bit_offset = 0;
            proof {
                lemma2_to64();
                assert(bits_of(0, 0) =~= Seq::<bool>::empty());
                assert(self.bits() =~= old(self).bits());
            }
        } else {
            self.bit_offset = self.bit_offset + 1;
        }
        Ok(bit)
    }

    /// Reads `n` bits as a number, most significant first, or fails with
    /// `Truncated` when fewer remain, leaving the buffer as it was.
    pub fn read_bits(&mut self, n: u8) -> (r: Result<u64, ErrorKind>)
        requires
            old(self).wf(),
            n <= 64,
        ensures
            final(self).wf(),
            final(self).bits() == old(self).bits(),
            final(self).aligned() == old(self).aligned(),
            match r {
                Ok(x) => {
                    &&& old(self).cursor() + n <= old(self).bits().len()
                    &&& x == value_of(window(old(self).bits(), old(self).cursor(), n as nat))
                    &&& final(self).cursor() == old(self).cursor() + n
                },
                Err(e) => {
                    &&& e == ErrorKind::Truncated
                    &&& old(self).cursor() + n > old(self).bits().len()
                    &&& final(self).cursor() == old(self).cursor()
                },
            },
    {
        if !self.has_bits(n) {
            return Err(ErrorKind::Truncated);
        }
        let ghost bits = self.bits();
        let ghost start = self.cursor();
        let mut x: u64 = 0;
        let mut i: u8 = 0;
        while i < n
            invariant
                i <= n <= 64,
                self.wf(),
                self.bits() == bits,
                self.aligned() == old(self).aligned(),
                self.cursor() == start + i,
                start + n <= bits.len(),
                x == value_of(window(bits, start, i as nat)),
            decreases n - i,
        {
            let ghost read = window(bits, start, i as nat);
            proof {
                lemma_value_of_bound(read);
                lemma2_to64();
                lemma2_to64_rest();
                if i < 63 {
                    lemma_pow2_strictly_increases(i as nat, 63);
                }
            }
            match self.read_bit() {
                Ok(bit) => {
                    x = x * 2 + if bit { 1 } else { 0 };
                    proof {
                        let next = window(bits, start, (i + 1) as nat);
                        assert(next.drop_last() =~= read);
                        assert(next.last() == bit);
                    }
                },
                Err(e) => {
                    return Err(e);
                },
            }
            i = i + 1;
        }
        Ok(x)
    }

    /// Moves the cursor to the next octet boundary at or after it. At the end
    /// of the buffer the gap is filled with zero bits; elsewhere the bits in
    /// the gap are skipped.
    pub fn align_to_octet(&mut self)
        requires
            old(self).wf(),
        ensures
            final(self).wf(),
            final(self).aligned() == old(self).aligned(),
            final(self).cursor() == old(self).cursor() + pad_len(old(self).cursor()),
            final(self).cursor() % 8 == 0,
            old(self).writable() ==> final(self).writable() && final(self).bits() == old(
                self,
            ).bits() + zeros(pad_len(old(self).cursor())),
            !old(self).writable() ==> final(self).bits() == old(self).bits(),
    {
        proof {
            lemma_bits_of_len(self.bit_offset as nat, self.pending as nat);
        }
        if self.bit_offset == 0 {
            assert(self.bits() + zeros(0) =~= self.bits());
            return ;
        }
        if self.byte_index < self.bytes.len() {
            self.byte_index = self.byte_index + 1;
            self.bit_offset = 0;
            proof {
                lemma2_to64();
                assert(bits_of(0, 0) =~= Seq::<bool>::empty());
                assert(self.bits() =~= old(self).bits());
            }
        } else {
            let ghost first = self.bit_offset;
            let ghost index = self.byte_index;
            let ghost before = self.bits();
            assert(before + zeros(0) =~= before);
            assert(pad_len(self.cursor()) == 8 - first);
            while self.bit_offset != 0
                invariant
                    self.writable(),
                    self.aligned() == old(self).aligned(),
                    1 <= first < 8,
                    self.bit_offset != 0 ==> {
                        &&& self.byte_index == index
                        &&& first <= self.bit_offset < 8
                        &&& self.bits() == before + zeros((self.bit_offset - first) as nat)
                    },
                    self.bit_offset == 0 ==> {
                        &&& self.byte_index == index + 1
                        &&& self.bits() == before + zeros((8 - first) as nat)
                    },
                decreases (if self.bit_offset == 0 {
                        0int
                    } else {
                        8 - self.bit_offset
                    }),
            {
                let ghost filled = (self.bit_offset - first) as nat;
                self.write_bit(false);
                assert(self.bits() =~= before + zeros(filled + 1));
            }
        }
    }

    /// Moves the cursor over the bits up to the next octet boundary at or
    /// after it, or fails with `Truncated` where the buffer ends before that
    /// boundary, leaving the buffer as it was. Nothing is written.
    pub fn skip_to_octet(&mut self) -> (r: Result<(), ErrorKind>)
        requires
            old(self).wf(),
        ensures
            final(self).wf(),
            final(self).bits() == old(self).bits(),
            final(self).aligned() == old(self).aligned(),
            match r {
                Ok(()) => {
                    &&& old(self).cursor() + pad_len(old(self).cursor()) <= old(self).bits().len()
                    &&& final(self).cursor() == old(self).cursor() + pad_len(old(self).cursor())
                },
                Err(e) => {
                    &&& e == ErrorKind::Truncated
                    &&& old(self).cursor() + pad_len(old(self).cursor()) > old(self).bits().len()
                    &&& final(self).cursor() == old(self).cursor()
                },
            },
    {
        proof {
            lemma_bits_of_len(self.bit_offset as nat, self.pending as nat);
        }
        if self.bit_offset == 0 {
            Ok(())
        } else if self.byte_index < self.bytes.len() {
            self.byte_index = self.byte_index + 1;
            self.bit_offset = 0;
            proof {
                lemma2_to64();
                assert(bits_of(0, 0) =~= Seq::<bool>::empty());
                assert(self.bits() =~= old(self).bits());
            }
            Ok(())
        } else {
            Err(ErrorKind::Truncated)
        }
    }

    /// Gives up the buffer for its octets; bits of an unfinished octet are
    /// kept, followed by zero bits up to the octet boundary.
    pub fn into_bytes(self) -> (bytes: Vec<u8>)
        requires
            self.wf(),
        ensures
            octets_bits(bytes@) == self.bits() + zeros(pad_len(self.bits().len())),
            bytes@ == packed(self.bits()),
    {
        let mut buf = self;
        proof {
            lemma_bits_of_len(buf.bit_offset as nat, buf.pending as nat);
        }
        if buf.byte_index == buf.bytes.len() {
            buf.align_to_octet();
            proof {
                lemma2_to64();
                assert(bits_of(0, 0) =~= Seq::<bool>::empty());
                assert(buf.bits() =~= octets_bits(buf.bytes@));
            }
        } else {
            assert(self.bits() + zeros(0) =~= self.bits());
        }
        proof {
            lemma_packed(self.bits(), buf.bytes@);
        }
        buf.bytes
    }
}

} // verus!
