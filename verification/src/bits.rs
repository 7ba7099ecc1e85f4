use vstd::prelude::*;
use crate::errors::{Error, IoError};

verus! {

/// 2^n, the number of distinct codes of bit width `n`.
pub open spec fn exp2(n: nat) -> nat
    decreases n,
{
    if n == 0 {
        1
    } else {
        2 * exp2((n - 1) as nat)
    }
}

pub proof fn lemma_exp2_pos(n: nat)
    ensures
        exp2(n) >= 1,
    decreases n,
{
    if n > 0 {
        lemma_exp2_pos((n - 1) as nat);
    }
}

/// True iff bit `i` of byte `b` is set, counting from the least significant
/// bit, which DEFLATE transmits first.
pub open spec fn nth_bit(b: u8, i: u8) -> bool {
    (b >> i) & 1 == 1
}

/// Bit `i` of a byte sequence in DEFLATE stream order: bytes in order, and
/// within each byte the least significant bit first.
pub open spec fn bit_at(data: Seq<u8>, i: int) -> bool {
    nth_bit(data[i / 8], (i % 8) as u8)
}

/// The bits of positions `from..to` of the stream, in stream order.
pub open spec fn stream_bits(data: Seq<u8>, from: int, to: int) -> Seq<bool> {
    Seq::new((to - from) as nat, |k: int| bit_at(data, from + k))
}

/// The unsigned value of a bit sequence packed least-significant-bit first,
/// as DEFLATE packs fixed-width fields.
pub open spec fn lsb_val(s: Seq<bool>) -> nat
    decreases s.len(),
{
    if s.len() == 0 {
        0
    } else {
        lsb_val(s.drop_last()) + if s.last() {
            exp2((s.len() - 1) as nat)
        } else {
            0
        }
    }
}

/// The unsigned value of a bit sequence packed most-significant-bit first,
/// as DEFLATE packs Huffman codes.
pub open spec fn msb_val(s: Seq<bool>) -> nat
    decreases s.len(),
{
    if s.len() == 0 {
        0
    } else {
        msb_val(s.drop_last()) * 2 + if s.last() {
            1nat
        } else {
            0
        }
    }
}

pub proof fn lemma_lsb_val_bound(s: Seq<bool>)
    ensures
        lsb_val(s) < exp2(s.len()),
    decreases s.len(),
{
    if s.len() == 0 {
    } else {
        lemma_lsb_val_bound(s.drop_last());
    }
}

/// The little-endian value of two bytes.
pub open spec fn le16(b0: u8, b1: u8) -> int {
    b0 + 256 * b1
}

/// The little-endian value of four bytes.
pub open spec fn le32(b0: u8, b1: u8, b2: u8, b3: u8) -> int {
    b0 + 256 * b1 + 65536 * b2 + 16777216 * b3
}

/// A cursor over a byte sequence with bit granularity. The cursor only moves
/// forward; `align_to_byte` may discard up to 7 unconsumed bits of the
/// current byte, and nothing ever rewinds.
pub struct BitReader {
    data: Vec<u8>,
    byte: usize,
    off: u8,
}

impl BitReader {
    /// The underlying bytes.
    pub closed spec fn data(&self) -> Seq<u8> {
        self.data@
    }

    /// Index of the byte the cursor stands in.
    pub closed spec fn byte_pos(&self) -> int {
        self.byte as int
    }

    /// Bit offset within the current byte.
    pub closed spec fn bit_off(&self) -> int {
        self.off as int
    }

    /// Absolute bit position of the cursor.
    pub open spec fn pos(&self) -> int {
        self.byte_pos() * 8 + self.bit_off()
    }

    /// Total number of bits in the underlying bytes.
    pub open spec fn total_bits(&self) -> int {
        self.data().len() * 8int
    }

    pub open spec fn wf(&self) -> bool {
        &&& 0 <= self.bit_off() < 8
        &&& 0 <= self.byte_pos() <= self.data().len()
        &&& (self.byte_pos() == self.data().len() ==> self.bit_off() == 0)
    }

    pub proof fn lemma_pos_in_range(&self)
        requires
            self.wf(),
        ensures
            0 <= self.pos() <= self.total_bits(),
    {
    }

    pub fn new(data: Vec<u8>) -> (r: BitReader)
        ensures
            r.wf(),
            r.data() == data@,
            r.pos() == 0,
    {
        BitReader { data, byte: 0, off: 0 }
    }

    /// Number of whole bytes not yet consumed, counting a partially consumed
    /// byte as spent.
    pub fn remaining_bytes(&self) -> (r: usize)
        requires
            self.wf(),
        ensures
            r == self.data().len() - self.byte_pos(),
    {
        self.data.len() - self.byte
    }

    /// True iff every bit of the input has been consumed.
    pub fn at_end(&self) -> (r: bool)
        requires
            self.wf(),
        ensures
            r == (self.pos() == self.total_bits()),
    {
        self.byte == self.data.len()
    }

    /// Reads the next bit of the stream.
    pub fn read_bit(&mut self) -> (r: Result<bool, Error>)
        requires
            old(self).wf(),
        ensures
            final(self).wf(),
            final(self).data() == old(self).data(),
            old(self).pos() < old(self).total_bits() ==> {
                &&& r == Ok::<bool, Error>(bit_at(old(self).data(), old(self).pos()))
                &&& final(self).pos() == old(self).pos() + 1
            },
            old(self).pos() >= old(self).total_bits() ==> {
                &&& r == Err::<bool, Error>(Error::Io(IoError::UnexpectedEof))
                &&& *final(self) == *old(self)
            },
    {
        if self.byte < self.data.len() {
            let b: u8 = self.data[self.byte];
            let bit: bool = (b >> self.off) & 1 == 1;
            proof {
                assert((self.byte * 8 + self.off) / 8 == self.byte as int && (self.byte * 8
                    + self.off) % 8 == self.off as int) by (nonlinear_arith)
                    requires
                        0 <= self.off < 8,
                        0 <= self.byte,
                ;
            }
            if self.off == 7 {
                self.off = 0;
                self.byte = self.byte + 1;
            } else {
                self.off = self.off + 1;
            }
            Ok(bit)
        } else {
            Err(Error::Io(IoError::UnexpectedEof))
        }
    }

    /// Reads an `n`-bit fixed-width field packed least-significant-bit first.
    /// Consumes nothing when fewer than `n` bits remain.
    pub fn read_bits(&mut self, n: usize) -> (r: Result<u32, Error>)
        requires
            old(self).wf(),
            n <= 16,
        ensures
            final(self).wf(),
            final(self).data() == old(self).data(),
            old(self).pos() + n <= old(self).total_bits() ==> {
                &&& final(self).pos() == old(self).pos() + n
                &&& r == Ok::<u32, Error>(
                    lsb_val(stream_bits(old(self).data(), old(self).pos(), old(self).pos() + n))
                        as u32,
                )
                &&& lsb_val(stream_bits(old(self).data(), old(self).pos(), old(self).pos() + n))
                    < exp2(n as nat)
            },
            old(self).pos() + n > old(self).total_bits() ==> {
                &&& r == Err::<u32, Error>(Error::Io(IoError::UnexpectedEof))
                &&& *final(self) == *old(self)
            },
    {
        let avail: usize = self.data.len() - self.byte;
        let enough: bool = if avail >= 3 {
            true
        } else {
            n + (self.off as usize) <= avail * 8
        };
        if !enough {
            return Err(Error::Io(IoError::UnexpectedEof));
        }
        let ghost data = self.data@;
        let ghost start = self.pos();
        let mut acc: u32 = 0;
        let mut p: u32 = 1;
        let mut i: usize = 0;
        while i < n
            invariant
                self.wf(),
                self.data() == data,
                n <= 16,
                0 <= i <= n,
                start + n <= self.total_bits(),
                self.pos() == start + i,
                p == exp2(i as nat),
                acc == lsb_val(stream_bits(data, start, start + i)),
                acc < p,
            decreases n - i,
        {
            proof {
                lemma_exp2_pos(i as nat);
                assert(exp2(16) == 65536) by {
                    reveal_with_fuel(exp2, 17);
                }
                lemma_exp2_monotone(i as nat, 16);
            }
            let bit: bool = match self.read_bit() {
                Ok(b) => b,
                Err(_) => vstd::pervasive::unreached(),
            };
            proof {
                let s0 = stream_bits(data, start, start + i);
                let s1 = stream_bits(data, start, start + i + 1);
                assert(s1.drop_last() =~= s0);
                assert(s1.last() == bit_at(data, start + i));
            }
            if bit {
                acc = acc + p;
            }
            p = p * 2;
            i = i + 1;
        }
        proof {
            lemma_lsb_val_bound(stream_bits(data, start, start + n));
        }
        Ok(acc)
    }

    /// Reads `n` bits without consuming them; returns the same value a
    /// `read_bits(n)` call would.
    pub fn peek_bits(&self, n: usize) -> (r: Result<u32, Error>)
        requires
            self.wf(),
            n <= 16,
        ensures
            self.pos() + n <= self.total_bits() ==> r == Ok::<u32, Error>(
                lsb_val(stream_bits(self.data(), self.pos(), self.pos() + n)) as u32,
            ),
            self.pos() + n > self.total_bits() ==> r == Err::<u32, Error>(
                Error::Io(IoError::UnexpectedEof),
            ),
    {
        let avail: usize = self.data.len() - self.byte;
        let enough: bool = if avail >= 3 {
            true
        } else {
            n + (self.off as usize) <= avail * 8
        };
        if !enough {
            return Err(Error::Io(IoError::UnexpectedEof));
        }
        let ghost data = self.data@;
        let ghost start = self.pos();
        let mut byte: usize = self.byte;
        let mut off: u8 = self.off;
        let mut acc: u32 = 0;
        let mut p: u32 = 1;
        let mut i: usize = 0;
        while i < n
            invariant
                0 <= off < 8,
                0 <= byte <= data.len(),
                byte == data.len() ==> off == 0,
                data == self.data@,
                n <= 16,
                0 <= i <= n,
                data.len() <= usize::MAX,
                start + n <= data.len() * 8,
                byte * 8 + off == start + i,
                p == exp2(i as nat),
                acc == lsb_val(stream_bits(data, start, start + i)),
                acc < p,
            decreases n - i,
        {
            proof {
                lemma_exp2_pos(i as nat);
                assert(exp2(16) == 65536) by {
                    reveal_with_fuel(exp2, 17);
                }
                lemma_exp2_monotone(i as nat, 16);
                assert((byte * 8 + off) / 8 == byte as int && (byte * 8 + off) % 8
                    == off as int) by (nonlinear_arith)
                    requires
                        0 <= off < 8,
                        0 <= byte,
                ;
                assert(byte < data.len()) by (nonlinear_arith)
                    requires
                        byte * 8 + off < data.len() * 8,
                        0 <= off < 8,
                ;
            }
            let b: u8 = self.data[byte];
            let bit: bool = (b >> off) & 1 == 1;
            proof {
                let s0 = stream_bits(data, start, start + i);
                let s1 = stream_bits(data, start, start + i + 1);
                assert(s1.drop_last() =~= s0);
                assert(s1.last() == bit_at(data, start + i));
            }
            if off == 7 {
                off = 0;
                byte = byte + 1;
            } else {
                off = off + 1;
            }
            if bit {
                acc = acc + p;
            }
            p = p * 2;
            i = i + 1;
        }
        Ok(acc)
    }

    /// Discards the unconsumed bits of the current byte, if any, so that the
    /// cursor stands on a byte boundary.
    pub fn align_to_byte(&mut self)
        requires
            old(self).wf(),
        ensures
            final(self).wf(),
            final(self).data() == old(self).data(),
            final(self).bit_off() == 0,
            final(self).pos() == 8 * ((old(self).pos() + 7) / 8),
    {
        // An exec binding of the length, so the bound on the byte index
        // below it is in scope for the increment.
        let _n: usize = self.data.len();
        if self.off != 0 {
            let ghost o = self.off as int;
            self.off = 0;
            self.byte = self.byte + 1;
            proof {
                assert(8 * self.byte == 8 * (((self.byte - 1) * 8 + o + 7) / 8))
                    by (nonlinear_arith)
                    requires
                        1 <= self.byte,
                        1 <= o < 8,
                ;
            }
        }
    }

    /// Reads `n` raw bytes. The cursor must stand on a byte boundary;
    /// otherwise the call fails without consuming anything.
    pub fn read_bytes(&mut self, n: usize) -> (r: Result<Vec<u8>, Error>)
        requires
            old(self).wf(),
        ensures
            final(self).wf(),
            final(self).data() == old(self).data(),
            old(self).bit_off() != 0 ==> {
                &&& r == Err::<Vec<u8>, Error>(Error::Io(IoError::ReadFailure))
                &&& *final(self) == *old(self)
            },
            old(self).bit_off() == 0 && old(self).byte_pos() + n > old(self).data().len() ==> {
                &&& r == Err::<Vec<u8>, Error>(Error::Io(IoError::UnexpectedEof))
                &&& *final(self) == *old(self)
            },
            old(self).bit_off() == 0 && old(self).byte_pos() + n <= old(self).data().len() ==> {
                &&& r matches Ok(v) && v@ == old(self).data().subrange(
                    old(self).byte_pos(),
                    old(self).byte_pos() + n,
                )
                &&& final(self).byte_pos() == old(self).byte_pos() + n
                &&& final(self).bit_off() == 0
            },
    {
        if self.off != 0 {
            return Err(Error::Io(IoError::ReadFailure));
        }
        if n > self.data.len() - self.byte {
            return Err(Error::Io(IoError::UnexpectedEof));
        }
        let start: usize = self.byte;
        let mut out: Vec<u8> = Vec::new();
        let mut i: usize = 0;
        while i < n
            invariant
                self.wf(),
                self.off == 0,
                self.byte == start,
                self.data@.len() <= usize::MAX,
                start + n <= self.data@.len(),
                0 <= i <= n,
                out@ =~= self.data@.subrange(start as int, start + i),
            decreases n - i,
        {
            out.push(self.data[start + i]);
            i = i + 1;
            proof {
                assert(out@ =~= self.data@.subrange(start as int, start + i));
            }
        }
        self.byte = start + n;
        Ok(out)
    }

    /// Reads a 16-bit little-endian integer from a byte boundary.
    pub fn read_u16_le(&mut self) -> (r: Result<u16, Error>)
        requires
            old(self).wf(),
            old(self).bit_off() == 0,
        ensures
            final(self).wf(),
            final(self).data() == old(self).data(),
            final(self).bit_off() == 0,
            old(self).byte_pos() + 2 <= old(self).data().len() ==> {
                &&& r == Ok::<u16, Error>(
                    le16(
                        old(self).data()[old(self).byte_pos()],
                        old(self).data()[old(self).byte_pos() + 1],
                    ) as u16,
                )
                &&& final(self).byte_pos() == old(self).byte_pos() + 2
            },
            old(self).byte_pos() + 2 > old(self).data().len() ==> {
                &&& r == Err::<u16, Error>(Error::Io(IoError::UnexpectedEof))
                &&& *final(self) == *old(self)
            },
    {
        let v = self.read_bytes(2)?;
        Ok(v[0] as u16 + 256 * (v[1] as u16))
    }

    /// Reads a 32-bit little-endian integer from a byte boundary.
    pub fn read_u32_le(&mut self) -> (r: Result<u32, Error>)
        requires
            old(self).wf(),
            old(self).bit_off() == 0,
        ensures
            final(self).wf(),
            final(self).data() == old(self).data(),
            final(self).bit_off() == 0,
            old(self).byte_pos() + 4 <= old(self).data().len() ==> {
                &&& r == Ok::<u32, Error>(
                    le32(
                        old(self).data()[old(self).byte_pos()],
                        old(self).data()[old(self).byte_pos() + 1],
                        old(self).data()[old(self).byte_pos() + 2],
                        old(self).data()[old(self).byte_pos() + 3],
                    ) as u32,
                )
                &&& final(self).byte_pos() == old(self).byte_pos() + 4
            },
            old(self).byte_pos() + 4 > old(self).data().len() ==> {
                &&& r == Err::<u32, Error>(Error::Io(IoError::UnexpectedEof))
                &&& *final(self) == *old(self)
            },
    {
        let v = self.read_bytes(4)?;
        Ok(
            v[0] as u32 + 256 * (v[1] as u32) + 65536 * (v[2] as u32) + 16777216 * (v[3] as u32),
        )
    }
}

pub proof fn lemma_msb_val_bound(s: Seq<bool>)
    ensures
        msb_val(s) < exp2(s.len()),
    decreases s.len(),
{
    if s.len() > 0 {
        lemma_msb_val_bound(s.drop_last());
    }
}

/// A most-significant-bit-first value splits at any point into the value
/// of its leading bits, shifted up by the width of the rest, plus the value
/// of the rest.
pub proof fn lemma_msb_val_split(s: Seq<bool>, k: int)
    requires
        0 <= k <= s.len(),
    ensures
        msb_val(s) == msb_val(s.take(k)) * exp2((s.len() - k) as nat) + msb_val(s.skip(k)),
    decreases s.len(),
{
    if k == s.len() {
        assert(s.take(k) =~= s);
        assert(s.skip(k) =~= Seq::<bool>::empty());
        assert(exp2(0) == 1);
        assert(msb_val(s) * 1 == msb_val(s)) by (nonlinear_arith);
    } else {
        let d = s.drop_last();
        lemma_msb_val_split(d, k);
        assert(d.take(k) =~= s.take(k));
        assert(d.skip(k) =~= s.skip(k).drop_last());
        assert(s.skip(k).last() == s.last());
        let t = msb_val(s.take(k));
        let e = exp2((s.len() - 1 - k) as nat);
        assert(exp2((s.len() - k) as nat) == 2 * e);
        assert((t * e) * 2 == t * (2 * e)) by (nonlinear_arith);
    }
}

pub proof fn lemma_exp2_monotone(a: nat, b: nat)
    requires
        a <= b,
    ensures
        exp2(a) <= exp2(b),
    decreases b,
{
    if a < b {
        lemma_exp2_monotone(a, (b - 1) as nat);
        lemma_exp2_pos((b - 1) as nat);
    }
}

} // verus!
