use vstd::prelude::*;

verus! {

/// One shift of the reflected CRC-32 register: shift right, folding the
/// polynomial 0xEDB88320 in when a one bit falls out.
pub open spec fn crc_step(c: u32) -> u32 {
    if c & 1 == 1 {
        (c >> 1) ^ 0xEDB88320u32
    } else {
        c >> 1
    }
}

/// `k` register shifts in a row.
pub open spec fn crc_iter(c: u32, k: nat) -> u32
    decreases k,
{
    if k == 0 {
        c
    } else {
        crc_step(crc_iter(c, (k - 1) as nat))
    }
}

/// Folding one byte into the register: mix it into the low bits, then
/// shift eight times.
pub open spec fn crc_feed(c: u32, b: u8) -> u32 {
    crc_iter(c ^ (b as u32), 8)
}

/// The register after feeding a byte sequence, starting from all ones.
pub open spec fn crc_state(s: Seq<u8>) -> u32
    decreases s.len(),
{
    if s.len() == 0 {
        0xFFFFFFFFu32
    } else {
        crc_feed(crc_state(s.drop_last()), s.last())
    }
}

/// The CRC-32 of a byte sequence as gzip stores it: the final register
/// complemented.
pub open spec fn crc32_of(s: Seq<u8>) -> u32 {
    crc_state(s) ^ 0xFFFFFFFFu32
}

/// Running CRC-32 over the bytes emitted so far, fed one byte at a time as
/// the decoder appends them.
pub struct ChecksumVerifier {
    state: u32,
    processed: Ghost<Seq<u8>>,
}

impl ChecksumVerifier {
    /// The bytes fed so far.
    pub closed spec fn processed(&self) -> Seq<u8> {
        self.processed@
    }

    pub closed spec fn wf(&self) -> bool {
        self.state == crc_state(self.processed@)
    }

    pub fn new() -> (c: ChecksumVerifier)
        ensures
            c.wf(),
            c.processed() == Seq::<u8>::empty(),
    {
        ChecksumVerifier { state: 0xFFFFFFFF, processed: Ghost(Seq::empty()) }
    }

    /// Feeds one byte.
    pub fn update(&mut self, b: u8)
        requires
            old(self).wf(),
        ensures
            final(self).wf(),
            final(self).processed() == old(self).processed().push(b),
    {
        let ghost start = self.state ^ (b as u32);
        self.state = self.state ^ (b as u32);
        let mut k: usize = 0;
        while k < 8
            invariant
                0 <= k <= 8,
                self.state == crc_iter(start, k as nat),
                self.processed == old(self).processed,
            decreases 8 - k,
        {
            if self.state & 1 == 1 {
                self.state = (self.state >> 1) ^ 0xEDB88320;
            } else {
                self.state = self.state >> 1;
            }
            k = k + 1;
        }
        self.processed = Ghost(self.processed@.push(b));
        proof {
            assert(self.processed@.drop_last() =~= old(self).processed@);
            assert(self.processed@.last() == b);
        }
    }

    /// The CRC-32 of everything fed so far.
    pub fn finalize(&self) -> (r: u32)
        requires
            self.wf(),
        ensures
            r == crc32_of(self.processed()),
    {
        self.state ^ 0xFFFFFFFF
    }
}

} // verus!
