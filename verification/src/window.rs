use vstd::prelude::*;

verus! {

/// The sequence after copying `n` bytes from `d` positions behind the end
/// of `s`, one byte at a time, each copied byte at once joining the
/// history. A copy with `n > d` therefore re-reads bytes the same copy just
/// wrote, which is how DEFLATE encodes runs.
pub open spec fn back_copied(s: Seq<u8>, d: int, n: int) -> Seq<u8>
    decreases n,
{
    if n <= 0 {
        s
    } else {
        let prev = back_copied(s, d, n - 1);
        prev.push(prev[prev.len() - d])
    }
}

pub proof fn lemma_back_copied_len(s: Seq<u8>, d: int, n: int)
    requires
        n >= 0,
    ensures
        back_copied(s, d, n).len() == s.len() + n,
    decreases n,
{
    if n > 0 {
        lemma_back_copied_len(s, d, n - 1);
    }
}

/// The original bytes stay in place under a back-reference copy.
pub proof fn lemma_back_copied_prefix(s: Seq<u8>, d: int, n: int)
    requires
        n >= 0,
    ensures
        forall|j: int| 0 <= j < s.len() ==> back_copied(s, d, n)[j] == s[j],
    decreases n,
{
    if n > 0 {
        lemma_back_copied_prefix(s, d, n - 1);
        lemma_back_copied_len(s, d, n - 1);
    }
}

/// Every copied byte equals the byte `d` positions before it in the result,
/// also when the copy overlaps itself.
pub proof fn lemma_back_copied_overlap(s: Seq<u8>, d: int, n: int)
    requires
        1 <= d <= s.len(),
        n >= 0,
    ensures
        forall|j: int|
            s.len() <= j < s.len() + n ==> #[trigger] back_copied(s, d, n)[j] == back_copied(
                s,
                d,
                n,
            )[j - d],
    decreases n,
{
    if n > 0 {
        lemma_back_copied_overlap(s, d, n - 1);
        lemma_back_copied_len(s, d, n - 1);
        let prev = back_copied(s, d, n - 1);
        let cur = back_copied(s, d, n);
        assert(cur == prev.push(prev[prev.len() - d]));
        assert(forall|j: int| 0 <= j < prev.len() ==> cur[j] == prev[j]);
    }
}

/// A back-reference at distance one is a run: after a last byte `b`, a copy
/// of any length appends that byte over and over.
pub proof fn lemma_copy_distance_one_repeats(s: Seq<u8>, n: int)
    requires
        s.len() >= 1,
        n >= 0,
    ensures
        back_copied(s, 1, n) == s + Seq::new(n as nat, |i: int| s.last()),
    decreases n,
{
    if n == 0 {
        assert(back_copied(s, 1, 0) =~= s + Seq::new(0, |i: int| s.last()));
    } else {
        lemma_copy_distance_one_repeats(s, n - 1);
        lemma_back_copied_len(s, 1, n - 1);
        let prev = back_copied(s, 1, n - 1);
        assert(prev.last() == s.last());
        assert(prev.push(s.last()) =~= s + Seq::new(n as nat, |i: int| s.last()));
    }
}

/// The decompressed bytes of the current gzip member, which double as the
/// history that back-references copy from. The whole member is retained, so
/// any distance up to the bytes produced so far is in range.
pub struct OutputWindow {
    bytes: Vec<u8>,
}

impl View for OutputWindow {
    type V = Seq<u8>;

    closed spec fn view(&self) -> Seq<u8> {
        self.bytes@
    }
}

impl OutputWindow {
    pub fn new() -> (w: OutputWindow)
        ensures
            w@ == Seq::<u8>::empty(),
    {
        OutputWindow { bytes: Vec::new() }
    }

    /// Count of bytes produced in this member so far.
    pub fn len(&self) -> (r: usize)
        ensures
            r == self@.len(),
    {
        self.bytes.len()
    }

    pub fn byte_at(&self, i: usize) -> (r: u8)
        requires
            i < self@.len(),
        ensures
            r == self@[i as int],
    {
        self.bytes[i]
    }

    /// Appends one literal byte.
    pub fn append(&mut self, b: u8)
        ensures
            final(self)@ == old(self)@.push(b),
    {
        self.bytes.push(b);
    }

    /// Appends a run of raw bytes, as a stored block hands them over.
    pub fn append_bytes(&mut self, v: &Vec<u8>)
        ensures
            final(self)@ == old(self)@ + v@,
    {
        let mut i: usize = 0;
        while i < v.len()
            invariant
                0 <= i <= v@.len(),
                self@ == old(self)@ + v@.subrange(0, i as int),
            decreases v@.len() - i,
        {
            self.bytes.push(v[i]);
            i = i + 1;
            proof {
                assert(old(self)@ + v@.subrange(0, i as int) =~= (old(self)@ + v@.subrange(
                    0,
                    i - 1,
                )).push(v@[i - 1]));
            }
        }
        proof {
            assert(v@.subrange(0, v@.len() as int) =~= v@);
        }
    }

    /// Copies `len` bytes starting `dist` positions behind the current end,
    /// byte by byte, so that a copy longer than its distance re-reads what
    /// it just wrote.
    pub fn copy_back(&mut self, dist: usize, len: usize)
        requires
            1 <= dist <= old(self)@.len(),
        ensures
            final(self)@ == back_copied(old(self)@, dist as int, len as int),
    {
        let mut i: usize = 0;
        while i < len
            invariant
                0 <= i <= len,
                1 <= dist <= old(self)@.len(),
                self@ == back_copied(old(self)@, dist as int, i as int),
                self@.len() == old(self)@.len() + i,
            decreases len - i,
        {
            proof {
                lemma_back_copied_len(old(self)@, dist as int, i + 1);
            }
            let b: u8 = self.bytes[self.bytes.len() - dist];
            self.bytes.push(b);
            i = i + 1;
        }
    }

    /// Hands the decompressed member out, ending the window's life.
    pub fn into_bytes(self) -> (r: Vec<u8>)
        ensures
            r@ == self@,
    {
        self.bytes
    }
}

} // verus!
