use vstd::prelude::*;
use crate::bits::{bit_at, exp2, lemma_exp2_monotone, lemma_exp2_pos, msb_val, stream_bits,
    BitReader};
use crate::errors::{BlockError, Error, IoError};

verus! {

/// The longest code length DEFLATE permits.
pub open spec fn max_bits() -> int {
    15
}

/// How many of the first `k` symbols have code length `l`.
pub open spec fn count_len_upto(lens: Seq<u8>, l: int, k: int) -> nat
    decreases k,
{
    if k <= 0 {
        0
    } else {
        count_len_upto(lens, l, k - 1) + if lens[k - 1] == l {
            1nat
        } else {
            0
        }
    }
}

/// How many symbols have code length `l`.
pub open spec fn count_len(lens: Seq<u8>, l: int) -> nat {
    count_len_upto(lens, l, lens.len() as int)
}

/// The smallest code value of length `l` under the canonical assignment of
/// RFC 1951: zero at length one, and at each further length the previous
/// first code plus the previous count, shifted left once.
pub open spec fn next_code(lens: Seq<u8>, l: int) -> nat
    decreases l,
{
    if l <= 1 {
        0
    } else {
        (next_code(lens, l - 1) + count_len(lens, l - 1)) * 2
    }
}

/// One past the largest code value of length `l`: the portion of the code
/// space of width `l` that lengths up to `l` have consumed.
pub open spec fn used_codes(lens: Seq<u8>, l: int) -> nat {
    if l <= 0 {
        0
    } else {
        next_code(lens, l) + count_len(lens, l)
    }
}

/// The rank of a symbol among the symbols that share its length.
pub open spec fn code_rank(lens: Seq<u8>, sym: int) -> nat {
    count_len_upto(lens, lens[sym] as int, sym)
}

/// The canonical code value assigned to a symbol: codes of one length are
/// consecutive integers in ascending symbol order.
pub open spec fn code_of(lens: Seq<u8>, sym: int) -> nat {
    next_code(lens, lens[sym] as int) + code_rank(lens, sym)
}

/// A well-shaped length array: one length per symbol of an alphabet of at
/// most 288 symbols, none longer than 15 bits.
pub open spec fn valid_lengths(lens: Seq<u8>) -> bool {
    &&& lens.len() <= 288
    &&& forall|i: int| 0 <= i < lens.len() ==> lens[i] <= max_bits()
}

/// The Kraft condition of RFC 1951: the lengths do not oversubscribe the
/// code space, i.e. the sum of `2^(15 - len)` over coded symbols stays
/// within `2^15`.
pub open spec fn kraft_ok(lens: Seq<u8>) -> bool {
    used_codes(lens, max_bits()) <= exp2(15)
}

/// Symbol `sym` is the `r`-th symbol (in symbol order) of length `l`.
pub open spec fn is_nth_sym(lens: Seq<u8>, l: int, r: int, sym: int) -> bool {
    &&& 0 <= sym < lens.len()
    &&& lens[sym] == l
    &&& count_len_upto(lens, l, sym) == r
}

/// No assigned code of length at most `upto` matches the bits that follow
/// position `pos` of the stream.
pub open spec fn no_code_matches(lens: Seq<u8>, data: Seq<u8>, pos: int, upto: int) -> bool {
    forall|sym: int|
        0 <= sym < lens.len() && 1 <= lens[sym] <= upto ==> msb_val(
            stream_bits(data, pos, pos + lens[sym]),
        ) != code_of(lens, sym)
}

pub proof fn lemma_count_upto_le(lens: Seq<u8>, l: int, k: int)
    requires
        0 <= k <= lens.len(),
    ensures
        count_len_upto(lens, l, k) <= k,
    decreases k,
{
    if k > 0 {
        lemma_count_upto_le(lens, l, k - 1);
    }
}

pub proof fn lemma_count_upto_mono(lens: Seq<u8>, l: int, a: int, b: int)
    requires
        0 <= a <= b,
    ensures
        count_len_upto(lens, l, a) <= count_len_upto(lens, l, b),
    decreases b,
{
    if a < b {
        lemma_count_upto_mono(lens, l, a, b - 1);
    }
}

/// A coded symbol's rank lies below the count of its length class.
pub proof fn lemma_rank_lt_count(lens: Seq<u8>, sym: int)
    requires
        0 <= sym < lens.len(),
    ensures
        code_rank(lens, sym) < count_len(lens, lens[sym] as int),
{
    let l = lens[sym] as int;
    assert(count_len_upto(lens, l, sym + 1) == count_len_upto(lens, l, sym) + 1);
    lemma_count_upto_mono(lens, l, sym + 1, lens.len() as int);
}

/// The code space used up to one length is the doubled previous use plus the
/// new length's count.
pub proof fn lemma_used_step(lens: Seq<u8>, l: int)
    requires
        1 <= l,
    ensures
        used_codes(lens, l) == 2 * used_codes(lens, l - 1) + count_len(lens, l),
{
    if l == 1 {
    } else {
        assert(next_code(lens, l) == (next_code(lens, l - 1) + count_len(lens, l - 1)) * 2);
    }
}

/// Use of the code space never shrinks as lengths grow, scaled to a common
/// width.
pub proof fn lemma_used_lower(lens: Seq<u8>, l: int, m: int)
    requires
        0 <= l <= m,
    ensures
        used_codes(lens, m) >= used_codes(lens, l) * exp2((m - l) as nat),
    decreases m - l,
{
    if l == m {
        assert(exp2(0) == 1);
        assert(used_codes(lens, l) * 1 == used_codes(lens, l)) by (nonlinear_arith);
    } else {
        lemma_used_lower(lens, l, m - 1);
        lemma_used_step(lens, m);
        let u = used_codes(lens, l);
        let e = exp2((m - 1 - l) as nat);
        assert(exp2((m - l) as nat) == 2 * e);
        assert(used_codes(lens, m) >= 2 * used_codes(lens, m - 1));
        assert(2 * used_codes(lens, m - 1) >= 2 * (u * e));
        assert(2 * (u * e) == u * (2 * e)) by (nonlinear_arith);
        assert(u * exp2((m - l) as nat) == u * (2 * e));
    }
}

/// Under the Kraft condition, no length class overflows its code space.
pub proof fn lemma_used_le(lens: Seq<u8>, l: int)
    requires
        0 <= l <= 15,
        kraft_ok(lens),
    ensures
        used_codes(lens, l) <= exp2(l as nat),
{
    lemma_used_lower(lens, l, 15);
    let u = used_codes(lens, l);
    let e = exp2((15 - l) as nat);
    assert(exp2(15) == exp2(l as nat) * e) by {
        lemma_exp2_mul(l as nat, (15 - l) as nat);
    }
    lemma_exp2_pos((15 - l) as nat);
    assert(u * e <= exp2(l as nat) * e && e >= 1 ==> u <= exp2(l as nat)) by (nonlinear_arith);
}

pub proof fn lemma_exp2_mul(a: nat, b: nat)
    ensures
        exp2(a + b) == exp2(a) * exp2(b),
    decreases b,
{
    if b == 0 {
        assert(exp2(0) == 1);
        assert(exp2(a + 0) == exp2(a) * 1);
    } else {
        lemma_exp2_mul(a, (b - 1) as nat);
        let e = exp2((b - 1) as nat);
        assert(exp2(b) == 2 * e);
        assert(exp2(a + b) == 2 * exp2((a + b - 1) as nat));
        assert(exp2((a + b - 1) as nat) == exp2(a) * e);
        assert(exp2(a) * (2 * e) == 2 * (exp2(a) * e)) by (nonlinear_arith);
        assert(exp2(a) * exp2(b) == exp2(a) * (2 * e));
    }
}

/// Every assigned canonical code fits in its own bit width.
pub proof fn lemma_code_fits(lens: Seq<u8>, sym: int)
    requires
        0 <= sym < lens.len(),
        1 <= lens[sym] <= 15,
        kraft_ok(lens),
    ensures
        code_of(lens, sym) < exp2(lens[sym] as nat),
{
    lemma_rank_lt_count(lens, sym);
    lemma_used_le(lens, lens[sym] as int);
}

/// Canonical codes are prefix-free: reading a code of one symbol can never
/// stop inside or at the start of another symbol's code. Numerically, for
/// symbols `a`, `b` with `lens[a] <= lens[b]`, the code of `b` lies outside
/// the value range `[code_of(a) * 2^d, (code_of(a) + 1) * 2^d)` that the
/// code of `a` covers at width `lens[b]`, where `d = lens[b] - lens[a]`.
pub proof fn lemma_codes_prefix_free(lens: Seq<u8>, a: int, b: int)
    requires
        kraft_ok(lens),
        0 <= a < lens.len(),
        0 <= b < lens.len(),
        1 <= lens[a] <= 15,
        1 <= lens[b] <= 15,
        a != b,
        lens[a] <= lens[b],
    ensures
        code_of(lens, b) < code_of(lens, a) * exp2((lens[b] - lens[a]) as nat) || code_of(
            lens,
            b,
        ) >= (code_of(lens, a) + 1) * exp2((lens[b] - lens[a]) as nat),
{
    let la = lens[a] as int;
    let lb = lens[b] as int;
    let d = (lb - la) as nat;
    if la == lb {
        assert(exp2(0) == 1);
        if a < b {
            lemma_count_upto_mono(lens, la, a + 1, b);
            assert(count_len_upto(lens, la, a + 1) == count_len_upto(lens, la, a) + 1);
        } else {
            lemma_count_upto_mono(lens, la, b + 1, a);
            assert(count_len_upto(lens, la, b + 1) == count_len_upto(lens, la, b) + 1);
        }
    } else {
        // next_code(lb) already lies beyond every width-lb value whose
        // leading bits form a code of length la.
        lemma_used_step(lens, lb);
        lemma_used_lower(lens, la, lb - 1);
        lemma_rank_lt_count(lens, a);
        let u = used_codes(lens, la);
        let e = exp2((lb - 1 - la) as nat);
        assert(exp2(d) == 2 * e);
        assert(next_code(lens, lb) == 2 * (next_code(lens, lb - 1) + count_len(lens, lb - 1)));
        assert(used_codes(lens, lb - 1) >= u * e);
        assert(next_code(lens, lb) >= 2 * (u * e));
        assert(code_of(lens, a) + 1 <= u);
        assert(2 * (u * e) == u * (2 * e)) by (nonlinear_arith);
        assert((code_of(lens, a) + 1) * (2 * e) <= u * (2 * e)) by (nonlinear_arith)
            requires
                code_of(lens, a) + 1 <= u,
                e >= 0,
        ;
        lemma_rank_lt_count(lens, b);
    }
}

pub proof fn lemma_exp2_15()
    ensures
        exp2(15) == 32768,
{
    reveal_with_fuel(exp2, 16);
}

/// A length class that overflows its code space breaks the Kraft condition.
pub proof fn lemma_oversubscribed(lens: Seq<u8>, l: int)
    requires
        1 <= l <= 15,
        used_codes(lens, l) > exp2(l as nat),
    ensures
        !kraft_ok(lens),
{
    lemma_used_lower(lens, l, 15);
    let u = used_codes(lens, l);
    let e = exp2((15 - l) as nat);
    lemma_exp2_mul(l as nat, (15 - l) as nat);
    lemma_exp2_pos((15 - l) as nat);
    assert(u > exp2(l as nat) && e >= 1 ==> u * e >= (exp2(l as nat) + 1) * e)
        by (nonlinear_arith);
    assert((exp2(l as nat) + 1) * e == exp2(l as nat) * e + e) by (nonlinear_arith);
}

/// A canonical Huffman decode table: the per-symbol code lengths it was
/// built from, the first code value of each length, and the symbols of each
/// length in ascending order. Decoding narrows one length per bit, so a
/// symbol costs at most 15 bit reads.
pub struct HuffmanTable {
    lens: Vec<u8>,
    base: Vec<u32>,
    syms: Vec<Vec<u16>>,
}

impl HuffmanTable {
    /// The code lengths this table decodes.
    pub closed spec fn lens(&self) -> Seq<u8> {
        self.lens@
    }

    pub closed spec fn wf(&self) -> bool {
        &&& valid_lengths(self.lens@)
        &&& kraft_ok(self.lens@)
        &&& self.base@.len() == 16
        &&& self.syms@.len() == 16
        &&& forall|l: int| 1 <= l < 16 ==> self.base@[l] == next_code(self.lens@, l)
        &&& forall|l: int|
            1 <= l < 16 ==> (#[trigger] self.syms@[l])@.len() == count_len(self.lens@, l)
        &&& forall|l: int, r: int|
            1 <= l < 16 && 0 <= r < count_len(self.lens@, l) ==> is_nth_sym(
                self.lens@,
                l,
                r,
                #[trigger] self.syms@[l]@[r] as int,
            )
    }

    pub proof fn lemma_wf_facts(&self)
        requires
            self.wf(),
        ensures
            valid_lengths(self.lens()),
            kraft_ok(self.lens()),
    {
    }

    /// Builds the canonical decode table of RFC 1951 from one code length
    /// per symbol; a length of zero gives the symbol no code. Fails exactly
    /// when the lengths oversubscribe the code space.
    pub fn build(lens: Vec<u8>) -> (r: Result<HuffmanTable, Error>)
        requires
            valid_lengths(lens@),
        ensures
            kraft_ok(lens@) ==> (r matches Ok(t) && t.wf() && t.lens() == lens@),
            !kraft_ok(lens@) ==> r == Err::<HuffmanTable, Error>(
                Error::Block(BlockError::InvalidCodeLengths),
            ),
    {
        let n: usize = lens.len();
        let mut counts: Vec<u32> = Vec::new();
        let mut l: usize = 0;
        while l < 16
            invariant
                counts@.len() == l,
                l <= 16,
                forall|k: int| 0 <= k < l ==> counts@[k] == 0,
            decreases 16 - l,
        {
            counts.push(0);
            l = l + 1;
        }
        let mut i: usize = 0;
        while i < n
            invariant
                counts@.len() == 16,
                0 <= i <= n,
                n == lens@.len(),
                valid_lengths(lens@),
                forall|k: int| 0 <= k < 16 ==> counts@[k] == count_len_upto(lens@, k, i as int),
                forall|k: int| 0 <= k < 16 ==> counts@[k] <= i,
            decreases n - i,
        {
            let li: usize = lens[i] as usize;
            let c: u32 = counts[li];
            counts.set(li, c + 1);
            i = i + 1;
            proof {
                assert(forall|k: int|
                    0 <= k < 16 ==> count_len_upto(lens@, k, i as int) == count_len_upto(
                        lens@,
                        k,
                        i - 1,
                    ) + if lens@[i - 1] == k {
                        1nat
                    } else {
                        0
                    });
            }
        }
        // The running Kraft check of RFC 1951: `left` counts the code values
        // of the current width not claimed by any shorter or equal length.
        let mut left: u32 = 1;
        l = 1;
        while l < 16
            invariant
                1 <= l <= 16,
                counts@.len() == 16,
                n == lens@.len(),
                valid_lengths(lens@),
                forall|k: int| 0 <= k < 16 ==> counts@[k] == count_len(lens@, k),
                left == exp2((l - 1) as nat) - used_codes(lens@, l - 1),
                used_codes(lens@, l - 1) <= exp2((l - 1) as nat),
            decreases 16 - l,
        {
            proof {
                lemma_exp2_monotone((l - 1) as nat, 15);
                lemma_exp2_15();
                lemma_used_step(lens@, l as int);
            }
            let c: u32 = counts[l];
            if c > 2 * left {
                proof {
                    lemma_oversubscribed(lens@, l as int);
                }
                return Err(Error::Block(BlockError::InvalidCodeLengths));
            }
            left = 2 * left - c;
            l = l + 1;
        }
        let mut base: Vec<u32> = Vec::new();
        base.push(0);
        base.push(0);
        l = 2;
        while l < 16
            invariant
                2 <= l <= 16,
                base@.len() == l,
                counts@.len() == 16,
                n == lens@.len(),
                valid_lengths(lens@),
                kraft_ok(lens@),
                forall|k: int| 0 <= k < 16 ==> counts@[k] == count_len(lens@, k),
                forall|k: int| 1 <= k < l ==> base@[k] == next_code(lens@, k),
            decreases 16 - l,
        {
            proof {
                lemma_used_le(lens@, l - 1);
                lemma_exp2_monotone((l - 1) as nat, 15);
                lemma_exp2_15();
            }
            let b: u32 = (base[l - 1] + counts[l - 1]) * 2;
            base.push(b);
            l = l + 1;
        }
        let mut syms: Vec<Vec<u16>> = Vec::new();
        syms.push(Vec::new());
        l = 1;
        while l < 16
            invariant
                1 <= l <= 16,
                syms@.len() == l,
                n == lens@.len(),
                valid_lengths(lens@),
                forall|k: int|
                    1 <= k < l ==> (#[trigger] syms@[k])@.len() == count_len(lens@, k),
                forall|k: int, r: int|
                    1 <= k < l && 0 <= r < count_len(lens@, k) ==> is_nth_sym(
                        lens@,
                        k,
                        r,
                        #[trigger] syms@[k]@[r] as int,
                    ),
            decreases 16 - l,
        {
            let mut v: Vec<u16> = Vec::new();
            let mut j: usize = 0;
            while j < n
                invariant
                    0 <= j <= n,
                    n == lens@.len() <= 288,
                    valid_lengths(lens@),
                    1 <= l < 16,
                    v@.len() == count_len_upto(lens@, l as int, j as int),
                    forall|r: int|
                        0 <= r < v@.len() ==> is_nth_sym(
                            lens@,
                            l as int,
                            r,
                            #[trigger] v@[r] as int,
                        ),
                decreases n - j,
            {
                if lens[j] == l as u8 {
                    v.push(j as u16);
                }
                j = j + 1;
            }
            syms.push(v);
            l = l + 1;
        }
        Ok(HuffmanTable { lens, base, syms })
    }

    /// Decodes one Huffman code from the reader, reading the code's bits
    /// most-significant-bit first as RFC 1951 packs them. Returns the symbol
    /// whose canonical code equals exactly the bits consumed; fails when no
    /// assigned code matches within 15 bits, or when the input runs out
    /// first.
    pub fn decode_symbol(&self, r: &mut BitReader) -> (res: Result<u16, Error>)
        requires
            self.wf(),
            old(r).wf(),
        ensures
            final(r).wf(),
            final(r).data() == old(r).data(),
            final(r).pos() >= old(r).pos(),
            match res {
                Ok(sym) => {
                    &&& 0 <= sym < self.lens().len()
                    &&& 1 <= self.lens()[sym as int] <= 15
                    &&& final(r).pos() == old(r).pos() + self.lens()[sym as int]
                    &&& msb_val(
                        stream_bits(old(r).data(), old(r).pos(), final(r).pos()),
                    ) == code_of(self.lens(), sym as int)
                },
                Err(e) => {
                    &&& (e == Error::Block(BlockError::InvalidHuffmanCode) || e == Error::Io(
                        IoError::UnexpectedEof,
                    ))
                    &&& e == Error::Block(BlockError::InvalidHuffmanCode)
                        ==> no_code_matches(self.lens(), old(r).data(), old(r).pos(), 15)
                    &&& e == Error::Io(IoError::UnexpectedEof) ==> {
                        &&& old(r).total_bits() - old(r).pos() < 15
                        &&& no_code_matches(
                            self.lens(),
                            old(r).data(),
                            old(r).pos(),
                            old(r).total_bits() - old(r).pos(),
                        )
                    }
                },
            },
    {
        let ghost data = old(r).data();
        let ghost start = old(r).pos();
        let mut cur: u32 = 0;
        let mut l: usize = 0;
        while l < 15
            invariant
                self.wf(),
                r.wf(),
                data == old(r).data(),
                start == old(r).pos(),
                r.data() == data,
                r.pos() == start + l,
                0 <= l <= 15,
                cur == msb_val(stream_bits(data, start, start + l)),
                cur < exp2(l as nat),
                no_code_matches(self.lens@, data, start, l as int),
            decreases 15 - l,
        {
            proof {
                lemma_exp2_monotone(l as nat, 14);
                lemma_exp2_monotone(14, 15);
                lemma_exp2_15();
            }
            let bit: bool = match r.read_bit() {
                Ok(b) => b,
                Err(e) => {
                    proof {
                        assert(start + l >= r.total_bits());
                        assert(start + l <= r.total_bits());
                    }
                    return Err(e);
                },
            };
            proof {
                let s0 = stream_bits(data, start, start + l);
                let s1 = stream_bits(data, start, start + l + 1);
                assert(s1.drop_last() =~= s0);
                assert(s1.last() == bit_at(data, start + l));
            }
            cur = 2 * cur + if bit {
                1
            } else {
                0
            };
            l = l + 1;
            let cnt: usize = self.syms[l].len();
            let b: u32 = self.base[l];
            proof {
                lemma_count_upto_le(self.lens@, l as int, self.lens@.len() as int);
            }
            if cur >= b && cur - b < cnt as u32 {
                let idx: usize = (cur - b) as usize;
                let sym: u16 = self.syms[l][idx];
                proof {
                    assert(is_nth_sym(self.lens@, l as int, idx as int, sym as int));
                }
                return Ok(sym);
            }
            proof {
                assert forall|sym: int|
                    0 <= sym < self.lens@.len() && self.lens@[sym] == l implies code_of(
                    self.lens@,
                    sym,
                ) != cur by {
                    lemma_rank_lt_count(self.lens@, sym);
                };
            }
        }
        Err(Error::Block(BlockError::InvalidHuffmanCode))
    }
}

/// The fixed literal/length code lengths of RFC 1951: 8 bits for symbols
/// 0-143, 9 for 144-255, 7 for 256-279, 8 for 280-287.
pub open spec fn fixed_lit_lens() -> Seq<u8> {
    Seq::new(
        288,
        |i: int|
            if i < 144 {
                8u8
            } else if i < 256 {
                9u8
            } else if i < 280 {
                7u8
            } else {
                8u8
            },
    )
}

/// The fixed distance code lengths of RFC 1951: 5 bits for each of the 30
/// distance symbols.
pub open spec fn fixed_dist_lens() -> Seq<u8> {
    Seq::new(30, |i: int| 5u8)
}

/// Counting over a run of equal lengths adds the run's width when the
/// length matches and nothing otherwise.
pub proof fn lemma_count_const_segment(s: Seq<u8>, l: int, a: int, b: int, v: u8)
    requires
        0 <= a <= b <= s.len(),
        forall|i: int| a <= i < b ==> s[i] == v,
    ensures
        count_len_upto(s, l, b) == count_len_upto(s, l, a) + if v == l {
            (b - a) as nat
        } else {
            0
        },
    decreases b - a,
{
    if a < b {
        lemma_count_const_segment(s, l, a, b - 1, v);
    }
}

pub proof fn lemma_fixed_lit_count(l: int)
    ensures
        count_len(fixed_lit_lens(), l) == if l == 7 {
            24nat
        } else if l == 8 {
            152nat
        } else if l == 9 {
            112nat
        } else {
            0nat
        },
{
    let s = fixed_lit_lens();
    lemma_count_const_segment(s, l, 0, 144, 8);
    lemma_count_const_segment(s, l, 144, 256, 9);
    lemma_count_const_segment(s, l, 256, 280, 7);
    lemma_count_const_segment(s, l, 280, 288, 8);
}

pub proof fn lemma_fixed_lit_next(l: int)
    requires
        1 <= l <= 15,
    ensures
        next_code(fixed_lit_lens(), l) == if l <= 7 {
            0nat
        } else if l == 8 {
            48nat
        } else if l == 9 {
            400nat
        } else {
            1024 * exp2((l - 10) as nat)
        },
    decreases l,
{
    let s = fixed_lit_lens();
    if l > 1 {
        lemma_fixed_lit_next(l - 1);
        lemma_fixed_lit_count(l - 1);
        assert(next_code(s, l) == (next_code(s, l - 1) + count_len(s, l - 1)) * 2);
        if l == 10 {
            assert(exp2(0) == 1);
        }
        if l >= 11 {
            let e = exp2((l - 11) as nat);
            assert(exp2((l - 10) as nat) == 2 * e);
            assert((1024 * e) * 2 == 1024 * (2 * e)) by (nonlinear_arith);
        }
    }
}

pub proof fn lemma_fixed_lit_valid()
    ensures
        valid_lengths(fixed_lit_lens()),
        kraft_ok(fixed_lit_lens()),
{
    lemma_fixed_lit_next(15);
    lemma_fixed_lit_count(15);
    assert(exp2(5) == 32) by {
        reveal_with_fuel(exp2, 6);
    }
    lemma_exp2_15();
}

pub proof fn lemma_fixed_dist_count(l: int)
    ensures
        count_len(fixed_dist_lens(), l) == if l == 5 {
            30nat
        } else {
            0nat
        },
{
    lemma_count_const_segment(fixed_dist_lens(), l, 0, 30, 5);
}

pub proof fn lemma_fixed_dist_next(l: int)
    requires
        1 <= l <= 15,
    ensures
        next_code(fixed_dist_lens(), l) == if l <= 5 {
            0nat
        } else {
            60 * exp2((l - 6) as nat)
        },
    decreases l,
{
    let s = fixed_dist_lens();
    if l > 1 {
        lemma_fixed_dist_next(l - 1);
        lemma_fixed_dist_count(l - 1);
        assert(next_code(s, l) == (next_code(s, l - 1) + count_len(s, l - 1)) * 2);
        if l == 6 {
            assert(exp2(0) == 1);
        }
        if l >= 7 {
            let e = exp2((l - 7) as nat);
            assert(exp2((l - 6) as nat) == 2 * e);
            assert((60 * e) * 2 == 60 * (2 * e)) by (nonlinear_arith);
        }
    }
}

pub proof fn lemma_fixed_dist_valid()
    ensures
        valid_lengths(fixed_dist_lens()),
        kraft_ok(fixed_dist_lens()),
{
    lemma_fixed_dist_next(15);
    lemma_fixed_dist_count(15);
    assert(exp2(9) == 512) by {
        reveal_with_fuel(exp2, 10);
    }
    lemma_exp2_15();
}

proof fn lemma_matched_symbol_unique_ordered(
    lens: Seq<u8>,
    data: Seq<u8>,
    pos: int,
    a: int,
    b: int,
)
    requires
        kraft_ok(lens),
        0 <= a < lens.len(),
        0 <= b < lens.len(),
        1 <= lens[a] <= 15,
        1 <= lens[b] <= 15,
        lens[a] <= lens[b],
        0 <= pos,
        pos + lens[b] <= data.len() * 8,
        msb_val(stream_bits(data, pos, pos + lens[a])) == code_of(lens, a),
        msb_val(stream_bits(data, pos, pos + lens[b])) == code_of(lens, b),
    ensures
        a == b,
{
    if a != b {
        let la = lens[a] as int;
        let lb = lens[b] as int;
        let s = stream_bits(data, pos, pos + lb);
        assert(s.take(la) =~= stream_bits(data, pos, pos + la));
        crate::bits::lemma_msb_val_split(s, la);
        crate::bits::lemma_msb_val_bound(s.skip(la));
        let e = exp2((lb - la) as nat);
        assert(code_of(lens, b) == code_of(lens, a) * e + msb_val(s.skip(la)));
        lemma_codes_prefix_free(lens, a, b);
        assert((code_of(lens, a) + 1) * e == code_of(lens, a) * e + e) by (nonlinear_arith);
    }
}

/// Two symbols whose codes both match the bits at one stream position are
/// the same symbol: a prefix-free code is uniquely decodable.
pub proof fn lemma_matched_symbol_unique(lens: Seq<u8>, data: Seq<u8>, pos: int, a: int, b: int)
    requires
        kraft_ok(lens),
        0 <= a < lens.len(),
        0 <= b < lens.len(),
        1 <= lens[a] <= 15,
        1 <= lens[b] <= 15,
        0 <= pos,
        pos + lens[a] <= data.len() * 8,
        pos + lens[b] <= data.len() * 8,
        msb_val(stream_bits(data, pos, pos + lens[a])) == code_of(lens, a),
        msb_val(stream_bits(data, pos, pos + lens[b])) == code_of(lens, b),
    ensures
        a == b,
{
    if lens[a] <= lens[b] {
        lemma_matched_symbol_unique_ordered(lens, data, pos, a, b);
    } else {
        lemma_matched_symbol_unique_ordered(lens, data, pos, b, a);
    }
}

/// The canonical codes of the fixed literal/length table are exactly those
/// of RFC 1951: eight-bit codes from 0x30 for symbols 0-143, nine-bit codes
/// from 0x190 for 144-255, seven-bit codes from 0 for 256-279, and
/// eight-bit codes from 0xC0 for 280-287.
pub proof fn lemma_fixed_lit_codes(sym: int)
    requires
        0 <= sym < 288,
    ensures
        code_of(fixed_lit_lens(), sym) == if sym < 144 {
            48 + sym
        } else if sym < 256 {
            400 + (sym - 144)
        } else if sym < 280 {
            sym - 256
        } else {
            192 + (sym - 280)
        },
{
    let s = fixed_lit_lens();
    lemma_fixed_lit_next(7);
    lemma_fixed_lit_next(8);
    lemma_fixed_lit_next(9);
    if sym < 144 {
        lemma_count_const_segment(s, 8, 0, sym, 8);
    } else if sym < 256 {
        lemma_count_const_segment(s, 9, 0, 144, 8);
        lemma_count_const_segment(s, 9, 144, sym, 9);
    } else if sym < 280 {
        lemma_count_const_segment(s, 7, 0, 144, 8);
        lemma_count_const_segment(s, 7, 144, 256, 9);
        lemma_count_const_segment(s, 7, 256, sym, 7);
    } else {
        lemma_count_const_segment(s, 8, 0, 144, 8);
        lemma_count_const_segment(s, 8, 144, 256, 9);
        lemma_count_const_segment(s, 8, 256, 280, 7);
        lemma_count_const_segment(s, 8, 280, sym, 8);
    }
}

/// The canonical codes of the fixed distance table are the symbols
/// themselves, five bits wide.
pub proof fn lemma_fixed_dist_codes(sym: int)
    requires
        0 <= sym < 30,
    ensures
        code_of(fixed_dist_lens(), sym) == sym,
{
    lemma_fixed_dist_next(5);
    lemma_count_const_segment(fixed_dist_lens(), 5, 0, sym, 5);
}

/// The constant literal/length table of fixed-Huffman blocks.
pub fn fixed_literal_table() -> (t: HuffmanTable)
    ensures
        t.wf(),
        t.lens() == fixed_lit_lens(),
{
    let mut lens: Vec<u8> = Vec::new();
    let mut i: usize = 0;
    while i < 288
        invariant
            lens@.len() == i,
            i <= 288,
            forall|j: int| 0 <= j < i ==> lens@[j] == fixed_lit_lens()[j],
        decreases 288 - i,
    {
        let v: u8 = if i < 144 {
            8
        } else if i < 256 {
            9
        } else if i < 280 {
            7
        } else {
            8
        };
        lens.push(v);
        i = i + 1;
    }
    proof {
        assert(lens@ =~= fixed_lit_lens());
        lemma_fixed_lit_valid();
    }
    match HuffmanTable::build(lens) {
        Ok(t) => t,
        Err(_) => vstd::pervasive::unreached(),
    }
}

/// The constant distance table of fixed-Huffman blocks.
pub fn fixed_distance_table() -> (t: HuffmanTable)
    ensures
        t.wf(),
        t.lens() == fixed_dist_lens(),
{
    let mut lens: Vec<u8> = Vec::new();
    let mut i: usize = 0;
    while i < 30
        invariant
            lens@.len() == i,
            i <= 30,
            forall|j: int| 0 <= j < i ==> lens@[j] == fixed_dist_lens()[j],
        decreases 30 - i,
    {
        lens.push(5);
        i = i + 1;
    }
    proof {
        assert(lens@ =~= fixed_dist_lens());
        lemma_fixed_dist_valid();
    }
    match HuffmanTable::build(lens) {
        Ok(t) => t,
        Err(_) => vstd::pervasive::unreached(),
    }
}

} // verus!
