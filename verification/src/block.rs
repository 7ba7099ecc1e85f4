use vstd::prelude::*;
use crate::bits::{bit_at, exp2, le16, lsb_val, msb_val, stream_bits, BitReader};
use crate::crc32::ChecksumVerifier;
use crate::errors::{BlockError, Error, IoError};
use crate::huffman::{code_of, fixed_dist_lens, fixed_lit_lens, kraft_ok,
    lemma_matched_symbol_unique, HuffmanTable};
use crate::window::{back_copied, OutputWindow};

verus! {

/// Base copy length of a length symbol (RFC 1951, symbols 257..285).
pub open spec fn length_base(sym: int) -> int {
    if sym == 257 {
        3
    } else if sym == 258 {
        4
    } else if sym == 259 {
        5
    } else if sym == 260 {
        6
    } else if sym == 261 {
        7
    } else if sym == 262 {
        8
    } else if sym == 263 {
        9
    } else if sym == 264 {
        10
    } else if sym == 265 {
        11
    } else if sym == 266 {
        13
    } else if sym == 267 {
        15
    } else if sym == 268 {
        17
    } else if sym == 269 {
        19
    } else if sym == 270 {
        23
    } else if sym == 271 {
        27
    } else if sym == 272 {
        31
    } else if sym == 273 {
        35
    } else if sym == 274 {
        43
    } else if sym == 275 {
        51
    } else if sym == 276 {
        59
    } else if sym == 277 {
        67
    } else if sym == 278 {
        83
    } else if sym == 279 {
        99
    } else if sym == 280 {
        115
    } else if sym == 281 {
        131
    } else if sym == 282 {
        163
    } else if sym == 283 {
        195
    } else if sym == 284 {
        227
    } else {
        258
    }
}

/// Extra bits following a length symbol.
pub open spec fn length_extra(sym: int) -> int {
    if sym <= 264 {
        0
    } else if sym == 285 {
        0
    } else if sym <= 268 {
        1
    } else if sym <= 272 {
        2
    } else if sym <= 276 {
        3
    } else if sym <= 280 {
        4
    } else {
        5
    }
}

/// Base distance of a distance symbol (RFC 1951, symbols 0..29).
pub open spec fn dist_base(sym: int) -> int {
    if sym == 0 {
        1
    } else if sym == 1 {
        2
    } else if sym == 2 {
        3
    } else if sym == 3 {
        4
    } else if sym == 4 {
        5
    } else if sym == 5 {
        7
    } else if sym == 6 {
        9
    } else if sym == 7 {
        13
    } else if sym == 8 {
        17
    } else if sym == 9 {
        25
    } else if sym == 10 {
        33
    } else if sym == 11 {
        49
    } else if sym == 12 {
        65
    } else if sym == 13 {
        97
    } else if sym == 14 {
        129
    } else if sym == 15 {
        193
    } else if sym == 16 {
        257
    } else if sym == 17 {
        385
    } else if sym == 18 {
        513
    } else if sym == 19 {
        769
    } else if sym == 20 {
        1025
    } else if sym == 21 {
        1537
    } else if sym == 22 {
        2049
    } else if sym == 23 {
        3073
    } else if sym == 24 {
        4097
    } else if sym == 25 {
        6145
    } else if sym == 26 {
        8193
    } else if sym == 27 {
        12289
    } else if sym == 28 {
        16385
    } else {
        24577
    }
}

/// Extra bits following a distance symbol.
pub open spec fn dist_extra(sym: int) -> int {
    if sym <= 3 {
        0
    } else {
        (sym - 2) / 2
    }
}

/// Base length and extra-bit count of a length symbol, from the fixed
/// table of RFC 1951.
pub fn length_info(sym: u16) -> (r: (u32, usize))
    requires
        257 <= sym <= 285,
    ensures
        r.0 == length_base(sym as int),
        r.1 == length_extra(sym as int),
        1 <= r.0,
        r.1 <= 5,
        r.0 + exp2(r.1 as nat) <= 259,
{
    proof {
        reveal_with_fuel(exp2, 7);
    }
    let base: u32 = if sym == 257 {
        3
    } else if sym == 258 {
        4
    } else if sym == 259 {
        5
    } else if sym == 260 {
        6
    } else if sym == 261 {
        7
    } else if sym == 262 {
        8
    } else if sym == 263 {
        9
    } else if sym == 264 {
        10
    } else if sym == 265 {
        11
    } else if sym == 266 {
        13
    } else if sym == 267 {
        15
    } else if sym == 268 {
        17
    } else if sym == 269 {
        19
    } else if sym == 270 {
        23
    } else if sym == 271 {
        27
    } else if sym == 272 {
        31
    } else if sym == 273 {
        35
    } else if sym == 274 {
        43
    } else if sym == 275 {
        51
    } else if sym == 276 {
        59
    } else if sym == 277 {
        67
    } else if sym == 278 {
        83
    } else if sym == 279 {
        99
    } else if sym == 280 {
        115
    } else if sym == 281 {
        131
    } else if sym == 282 {
        163
    } else if sym == 283 {
        195
    } else if sym == 284 {
        227
    } else {
        258
    };
    let extra: usize = if sym <= 264 {
        0
    } else if sym == 285 {
        0
    } else if sym <= 268 {
        1
    } else if sym <= 272 {
        2
    } else if sym <= 276 {
        3
    } else if sym <= 280 {
        4
    } else {
        5
    };
    (base, extra)
}

/// Base distance and extra-bit count of a distance symbol, from the fixed
/// table of RFC 1951.
pub fn dist_info(sym: u16) -> (r: (u32, usize))
    requires
        sym <= 29,
    ensures
        r.0 == dist_base(sym as int),
        r.1 == dist_extra(sym as int),
        1 <= r.0,
        r.1 <= 13,
        r.0 + exp2(r.1 as nat) <= 32769,
{
    proof {
        reveal_with_fuel(exp2, 15);
    }
    let base: u32 = if sym == 0 {
        1
    } else if sym == 1 {
        2
    } else if sym == 2 {
        3
    } else if sym == 3 {
        4
    } else if sym == 4 {
        5
    } else if sym == 5 {
        7
    } else if sym == 6 {
        9
    } else if sym == 7 {
        13
    } else if sym == 8 {
        17
    } else if sym == 9 {
        25
    } else if sym == 10 {
        33
    } else if sym == 11 {
        49
    } else if sym == 12 {
        65
    } else if sym == 13 {
        97
    } else if sym == 14 {
        129
    } else if sym == 15 {
        193
    } else if sym == 16 {
        257
    } else if sym == 17 {
        385
    } else if sym == 18 {
        513
    } else if sym == 19 {
        769
    } else if sym == 20 {
        1025
    } else if sym == 21 {
        1537
    } else if sym == 22 {
        2049
    } else if sym == 23 {
        3073
    } else if sym == 24 {
        4097
    } else if sym == 25 {
        6145
    } else if sym == 26 {
        8193
    } else if sym == 27 {
        12289
    } else if sym == 28 {
        16385
    } else {
        24577
    };
    let extra: usize = if sym <= 3 {
        0
    } else {
        ((sym - 2) / 2) as usize
    };
    (base, extra)
}

/// The order in which the 19 code-length code lengths are transmitted in a
/// dynamic block header.
pub open spec fn cl_order(i: int) -> int {
    if i == 0 {
        16
    } else if i == 1 {
        17
    } else if i == 2 {
        18
    } else if i == 3 {
        0
    } else if i == 4 {
        8
    } else if i == 5 {
        7
    } else if i == 6 {
        9
    } else if i == 7 {
        6
    } else if i == 8 {
        10
    } else if i == 9 {
        5
    } else if i == 10 {
        11
    } else if i == 11 {
        4
    } else if i == 12 {
        12
    } else if i == 13 {
        3
    } else if i == 14 {
        13
    } else if i == 15 {
        2
    } else if i == 16 {
        14
    } else if i == 17 {
        1
    } else {
        15
    }
}

fn cl_order_at(i: usize) -> (r: usize)
    requires
        i < 19,
    ensures
        r == cl_order(i as int),
        r < 19,
{
    if i == 0 {
        16
    } else if i == 1 {
        17
    } else if i == 2 {
        18
    } else if i == 3 {
        0
    } else if i == 4 {
        8
    } else if i == 5 {
        7
    } else if i == 6 {
        9
    } else if i == 7 {
        6
    } else if i == 8 {
        10
    } else if i == 9 {
        5
    } else if i == 10 {
        11
    } else if i == 11 {
        4
    } else if i == 12 {
        12
    } else if i == 13 {
        3
    } else if i == 14 {
        13
    } else if i == 15 {
        2
    } else if i == 16 {
        14
    } else if i == 17 {
        1
    } else {
        15
    }
}

/// Which of the three encodings a block header announces.
#[derive(Clone, Copy, Debug, PartialEq, Eq)]
pub enum BlockType {
    Stored,
    FixedHuffman,
    DynamicHuffman,
}

/// A parsed block header: the final-block flag and the block's encoding.
/// The reserved encoding never reaches a caller; it is a fatal error at
/// parse time.
pub struct BlockHeader {
    pub bfinal: bool,
    pub btype: BlockType,
}

/// Reads the three header bits of a DEFLATE block: one `bfinal` bit, then
/// the two `btype` bits as a fixed-width field, low bit first. The reserved
/// bit pattern `11` is fatal.
pub fn read_block_header(r: &mut BitReader) -> (res: Result<BlockHeader, Error>)
    requires
        old(r).wf(),
    ensures
        final(r).wf(),
        final(r).data() == old(r).data(),
        final(r).pos() >= old(r).pos(),
        old(r).pos() + 3 > old(r).total_bits() ==> res == Err::<BlockHeader, Error>(
            Error::Io(IoError::UnexpectedEof),
        ),
        old(r).pos() + 3 <= old(r).total_bits() && bit_at(old(r).data(), old(r).pos() + 1)
            && bit_at(old(r).data(), old(r).pos() + 2) ==> res == Err::<BlockHeader, Error>(
            Error::Block(BlockError::ReservedBlockType),
        ),
        old(r).pos() + 3 <= old(r).total_bits() && !(bit_at(old(r).data(), old(r).pos() + 1)
            && bit_at(old(r).data(), old(r).pos() + 2)) ==> {
            &&& res matches Ok(h)
            &&& h.bfinal == bit_at(old(r).data(), old(r).pos())
            &&& h.btype == (if !bit_at(old(r).data(), old(r).pos() + 1) && !bit_at(
                old(r).data(),
                old(r).pos() + 2,
            ) {
                BlockType::Stored
            } else if bit_at(old(r).data(), old(r).pos() + 1) {
                BlockType::FixedHuffman
            } else {
                BlockType::DynamicHuffman
            })
            &&& final(r).pos() == old(r).pos() + 3
        },
{
    let bfinal: bool = r.read_bit()?;
    let b0: bool = r.read_bit()?;
    let b1: bool = r.read_bit()?;
    if b0 && b1 {
        return Err(Error::Block(BlockError::ReservedBlockType));
    }
    let btype: BlockType = if !b0 && !b1 {
        BlockType::Stored
    } else if b0 {
        BlockType::FixedHuffman
    } else {
        BlockType::DynamicHuffman
    };
    Ok(BlockHeader { bfinal, btype })
}

/// Byte index of the first byte boundary at or after bit position `pos`.
pub open spec fn aligned_byte(pos: int) -> int {
    (pos + 7) / 8
}

/// Decodes a stored block, the cursor standing just past the three header
/// bits: aligns to the next byte boundary, reads the little-endian LEN and
/// its one's complement NLEN, and copies LEN raw bytes into the window.
pub fn decode_stored_block(
    r: &mut BitReader,
    w: &mut OutputWindow,
    crc: &mut ChecksumVerifier,
) -> (res: Result<(), Error>)
    requires
        old(r).wf(),
        old(crc).wf(),
        old(crc).processed() == old(w)@,
    ensures
        final(r).wf(),
        final(r).data() == old(r).data(),
        final(r).pos() >= old(r).pos(),
        final(crc).wf(),
        final(crc).processed() == final(w)@,
        ({
            let data = old(r).data();
            let a = aligned_byte(old(r).pos());
            let len_v = le16(data[a], data[a + 1]);
            let nlen_v = le16(data[a + 2], data[a + 3]);
            &&& (a + 4 > data.len() ==> res == Err::<(), Error>(Error::Io(IoError::UnexpectedEof))
                && final(w)@ == old(w)@)
            &&& (a + 4 <= data.len() && nlen_v != 65535 - len_v ==> res == Err::<(), Error>(
                Error::Block(BlockError::StoredLengthMismatch),
            ) && final(w)@ == old(w)@)
            &&& (a + 4 <= data.len() && nlen_v == 65535 - len_v && a + 4 + len_v > data.len()
                ==> res == Err::<(), Error>(Error::Io(IoError::UnexpectedEof)) && final(w)@ == old(
                w,
            )@)
            &&& (a + 4 <= data.len() && nlen_v == 65535 - len_v && a + 4 + len_v <= data.len()
                ==> {
                &&& res == Ok::<(), Error>(())
                &&& final(w)@ == old(w)@ + data.subrange(a + 4, a + 4 + len_v)
                &&& final(r).bit_off() == 0
                &&& final(r).byte_pos() == a + 4 + len_v
            })
        }),
{
    r.align_to_byte();
    let len_v: u16 = r.read_u16_le()?;
    let nlen_v: u16 = r.read_u16_le()?;
    if nlen_v != 65535 - len_v {
        return Err(Error::Block(BlockError::StoredLengthMismatch));
    }
    let bytes: Vec<u8> = r.read_bytes(len_v as usize)?;
    w.append_bytes(&bytes);
    let mut j: usize = 0;
    while j < bytes.len()
        invariant
            0 <= j <= bytes@.len(),
            crc.wf(),
            crc.processed() == old(crc).processed() + bytes@.subrange(0, j as int),
        decreases bytes@.len() - j,
    {
        crc.update(bytes[j]);
        j = j + 1;
        proof {
            assert(old(crc).processed() + bytes@.subrange(0, j as int) =~= (old(crc).processed()
                + bytes@.subrange(0, j - 1)).push(bytes@[j - 1]));
        }
    }
    proof {
        assert(bytes@.subrange(0, bytes@.len() as int) =~= bytes@);
    }
    Ok(())
}

/// Position of code-length-alphabet symbol `j` in the fixed transmission
/// order of a dynamic block header: the inverse of `cl_order`.
pub open spec fn cl_order_inv(j: int) -> int {
    if j == 16 {
        0
    } else if j == 17 {
        1
    } else if j == 18 {
        2
    } else if j == 0 {
        3
    } else if j == 8 {
        4
    } else if j == 7 {
        5
    } else if j == 9 {
        6
    } else if j == 6 {
        7
    } else if j == 10 {
        8
    } else if j == 5 {
        9
    } else if j == 11 {
        10
    } else if j == 4 {
        11
    } else if j == 12 {
        12
    } else if j == 3 {
        13
    } else if j == 13 {
        14
    } else if j == 2 {
        15
    } else if j == 14 {
        16
    } else if j == 1 {
        17
    } else {
        18
    }
}

pub proof fn lemma_cl_order_bijective()
    ensures
        forall|i: int| 0 <= i < 19 ==> cl_order_inv(#[trigger] cl_order(i)) == i,
        forall|j: int| 0 <= j < 19 ==> cl_order(#[trigger] cl_order_inv(j)) == j,
{
}

/// The HLIT count of a dynamic block header whose first bit stands at
/// `pos`: the number of literal/length code lengths.
pub open spec fn dyn_hlit(data: Seq<u8>, pos: int) -> int {
    257 + lsb_val(stream_bits(data, pos, pos + 5)) as int
}

/// The HDIST count: the number of distance code lengths.
pub open spec fn dyn_hdist(data: Seq<u8>, pos: int) -> int {
    1 + lsb_val(stream_bits(data, pos + 5, pos + 10)) as int
}

/// The HCLEN count: the number of transmitted code-length code lengths.
pub open spec fn dyn_hclen(data: Seq<u8>, pos: int) -> int {
    4 + lsb_val(stream_bits(data, pos + 10, pos + 14)) as int
}

/// The 19 code-length code lengths of the header: transmitted entries, in
/// their fixed order, land at their alphabet positions; the rest default
/// to zero.
pub open spec fn dyn_cl_lens(data: Seq<u8>, pos: int) -> Seq<u8> {
    Seq::new(
        19,
        |j: int|
            if cl_order_inv(j) < dyn_hclen(data, pos) {
                lsb_val(
                    stream_bits(
                        data,
                        pos + 14 + 3 * cl_order_inv(j),
                        pos + 14 + 3 * cl_order_inv(j) + 3,
                    ),
                ) as u8
            } else {
                0
            },
    )
}

/// The bit position just past the transmitted code-length code lengths.
pub open spec fn dyn_cl_end(data: Seq<u8>, pos: int) -> int {
    pos + 14 + 3 * dyn_hclen(data, pos)
}

/// One element of the run-length-encoded code-length section of a dynamic
/// block header: a plain length, a repeat of the previous length, or a run
/// of zeros, each carrying the extra-bit value that selects its count.
pub enum ClSym {
    Plain(u8),
    CopyPrev(u32),
    ZeroRun(u32),
    LongZeroRun(u32),
}

/// The bits from `pos` spell, in the code-length code `cl`, exactly the
/// elements of `items`, growing the decoded length array from `acc` to
/// `out` and leaving the cursor at `endpos`.
pub open spec fn decodes_cl_items(
    cl: Seq<u8>,
    data: Seq<u8>,
    pos: int,
    acc: Seq<u8>,
    items: Seq<ClSym>,
    out: Seq<u8>,
    endpos: int,
) -> bool
    decreases items.len(),
{
    if items.len() == 0 {
        out == acc && endpos == pos
    } else {
        match items[0] {
            ClSym::Plain(v) => {
                &&& v < 16
                &&& 1 <= cl[v as int] <= 15
                &&& pos + cl[v as int] <= data.len() * 8
                &&& msb_val(stream_bits(data, pos, pos + cl[v as int])) == code_of(cl, v as int)
                &&& decodes_cl_items(
                    cl,
                    data,
                    pos + cl[v as int],
                    acc.push(v),
                    items.drop_first(),
                    out,
                    endpos,
                )
            },
            ClSym::CopyPrev(n) => {
                let p1 = pos + cl[16];
                &&& 1 <= cl[16] <= 15
                &&& p1 + 2 <= data.len() * 8
                &&& msb_val(stream_bits(data, pos, p1)) == code_of(cl, 16)
                &&& n < 4
                &&& lsb_val(stream_bits(data, p1, p1 + 2)) == n
                &&& acc.len() >= 1
                &&& decodes_cl_items(
                    cl,
                    data,
                    p1 + 2,
                    acc + Seq::new((3 + n) as nat, |q: int| acc.last()),
                    items.drop_first(),
                    out,
                    endpos,
                )
            },
            ClSym::ZeroRun(n) => {
                let p1 = pos + cl[17];
                &&& 1 <= cl[17] <= 15
                &&& p1 + 3 <= data.len() * 8
                &&& msb_val(stream_bits(data, pos, p1)) == code_of(cl, 17)
                &&& n < 8
                &&& lsb_val(stream_bits(data, p1, p1 + 3)) == n
                &&& decodes_cl_items(
                    cl,
                    data,
                    p1 + 3,
                    acc + Seq::new((3 + n) as nat, |q: int| 0u8),
                    items.drop_first(),
                    out,
                    endpos,
                )
            },
            ClSym::LongZeroRun(n) => {
                let p1 = pos + cl[18];
                &&& 1 <= cl[18] <= 15
                &&& p1 + 7 <= data.len() * 8
                &&& msb_val(stream_bits(data, pos, p1)) == code_of(cl, 18)
                &&& n < 128
                &&& lsb_val(stream_bits(data, p1, p1 + 7)) == n
                &&& decodes_cl_items(
                    cl,
                    data,
                    p1 + 7,
                    acc + Seq::new((11 + n) as nat, |q: int| 0u8),
                    items.drop_first(),
                    out,
                    endpos,
                )
            },
        }
    }
}

/// Each element of the run-length encoding grows the produced array by at
/// least one length, and by lengths of at most 15.
pub proof fn lemma_cl_items_grow(
    cl: Seq<u8>,
    data: Seq<u8>,
    pos: int,
    acc: Seq<u8>,
    items: Seq<ClSym>,
    out: Seq<u8>,
    endpos: int,
)
    requires
        decodes_cl_items(cl, data, pos, acc, items, out, endpos),
        forall|q: int| 0 <= q < acc.len() ==> acc[q] <= 15,
    ensures
        out.len() >= acc.len() + items.len(),
        forall|q: int| 0 <= q < out.len() ==> out[q] <= 15,
    decreases items.len(),
{
    if items.len() > 0 {
        match items[0] {
            ClSym::Plain(v) => {
                lemma_cl_items_grow(
                    cl,
                    data,
                    pos + cl[v as int],
                    acc.push(v),
                    items.drop_first(),
                    out,
                    endpos,
                );
            },
            ClSym::CopyPrev(n) => {
                let p1 = pos + cl[16];
                lemma_cl_items_grow(
                    cl,
                    data,
                    p1 + 2,
                    acc + Seq::new((3 + n) as nat, |q: int| acc.last()),
                    items.drop_first(),
                    out,
                    endpos,
                );
            },
            ClSym::ZeroRun(n) => {
                let p1 = pos + cl[17];
                lemma_cl_items_grow(
                    cl,
                    data,
                    p1 + 3,
                    acc + Seq::new((3 + n) as nat, |q: int| 0u8),
                    items.drop_first(),
                    out,
                    endpos,
                );
            },
            ClSym::LongZeroRun(n) => {
                let p1 = pos + cl[18];
                lemma_cl_items_grow(
                    cl,
                    data,
                    p1 + 7,
                    acc + Seq::new((11 + n) as nat, |q: int| 0u8),
                    items.drop_first(),
                    out,
                    endpos,
                );
            },
        }
    }
}

/// The full well-formed dynamic table description at bit position `pos`:
/// the three counts, a Kraft-consistent code-length code, and an encoding
/// of exactly HLIT + HDIST lengths whose two halves are themselves
/// Kraft-consistent, ending at bit `endpos`.
pub open spec fn dyn_tables_described(
    data: Seq<u8>,
    pos: int,
    items: Seq<ClSym>,
    out: Seq<u8>,
    endpos: int,
) -> bool {
    &&& pos + 14 <= data.len() * 8
    &&& dyn_cl_end(data, pos) <= data.len() * 8
    &&& kraft_ok(dyn_cl_lens(data, pos))
    &&& decodes_cl_items(
        dyn_cl_lens(data, pos),
        data,
        dyn_cl_end(data, pos),
        Seq::empty(),
        items,
        out,
        endpos,
    )
    &&& out.len() == dyn_hlit(data, pos) + dyn_hdist(data, pos)
    &&& kraft_ok(out.take(dyn_hlit(data, pos)))
    &&& kraft_ok(out.skip(dyn_hlit(data, pos)))
}

/// Reads the dynamic table description at the cursor — the HLIT, HDIST and
/// HCLEN counts, the code-length code in its fixed transmission order, and
/// the run-length-encoded literal and distance code lengths — and builds
/// both decode tables.
/// Under a live run-length encoding (the produced array still short of its
/// final size), the element at the cursor must carry the code-length symbol
/// the bits spell there: prefix-free codes leave no other reading.
proof fn lemma_cl_head_matches(
    clg: Seq<u8>,
    data0: Seq<u8>,
    ph: int,
    acc0: Seq<u8>,
    t: Seq<ClSym>,
    out: Seq<u8>,
    e: int,
    total: int,
    sym: int,
)
    requires
        kraft_ok(clg),
        clg.len() == 19,
        0 <= sym < 19,
        0 <= ph,
        acc0.len() < total,
        out.len() == total,
        1 <= clg[sym] <= 15,
        ph + clg[sym] <= data0.len() * 8,
        msb_val(stream_bits(data0, ph, ph + clg[sym])) == code_of(clg, sym),
        decodes_cl_items(clg, data0, ph, acc0, t, out, e),
    ensures
        t.len() > 0,
        sym < 16 ==> (t[0] matches ClSym::Plain(v) && v == sym),
        sym == 16 ==> (t[0] is CopyPrev && acc0.len() >= 1),
        sym == 17 ==> t[0] is ZeroRun,
        sym == 18 ==> t[0] is LongZeroRun,
{
    if t.len() == 0 {
        assert(out == acc0);
    } else {
        match t[0] {
            ClSym::Plain(v) => {
                lemma_matched_symbol_unique(clg, data0, ph, v as int, sym);
            },
            ClSym::CopyPrev(n) => {
                lemma_matched_symbol_unique(clg, data0, ph, 16, sym);
            },
            ClSym::ZeroRun(n) => {
                lemma_matched_symbol_unique(clg, data0, ph, 17, sym);
            },
            ClSym::LongZeroRun(n) => {
                lemma_matched_symbol_unique(clg, data0, ph, 18, sym);
            },
        }
    }
}

pub fn read_dynamic_tables(r: &mut BitReader) -> (res: Result<(HuffmanTable, HuffmanTable), Error>)
    requires
        old(r).wf(),
    ensures
        final(r).wf(),
        final(r).data() == old(r).data(),
        final(r).pos() >= old(r).pos(),
        res matches Ok(t) ==> {
            &&& t.0.wf()
            &&& 257 <= t.0.lens().len() <= 288
            &&& t.0.lens().len() == dyn_hlit(old(r).data(), old(r).pos())
            &&& t.1.wf()
            &&& 1 <= t.1.lens().len() <= 32
            &&& t.1.lens().len() == dyn_hdist(old(r).data(), old(r).pos())
        },
        res matches Err(e) ==> (e == Error::Io(IoError::UnexpectedEof) || e == Error::Block(
            BlockError::InvalidCodeLengths,
        ) || e == Error::Block(BlockError::InvalidHuffmanCode)),
        forall|items: Seq<ClSym>, out: Seq<u8>, e: int|
            #[trigger] dyn_tables_described(old(r).data(), old(r).pos(), items, out, e) ==> {
                &&& res matches Ok(t)
                &&& t.0.lens() == out.take(dyn_hlit(old(r).data(), old(r).pos()))
                &&& t.1.lens() == out.skip(dyn_hlit(old(r).data(), old(r).pos()))
                &&& final(r).pos() == e
            },
{
    proof {
        reveal_with_fuel(exp2, 9);
        r.lemma_pos_in_range();
    }
    let ghost data0 = old(r).data();
    let ghost pos0 = old(r).pos();
    let hlit: usize = r.read_bits(5)? as usize + 257;
    let hdist: usize = r.read_bits(5)? as usize + 1;
    let hclen: usize = r.read_bits(4)? as usize + 4;
    let mut cl_lens: Vec<u8> = Vec::new();
    let mut i: usize = 0;
    while i < 19
        invariant
            cl_lens@.len() == i,
            i <= 19,
            forall|k: int| 0 <= k < i ==> cl_lens@[k] == 0,
        decreases 19 - i,
    {
        cl_lens.push(0);
        i = i + 1;
    }
    i = 0;
    while i < hclen
        invariant
            r.wf(),
            r.data() == data0,
            data0 == old(r).data(),
            pos0 == old(r).pos(),
            0 <= pos0,
            r.pos() == pos0 + 14 + 3 * i,
            hlit == dyn_hlit(data0, pos0),
            hdist == dyn_hdist(data0, pos0),
            hclen == dyn_hclen(data0, pos0),
            cl_lens@.len() == 19,
            0 <= i <= hclen <= 19,
            forall|k: int| 0 <= k < 19 ==> cl_lens@[k] <= 7,
            forall|q: int|
                0 <= q < 19 ==> cl_lens@[q] == (if cl_order_inv(q) < i {
                    lsb_val(
                        stream_bits(
                            data0,
                            pos0 + 14 + 3 * cl_order_inv(q),
                            pos0 + 14 + 3 * cl_order_inv(q) + 3,
                        ),
                    ) as u8
                } else {
                    0u8
                }),
        decreases hclen - i,
    {
        proof {
            reveal_with_fuel(exp2, 4);
            lemma_cl_order_bijective();
        }
        let v: u32 = r.read_bits(3)?;
        cl_lens.set(cl_order_at(i), v as u8);
        i = i + 1;
    }
    proof {
        lemma_cl_order_bijective();
        assert(cl_lens@ =~= dyn_cl_lens(data0, pos0));
    }
    let cl_table: HuffmanTable = HuffmanTable::build(cl_lens)?;
    let ghost clg = dyn_cl_lens(data0, pos0);
    let total: usize = hlit + hdist;
    let mut lens: Vec<u8> = Vec::new();
    let ghost mut j: int = 0;
    proof {
        assert forall|items: Seq<ClSym>, out: Seq<u8>, e: int|
            #[trigger] dyn_tables_described(data0, pos0, items, out, e) implies {
            &&& 0 <= items.len()
            &&& decodes_cl_items(clg, data0, r.pos(), lens@, items.skip(0), out, e)
        } by {
            assert(items.skip(0) =~= items);
            assert(lens@ =~= Seq::<u8>::empty());
        };
    }
    while lens.len() < total
        invariant
            r.wf(),
            r.data() == data0,
            data0 == old(r).data(),
            pos0 == old(r).pos(),
            0 <= pos0,
            r.pos() >= pos0,
            cl_table.wf(),
            cl_table.lens() == clg,
            clg == dyn_cl_lens(data0, pos0),
            clg.len() == 19,
            hlit == dyn_hlit(data0, pos0),
            hdist == dyn_hdist(data0, pos0),
            lens@.len() <= total,
            257 <= hlit <= 288,
            1 <= hdist <= 32,
            total == hlit + hdist,
            0 <= j,
            forall|k: int| 0 <= k < lens@.len() ==> lens@[k] <= 15,
            forall|items: Seq<ClSym>, out: Seq<u8>, e: int|
                #[trigger] dyn_tables_described(data0, pos0, items, out, e) ==> {
                    &&& j <= items.len()
                    &&& decodes_cl_items(clg, data0, r.pos(), lens@, items.skip(j), out, e)
                },
        decreases total - lens@.len(),
    {
        proof {
            reveal_with_fuel(exp2, 9);
            cl_table.lemma_wf_facts();
        }
        let ghost ph = r.pos();
        let ghost acc0 = lens@;
        let sym: u16 = match cl_table.decode_symbol(r) {
            Ok(s) => s,
            Err(err) => {
                proof {
                    assert forall|items: Seq<ClSym>, out: Seq<u8>, e: int|
                        #[trigger] dyn_tables_described(data0, pos0, items, out, e) implies
                        false by {
                        let t = items.skip(j);
                        if t.len() == 0 {
                            assert(out == acc0);
                        } else {
                            match t[0] {
                                ClSym::Plain(v) => {
                                    assert(msb_val(stream_bits(data0, ph, ph + clg[v as int]))
                                        == code_of(clg, v as int));
                                },
                                ClSym::CopyPrev(n) => {
                                    assert(msb_val(stream_bits(data0, ph, ph + clg[16]))
                                        == code_of(clg, 16));
                                },
                                ClSym::ZeroRun(n) => {
                                    assert(msb_val(stream_bits(data0, ph, ph + clg[17]))
                                        == code_of(clg, 17));
                                },
                                ClSym::LongZeroRun(n) => {
                                    assert(msb_val(stream_bits(data0, ph, ph + clg[18]))
                                        == code_of(clg, 18));
                                },
                            }
                        }
                    };
                }
                return Err(err);
            },
        };
        if sym < 16 {
            lens.push(sym as u8);
            proof {
                assert forall|items: Seq<ClSym>, out: Seq<u8>, e: int|
                    #[trigger] dyn_tables_described(data0, pos0, items, out, e) implies {
                    &&& j + 1 <= items.len()
                    &&& decodes_cl_items(clg, data0, r.pos(), lens@, items.skip(j + 1), out, e)
                } by {
                    lemma_cl_head_matches(
                        clg, data0, ph, acc0, items.skip(j), out, e, total as int, sym as int,
                    );
                    let t = items.skip(j);
                    match t[0] {
                        ClSym::Plain(v) => {
                            assert(t.drop_first() =~= items.skip(j + 1));
                            assert(lens@ =~= acc0.push(v));
                        },
                        _ => {},
                    }
                };
                j = j + 1;
            }
        } else if sym == 16 {
                        if lens.len() == 0 {
                proof {
                    assert forall|items: Seq<ClSym>, out: Seq<u8>, e: int|
                        #[trigger] dyn_tables_described(data0, pos0, items, out, e) implies
                        false by {
                        lemma_cl_head_matches(
                            clg, data0, ph, acc0, items.skip(j), out, e, total as int, sym as int,
                        );
                    };
                }
                return Err(Error::Block(BlockError::InvalidCodeLengths));
            }
            let prev: u8 = lens[lens.len() - 1];
            let rep: usize = match r.read_bits(2) {
                Ok(v) => 3 + v as usize,
                Err(err) => {
                    proof {
                        assert forall|items: Seq<ClSym>, out: Seq<u8>, e: int|
                            #[trigger] dyn_tables_described(data0, pos0, items, out, e) implies
                            false by {
                            lemma_cl_head_matches(
                                clg, data0, ph, acc0, items.skip(j), out, e, total as int,
                                sym as int,
                            );
                        };
                    }
                    return Err(err);
                },
            };
            let ghost nval = (rep - 3) as int;
            if rep > total - lens.len() {
                proof {
                    assert forall|items: Seq<ClSym>, out: Seq<u8>, e: int|
                        #[trigger] dyn_tables_described(data0, pos0, items, out, e) implies
                        false by {
                        lemma_cl_head_matches(
                            clg, data0, ph, acc0, items.skip(j), out, e, total as int, sym as int,
                        );
                        let t = items.skip(j);
                        match t[0] {
                            ClSym::CopyPrev(n) => {
                                let acc1 = acc0 + Seq::new(
                                    (3 + n) as nat,
                                    |q: int| acc0.last(),
                                );
                                lemma_cl_items_grow(
                                    clg,
                                    data0,
                                    ph + clg[16] + 2,
                                    acc1,
                                    t.drop_first(),
                                    out,
                                    e,
                                );
                            },
                            _ => {},
                        }
                    };
                }
                return Err(Error::Block(BlockError::InvalidCodeLengths));
            }
            let ghost old_len = lens@.len();
            let mut k: usize = 0;
            while k < rep
                invariant
                    0 <= k <= rep,
                    lens@.len() == old_len + k,
                    rep <= total - old_len,
                    prev <= 15,
                    lens@ == acc0 + Seq::new(k as nat, |q: int| prev),
                    acc0.len() == old_len,
                    forall|q: int| 0 <= q < lens@.len() ==> lens@[q] <= 15,
                decreases rep - k,
            {
                lens.push(prev);
                k = k + 1;
                proof {
                    assert(lens@ =~= acc0 + Seq::new(k as nat, |q: int| prev));
                }
            }
            proof {
                assert forall|items: Seq<ClSym>, out: Seq<u8>, e: int|
                    #[trigger] dyn_tables_described(data0, pos0, items, out, e) implies {
                    &&& j + 1 <= items.len()
                    &&& decodes_cl_items(clg, data0, r.pos(), lens@, items.skip(j + 1), out, e)
                } by {
                    lemma_cl_head_matches(
                        clg, data0, ph, acc0, items.skip(j), out, e, total as int, sym as int,
                    );
                    let t = items.skip(j);
                    match t[0] {
                        ClSym::CopyPrev(n) => {
                            assert(n == nval);
                            assert(lens@ =~= acc0 + Seq::new(
                                (3 + n) as nat,
                                |q: int| acc0.last(),
                            ));
                            assert(t.drop_first() =~= items.skip(j + 1));
                        },
                        _ => {},
                    }
                };
                j = j + 1;
            }
        } else if sym == 17 {
                        let rep: usize = match r.read_bits(3) {
                Ok(v) => 3 + v as usize,
                Err(err) => {
                    proof {
                        assert forall|items: Seq<ClSym>, out: Seq<u8>, e: int|
                            #[trigger] dyn_tables_described(data0, pos0, items, out, e) implies
                            false by {
                            lemma_cl_head_matches(
                                clg, data0, ph, acc0, items.skip(j), out, e, total as int,
                                sym as int,
                            );
                        };
                    }
                    return Err(err);
                },
            };
            let ghost nval = (rep - 3) as int;
            if rep > total - lens.len() {
                proof {
                    assert forall|items: Seq<ClSym>, out: Seq<u8>, e: int|
                        #[trigger] dyn_tables_described(data0, pos0, items, out, e) implies
                        false by {
                        lemma_cl_head_matches(
                            clg, data0, ph, acc0, items.skip(j), out, e, total as int, sym as int,
                        );
                        let t = items.skip(j);
                        match t[0] {
                            ClSym::ZeroRun(n) => {
                                let acc1 = acc0 + Seq::new(
                                    (3 + n) as nat,
                                    |q: int| 0u8,
                                );
                                lemma_cl_items_grow(
                                    clg,
                                    data0,
                                    ph + clg[17] + 3,
                                    acc1,
                                    t.drop_first(),
                                    out,
                                    e,
                                );
                            },
                            _ => {},
                        }
                    };
                }
                return Err(Error::Block(BlockError::InvalidCodeLengths));
            }
            let ghost old_len = lens@.len();
            let mut k: usize = 0;
            while k < rep
                invariant
                    0 <= k <= rep,
                    lens@.len() == old_len + k,
                    rep <= total - old_len,
                    
                    lens@ == acc0 + Seq::new(k as nat, |q: int| 0u8),
                    acc0.len() == old_len,
                    forall|q: int| 0 <= q < lens@.len() ==> lens@[q] <= 15,
                decreases rep - k,
            {
                lens.push(0);
                k = k + 1;
                proof {
                    assert(lens@ =~= acc0 + Seq::new(k as nat, |q: int| 0u8));
                }
            }
            proof {
                assert forall|items: Seq<ClSym>, out: Seq<u8>, e: int|
                    #[trigger] dyn_tables_described(data0, pos0, items, out, e) implies {
                    &&& j + 1 <= items.len()
                    &&& decodes_cl_items(clg, data0, r.pos(), lens@, items.skip(j + 1), out, e)
                } by {
                    lemma_cl_head_matches(
                        clg, data0, ph, acc0, items.skip(j), out, e, total as int, sym as int,
                    );
                    let t = items.skip(j);
                    match t[0] {
                        ClSym::ZeroRun(n) => {
                            assert(n == nval);
                            assert(lens@ =~= acc0 + Seq::new(
                                (3 + n) as nat,
                                |q: int| 0u8,
                            ));
                            assert(t.drop_first() =~= items.skip(j + 1));
                        },
                        _ => {},
                    }
                };
                j = j + 1;
            }
        } else {
                        let rep: usize = match r.read_bits(7) {
                Ok(v) => 11 + v as usize,
                Err(err) => {
                    proof {
                        assert forall|items: Seq<ClSym>, out: Seq<u8>, e: int|
                            #[trigger] dyn_tables_described(data0, pos0, items, out, e) implies
                            false by {
                            lemma_cl_head_matches(
                                clg, data0, ph, acc0, items.skip(j), out, e, total as int,
                                sym as int,
                            );
                        };
                    }
                    return Err(err);
                },
            };
            let ghost nval = (rep - 11) as int;
            if rep > total - lens.len() {
                proof {
                    assert forall|items: Seq<ClSym>, out: Seq<u8>, e: int|
                        #[trigger] dyn_tables_described(data0, pos0, items, out, e) implies
                        false by {
                        lemma_cl_head_matches(
                            clg, data0, ph, acc0, items.skip(j), out, e, total as int, sym as int,
                        );
                        let t = items.skip(j);
                        match t[0] {
                            ClSym::LongZeroRun(n) => {
                                let acc1 = acc0 + Seq::new(
                                    (11 + n) as nat,
                                    |q: int| 0u8,
                                );
                                lemma_cl_items_grow(
                                    clg,
                                    data0,
                                    ph + clg[18] + 7,
                                    acc1,
                                    t.drop_first(),
                                    out,
                                    e,
                                );
                            },
                            _ => {},
                        }
                    };
                }
                return Err(Error::Block(BlockError::InvalidCodeLengths));
            }
            let ghost old_len = lens@.len();
            let mut k: usize = 0;
            while k < rep
                invariant
                    0 <= k <= rep,
                    lens@.len() == old_len + k,
                    rep <= total - old_len,
                    
                    lens@ == acc0 + Seq::new(k as nat, |q: int| 0u8),
                    acc0.len() == old_len,
                    forall|q: int| 0 <= q < lens@.len() ==> lens@[q] <= 15,
                decreases rep - k,
            {
                lens.push(0);
                k = k + 1;
                proof {
                    assert(lens@ =~= acc0 + Seq::new(k as nat, |q: int| 0u8));
                }
            }
            proof {
                assert forall|items: Seq<ClSym>, out: Seq<u8>, e: int|
                    #[trigger] dyn_tables_described(data0, pos0, items, out, e) implies {
                    &&& j + 1 <= items.len()
                    &&& decodes_cl_items(clg, data0, r.pos(), lens@, items.skip(j + 1), out, e)
                } by {
                    lemma_cl_head_matches(
                        clg, data0, ph, acc0, items.skip(j), out, e, total as int, sym as int,
                    );
                    let t = items.skip(j);
                    match t[0] {
                        ClSym::LongZeroRun(n) => {
                            assert(n == nval);
                            assert(lens@ =~= acc0 + Seq::new(
                                (11 + n) as nat,
                                |q: int| 0u8,
                            ));
                            assert(t.drop_first() =~= items.skip(j + 1));
                        },
                        _ => {},
                    }
                };
                j = j + 1;
            }
        }
    }
    proof {
        assert forall|items: Seq<ClSym>, out: Seq<u8>, e: int|
            #[trigger] dyn_tables_described(data0, pos0, items, out, e) implies {
            &&& out == lens@
            &&& e == r.pos()
        } by {
            let t = items.skip(j);
            lemma_cl_items_grow(clg, data0, r.pos(), lens@, t, out, e);
        };
    }
    let mut lit_lens: Vec<u8> = Vec::new();
    i = 0;
    while i < hlit
        invariant
            lit_lens@.len() == i,
            0 <= i <= hlit <= lens@.len(),
            forall|k: int| 0 <= k < lens@.len() ==> lens@[k] <= 15,
            forall|k: int| 0 <= k < i ==> lit_lens@[k] == lens@[k],
        decreases hlit - i,
    {
        lit_lens.push(lens[i]);
        i = i + 1;
    }
    let mut dist_lens: Vec<u8> = Vec::new();
    while i < total
        invariant
            dist_lens@.len() == i - hlit,
            hlit <= i <= total == lens@.len(),
            forall|k: int| 0 <= k < lens@.len() ==> lens@[k] <= 15,
            forall|k: int| 0 <= k < i - hlit ==> dist_lens@[k] == lens@[hlit + k],
        decreases total - i,
    {
        dist_lens.push(lens[i]);
        i = i + 1;
    }
    proof {
        assert(lit_lens@ =~= lens@.take(hlit as int));
        assert(dist_lens@ =~= lens@.skip(hlit as int));
    }
    let lit: HuffmanTable = HuffmanTable::build(lit_lens)?;
    let dist: HuffmanTable = HuffmanTable::build(dist_lens)?;
    Ok((lit, dist))
}

/// One decoded element of a Huffman block body: a literal byte, or a
/// length/distance pair given by its two symbols and their extra-bit
/// values.
pub enum BlockSym {
    Lit(u8),
    Copy(u16, u32, u16, u32),
}

/// A complete length/distance pair stands at `pos`: a length symbol's code
/// with its extra bits, then a distance symbol's code with its extra bits,
/// all present in the input.
pub open spec fn pair_at(
    llens: Seq<u8>,
    dlens: Seq<u8>,
    data: Seq<u8>,
    pos: int,
    lsym: u16,
    lval: u32,
    dsym: u16,
    dval: u32,
) -> bool {
    let p1 = pos + llens[lsym as int];
    let p2 = p1 + length_extra(lsym as int);
    let p3 = p2 + dlens[dsym as int];
    let p4 = p3 + dist_extra(dsym as int);
    &&& 257 <= lsym <= 285
    &&& (lsym as int) < llens.len()
    &&& 1 <= llens[lsym as int] <= 15
    &&& msb_val(stream_bits(data, pos, p1)) == code_of(llens, lsym as int)
    &&& lval < exp2(length_extra(lsym as int) as nat)
    &&& lsb_val(stream_bits(data, p1, p2)) == lval
    &&& dsym <= 29
    &&& (dsym as int) < dlens.len()
    &&& 1 <= dlens[dsym as int] <= 15
    &&& msb_val(stream_bits(data, p2, p3)) == code_of(dlens, dsym as int)
    &&& dval < exp2(dist_extra(dsym as int) as nat)
    &&& lsb_val(stream_bits(data, p3, p4)) == dval
    &&& p4 <= data.len() * 8
}

/// The bit position just past such a pair.
pub open spec fn pair_end(llens: Seq<u8>, dlens: Seq<u8>, pos: int, lsym: u16, dsym: u16) -> int {
    pos + llens[lsym as int] + length_extra(lsym as int) + dlens[dsym as int] + dist_extra(
        dsym as int,
    )
}

/// An end-of-block code stands at `pos`.
pub open spec fn eob_at(llens: Seq<u8>, data: Seq<u8>, pos: int) -> bool {
    &&& 1 <= llens[256] <= 15
    &&& pos + llens[256] <= data.len() * 8
    &&& msb_val(stream_bits(data, pos, pos + llens[256])) == code_of(llens, 256)
}

/// The code of a forbidden length symbol `s` (286 or 287) stands at `pos`.
pub open spec fn illegal_length_sym_at(llens: Seq<u8>, data: Seq<u8>, pos: int, s: int) -> bool {
    &&& 286 <= s < llens.len()
    &&& 1 <= llens[s] <= 15
    &&& pos + llens[s] <= data.len() * 8
    &&& msb_val(stream_bits(data, pos, pos + llens[s])) == code_of(llens, s)
}

/// The bits from `pos` spell exactly the block-body elements of `syms` —
/// literal bytes and in-range back-references, no end-of-block yet —
/// turning window `w` into `wout` and leaving the cursor at `endpos`.
pub open spec fn decodes_syms_prefix(
    llens: Seq<u8>,
    dlens: Seq<u8>,
    data: Seq<u8>,
    pos: int,
    w: Seq<u8>,
    syms: Seq<BlockSym>,
    wout: Seq<u8>,
    endpos: int,
) -> bool
    decreases syms.len(),
{
    if syms.len() == 0 {
        wout == w && endpos == pos
    } else {
        match syms[0] {
            BlockSym::Lit(b) => {
                &&& 1 <= llens[b as int] <= 15
                &&& pos + llens[b as int] <= data.len() * 8
                &&& msb_val(stream_bits(data, pos, pos + llens[b as int])) == code_of(
                    llens,
                    b as int,
                )
                &&& decodes_syms_prefix(
                    llens,
                    dlens,
                    data,
                    pos + llens[b as int],
                    w.push(b),
                    syms.drop_first(),
                    wout,
                    endpos,
                )
            },
            BlockSym::Copy(lsym, lval, dsym, dval) => {
                &&& pair_at(llens, dlens, data, pos, lsym, lval, dsym, dval)
                &&& 1 <= dist_base(dsym as int) + dval <= w.len()
                &&& decodes_syms_prefix(
                    llens,
                    dlens,
                    data,
                    pair_end(llens, dlens, pos, lsym, dsym),
                    back_copied(
                        w,
                        dist_base(dsym as int) + dval,
                        length_base(lsym as int) + lval,
                    ),
                    syms.drop_first(),
                    wout,
                    endpos,
                )
            },
        }
    }
}

/// When the current bits spell the code of `sym` and the block body from
/// here decodes as `t` toward an end-of-block at `p`, prefix-freeness pins
/// what the head of `t` can be.
proof fn lemma_prefix_head(
    llens: Seq<u8>,
    dlens: Seq<u8>,
    data: Seq<u8>,
    ph: int,
    wh: Seq<u8>,
    t: Seq<BlockSym>,
    wout: Seq<u8>,
    p: int,
    sym: int,
)
    requires
        kraft_ok(llens),
        257 <= llens.len() <= 288,
        0 <= ph,
        0 <= sym < llens.len(),
        1 <= llens[sym] <= 15,
        ph + llens[sym] <= data.len() * 8,
        msb_val(stream_bits(data, ph, ph + llens[sym])) == code_of(llens, sym),
        decodes_syms_prefix(llens, dlens, data, ph, wh, t, wout, p),
        eob_at(llens, data, p),
    ensures
        t.len() == 0 ==> (sym == 256 && wout == wh && p == ph),
        t.len() > 0 ==> (t[0] matches BlockSym::Lit(b) ==> b as int == sym),
        t.len() > 0 ==> (t[0] matches BlockSym::Copy(ls, lv, ds, dv) ==> ls as int == sym),
{
    if t.len() == 0 {
        lemma_matched_symbol_unique(llens, data, ph, 256, sym);
    } else {
        match t[0] {
            BlockSym::Lit(b) => {
                lemma_matched_symbol_unique(llens, data, ph, b as int, sym);
            },
            BlockSym::Copy(ls, lv, ds, dv) => {
                lemma_matched_symbol_unique(llens, data, ph, ls as int, sym);
            },
        }
    }
}

/// The bits from `pos` spell, in the literal/length code given by `lens`,
/// exactly the literal bytes of `lits` followed by the end-of-block symbol,
/// ending at bit position `endpos`.
pub open spec fn encodes_literals(
    lens: Seq<u8>,
    data: Seq<u8>,
    pos: int,
    lits: Seq<u8>,
    endpos: int,
) -> bool
    decreases lits.len(),
{
    if lits.len() == 0 {
        &&& 1 <= lens[256] <= 15
        &&& pos + lens[256] <= data.len() * 8
        &&& msb_val(stream_bits(data, pos, pos + lens[256])) == code_of(lens, 256)
        &&& endpos == pos + lens[256]
    } else {
        let b = lits[0] as int;
        &&& 1 <= lens[b] <= 15
        &&& pos + lens[b] <= data.len() * 8
        &&& msb_val(stream_bits(data, pos, pos + lens[b])) == code_of(lens, b)
        &&& encodes_literals(lens, data, pos + lens[b], lits.drop_first(), endpos)
    }
}

/// A prefix-free code decodes unambiguously: the same bits cannot spell two
/// different literal sequences.
pub proof fn lemma_encodes_unique(
    lens: Seq<u8>,
    data: Seq<u8>,
    pos: int,
    x: Seq<u8>,
    y: Seq<u8>,
    e1: int,
    e2: int,
)
    requires
        kraft_ok(lens),
        257 <= lens.len(),
        0 <= pos,
        encodes_literals(lens, data, pos, x, e1),
        encodes_literals(lens, data, pos, y, e2),
    ensures
        x == y,
        e1 == e2,
    decreases x.len(),
{
    if x.len() == 0 && y.len() == 0 {
    } else if x.len() == 0 {
        lemma_matched_symbol_unique(lens, data, pos, 256, y[0] as int);
    } else if y.len() == 0 {
        lemma_matched_symbol_unique(lens, data, pos, x[0] as int, 256);
    } else {
        lemma_matched_symbol_unique(lens, data, pos, x[0] as int, y[0] as int);
        lemma_encodes_unique(
            lens,
            data,
            pos + lens[x[0] as int],
            x.drop_first(),
            y.drop_first(),
            e1,
            e2,
        );
        assert(x[0] == y[0]);
        assert(x.drop_first() == y.drop_first());
        assert(x.len() == y.len());
        assert(forall|i: int| 1 <= i < x.len() ==> x[i] == x.drop_first()[i - 1]);
        assert(forall|i: int| 1 <= i < y.len() ==> y[i] == y.drop_first()[i - 1]);
        assert(x =~= y);
    }
}

/// The shared decode loop of fixed- and dynamic-Huffman blocks: decodes
/// literal/length symbols until the end-of-block symbol, appending literal
/// bytes and expanding length/distance back-references through the window,
/// feeding every emitted byte to the checksum. When the bits at the cursor
/// spell a full well-formed block body, the block is decoded exactly.
#[verifier::rlimit(100)]
pub fn decode_huffman_block(
    lit: &HuffmanTable,
    dist: &HuffmanTable,
    r: &mut BitReader,
    w: &mut OutputWindow,
    crc: &mut ChecksumVerifier,
) -> (res: Result<(), Error>)
    requires
        lit.wf(),
        257 <= lit.lens().len() <= 288,
        dist.wf(),
        dist.lens().len() <= 32,
        old(r).wf(),
        old(crc).wf(),
        old(crc).processed() == old(w)@,
    ensures
        final(r).wf(),
        final(r).data() == old(r).data(),
        final(r).pos() >= old(r).pos(),
        final(crc).wf(),
        final(crc).processed() == final(w)@,
        old(w)@.is_prefix_of(final(w)@),
        res matches Err(e) ==> (e matches Error::Block(_) || e matches Error::Io(_)),
        forall|lits: Seq<u8>, e: int|
            encodes_literals(lit.lens(), old(r).data(), old(r).pos(), lits, e) ==> {
                &&& res == Ok::<(), Error>(())
                &&& final(w)@ == old(w)@ + lits
                &&& final(r).pos() == e
            },
        forall|syms: Seq<BlockSym>, wout: Seq<u8>, p: int|
            (#[trigger] decodes_syms_prefix(
                lit.lens(),
                dist.lens(),
                old(r).data(),
                old(r).pos(),
                old(w)@,
                syms,
                wout,
                p,
            ) && eob_at(lit.lens(), old(r).data(), p)) ==> {
                &&& res == Ok::<(), Error>(())
                &&& final(w)@ == wout
                &&& final(r).pos() == p + lit.lens()[256]
            },
        forall|s: int|
            #[trigger] illegal_length_sym_at(lit.lens(), old(r).data(), old(r).pos(), s) ==> res
                == Err::<(), Error>(Error::Block(BlockError::InvalidLengthCode)),
        forall|lsym: u16, lval: u32, dsym: u16, dval: u32|
            #[trigger] pair_at(
                lit.lens(),
                dist.lens(),
                old(r).data(),
                old(r).pos(),
                lsym,
                lval,
                dsym,
                dval,
            ) && dist_base(dsym as int) + dval > old(w)@.len() ==> res == Err::<(), Error>(
                Error::Block(BlockError::DistanceTooFar),
            ),
{
    let ghost lens = lit.lens();
    let ghost dlg = dist.lens();
    let ghost data0 = old(r).data();
    let ghost pos0 = old(r).pos();
    let ghost w0 = old(w)@;
    proof {
        r.lemma_pos_in_range();
        lit.lemma_wf_facts();
        assert forall|lits: Seq<u8>, e: int|
            encodes_literals(lens, data0, pos0, lits, e) implies {
            &&& 0 <= lits.len()
            &&& w0 == w0 + lits.take(0)
            &&& encodes_literals(lens, data0, pos0, lits.skip(0), e)
        } by {
            assert(lits.take(0) =~= Seq::<u8>::empty());
            assert(w0 + lits.take(0) =~= w0);
            assert(lits.skip(0) =~= lits);
        };
        dist.lemma_wf_facts();
        assert forall|syms: Seq<BlockSym>, wout: Seq<u8>, p: int|
            (#[trigger] decodes_syms_prefix(lens, dlg, data0, pos0, w0, syms, wout, p) && eob_at(
                lens,
                data0,
                p,
            )) implies {
            &&& 0 <= syms.len()
            &&& decodes_syms_prefix(lens, dlg, data0, pos0, w0, syms.skip(0), wout, p)
        } by {
            assert(syms.skip(0) =~= syms);
        };
    }
    let ghost mut k: int = 0;
    let ghost mut k2: int = 0;
    loop
        invariant
            lit.wf(),
            lit.lens() == lens,
            257 <= lens.len() <= 288,
            kraft_ok(lens),
            dist.wf(),
            dist.lens().len() <= 32,
            r.wf(),
            r.data() == data0,
            data0 == old(r).data(),
            pos0 == old(r).pos(),
            w0 == old(w)@,
            0 <= pos0,
            r.pos() >= pos0,
            r.pos() <= r.total_bits(),
            crc.wf(),
            crc.processed() == w@,
            old(w)@.is_prefix_of(w@),
            0 <= k,
            0 <= k2,
            dist.lens() == dlg,
            kraft_ok(dlg),
            forall|lits: Seq<u8>, e: int|
                encodes_literals(lens, data0, pos0, lits, e) ==> {
                    &&& k <= lits.len()
                    &&& w@ == w0 + lits.take(k)
                    &&& encodes_literals(lens, data0, r.pos(), lits.skip(k), e)
                },
            forall|syms: Seq<BlockSym>, wout: Seq<u8>, p: int|
                (#[trigger] decodes_syms_prefix(lens, dlg, data0, pos0, w0, syms, wout, p)
                    && eob_at(lens, data0, p)) ==> {
                    &&& k2 <= syms.len()
                    &&& decodes_syms_prefix(lens, dlg, data0, r.pos(), w@, syms.skip(k2), wout, p)
                },
            forall|s: int|
                #[trigger] illegal_length_sym_at(lens, data0, pos0, s) ==> r.pos() == pos0,
            forall|lsym: u16, lval: u32, dsym: u16, dval: u32|
                #[trigger] pair_at(lens, dlg, data0, pos0, lsym, lval, dsym, dval) && dist_base(
                    dsym as int,
                ) + dval > w0.len() ==> (r.pos() == pos0 && w@ == w0),
        decreases r.total_bits() - r.pos(),
    {
        let ghost ph = r.pos();
        let ghost wh = w@;
        let sym: u16 = match lit.decode_symbol(r) {
            Ok(s) => s,
            Err(err) => {
                proof {
                    assert forall|lits: Seq<u8>, e: int|
                        encodes_literals(lens, data0, pos0, lits, e) implies false by {
                        let t = lits.skip(k);
                        let s: int = if t.len() == 0 {
                            256
                        } else {
                            t[0] as int
                        };
                        assert(1 <= lens[s] <= 15);
                        assert(msb_val(stream_bits(data0, ph, ph + lens[s])) == code_of(
                            lens,
                            s,
                        ));
                        assert(ph + lens[s] <= data0.len() * 8);
                    };
                    assert forall|syms: Seq<BlockSym>, wout: Seq<u8>, p: int|
                        (#[trigger] decodes_syms_prefix(lens, dlg, data0, pos0, w0, syms, wout, p)
                            && eob_at(lens, data0, p)) implies false by {
                        let t = syms.skip(k2);
                        if t.len() == 0 {
                            assert(msb_val(stream_bits(data0, ph, ph + lens[256])) == code_of(
                                lens,
                                256,
                            ));
                        } else {
                            match t[0] {
                                BlockSym::Lit(b) => {
                                    assert(msb_val(stream_bits(data0, ph, ph + lens[b as int]))
                                        == code_of(lens, b as int));
                                },
                                BlockSym::Copy(ls, lv, ds, dv) => {
                                    assert(msb_val(stream_bits(data0, ph, ph + lens[ls as int]))
                                        == code_of(lens, ls as int));
                                },
                            }
                        }
                    };
                    assert forall|s: int|
                        #[trigger] illegal_length_sym_at(lens, data0, pos0, s) implies false by {
                        assert(msb_val(stream_bits(data0, ph, ph + lens[s])) == code_of(lens, s));
                    };
                    assert forall|lsym: u16, lval: u32, dsym: u16, dval: u32|
                        #[trigger] pair_at(lens, dlg, data0, pos0, lsym, lval, dsym, dval)
                            && dist_base(dsym as int) + dval > w0.len() implies false by {
                        assert(msb_val(stream_bits(data0, ph, ph + lens[lsym as int])) == code_of(
                            lens,
                            lsym as int,
                        ));
                    };
                }
                return Err(err);
            },
        };
        if sym < 256 {
            w.append(sym as u8);
            crc.update(sym as u8);
            proof {
                r.lemma_pos_in_range();
                assert forall|lits: Seq<u8>, e: int|
                    encodes_literals(lens, data0, pos0, lits, e) implies {
                    &&& k + 1 <= lits.len()
                    &&& w@ == w0 + lits.take(k + 1)
                    &&& encodes_literals(lens, data0, r.pos(), lits.skip(k + 1), e)
                } by {
                    let t = lits.skip(k);
                    if t.len() == 0 {
                        lemma_matched_symbol_unique(lens, data0, ph, 256, sym as int);
                    } else {
                        lemma_matched_symbol_unique(lens, data0, ph, t[0] as int, sym as int);
                        assert(t[0] == lits[k]);
                        assert(t.drop_first() =~= lits.skip(k + 1));
                        assert(lits.take(k + 1) =~= lits.take(k).push(lits[k]));
                        assert((w0 + lits.take(k)).push(lits[k]) =~= w0 + lits.take(k + 1));
                    }
                };
                k = k + 1;
                assert forall|syms: Seq<BlockSym>, wout: Seq<u8>, p: int|
                    (#[trigger] decodes_syms_prefix(lens, dlg, data0, pos0, w0, syms, wout, p)
                        && eob_at(lens, data0, p)) implies {
                    &&& k2 + 1 <= syms.len()
                    &&& decodes_syms_prefix(lens, dlg, data0, r.pos(), w@, syms.skip(k2 + 1), wout, p)
                } by {
                    lemma_prefix_head(lens, dlg, data0, ph, wh, syms.skip(k2), wout, p, sym as int);
                    let t = syms.skip(k2);
                    if t.len() > 0 {
                        match t[0] {
                            BlockSym::Lit(b) => {
                                assert(t.drop_first() =~= syms.skip(k2 + 1));
                                assert(w@ =~= wh.push(b));
                            },
                            BlockSym::Copy(ls, lv, ds, dv) => {},
                        }
                    }
                };
                k2 = k2 + 1;
                assert forall|s: int|
                    #[trigger] illegal_length_sym_at(lens, data0, pos0, s) implies false by {
                    lemma_matched_symbol_unique(lens, data0, pos0, s, sym as int);
                };
                assert forall|lsym: u16, lval: u32, dsym: u16, dval: u32|
                    #[trigger] pair_at(lens, dlg, data0, pos0, lsym, lval, dsym, dval)
                        && dist_base(dsym as int) + dval > w0.len() implies false by {
                    lemma_matched_symbol_unique(lens, data0, pos0, lsym as int, sym as int);
                };
            }
        } else if sym == 256 {
            proof {
                assert forall|lits: Seq<u8>, e: int|
                    encodes_literals(lens, data0, pos0, lits, e) implies {
                    &&& w@ == w0 + lits
                    &&& r.pos() == e
                } by {
                    let t = lits.skip(k);
                    if t.len() == 0 {
                        assert(lits.take(k) =~= lits);
                    } else {
                        lemma_matched_symbol_unique(lens, data0, ph, t[0] as int, 256);
                    }
                };
                assert forall|syms: Seq<BlockSym>, wout: Seq<u8>, p: int|
                    (#[trigger] decodes_syms_prefix(lens, dlg, data0, pos0, w0, syms, wout, p)
                        && eob_at(lens, data0, p)) implies {
                    &&& w@ == wout
                    &&& r.pos() == p + lens[256]
                } by {
                    lemma_prefix_head(lens, dlg, data0, ph, wh, syms.skip(k2), wout, p, 256);
                    let t = syms.skip(k2);
                    if t.len() > 0 {
                        match t[0] {
                            BlockSym::Lit(b) => {},
                            BlockSym::Copy(ls, lv, ds, dv) => {},
                        }
                    }
                };
                assert forall|s: int|
                    #[trigger] illegal_length_sym_at(lens, data0, pos0, s) implies false by {
                    lemma_matched_symbol_unique(lens, data0, pos0, s, 256);
                };
                assert forall|lsym: u16, lval: u32, dsym: u16, dval: u32|
                    #[trigger] pair_at(lens, dlg, data0, pos0, lsym, lval, dsym, dval)
                        && dist_base(dsym as int) + dval > w0.len() implies false by {
                    lemma_matched_symbol_unique(lens, data0, pos0, lsym as int, 256);
                };
            }
            return Ok(());
        } else if sym >= 286 {
            proof {
                assert forall|lits: Seq<u8>, e: int|
                    encodes_literals(lens, data0, pos0, lits, e) implies false by {
                    let t = lits.skip(k);
                    if t.len() == 0 {
                        lemma_matched_symbol_unique(lens, data0, ph, 256, sym as int);
                    } else {
                        lemma_matched_symbol_unique(lens, data0, ph, t[0] as int, sym as int);
                    }
                };
                assert forall|syms: Seq<BlockSym>, wout: Seq<u8>, p: int|
                    (#[trigger] decodes_syms_prefix(lens, dlg, data0, pos0, w0, syms, wout, p)
                        && eob_at(lens, data0, p)) implies false by {
                    lemma_prefix_head(lens, dlg, data0, ph, wh, syms.skip(k2), wout, p, sym as int);
                    let t = syms.skip(k2);
                    if t.len() > 0 {
                        match t[0] {
                            BlockSym::Lit(b) => {},
                            BlockSym::Copy(ls, lv, ds, dv) => {},
                        }
                    }
                };
                assert forall|lsym: u16, lval: u32, dsym: u16, dval: u32|
                    #[trigger] pair_at(lens, dlg, data0, pos0, lsym, lval, dsym, dval)
                        && dist_base(dsym as int) + dval > w0.len() implies false by {
                    lemma_matched_symbol_unique(lens, data0, pos0, lsym as int, sym as int);
                };
            }
            return Err(Error::Block(BlockError::InvalidLengthCode));
        } else {
            proof {
                assert forall|lits: Seq<u8>, e: int|
                    encodes_literals(lens, data0, pos0, lits, e) implies false by {
                    let t = lits.skip(k);
                    if t.len() == 0 {
                        lemma_matched_symbol_unique(lens, data0, ph, 256, sym as int);
                    } else {
                        lemma_matched_symbol_unique(lens, data0, ph, t[0] as int, sym as int);
                    }
                };
            }
            proof {
                assert forall|s: int|
                    #[trigger] illegal_length_sym_at(lens, data0, pos0, s) implies false by {
                    lemma_matched_symbol_unique(lens, data0, pos0, s, sym as int);
                };
            }
            let (lbase, lextra) = length_info(sym);
            let lval: u32 = match r.read_bits(lextra) {
                Ok(v) => v,
                Err(err) => {
                    proof {
                        assert forall|syms: Seq<BlockSym>, wout: Seq<u8>, p: int|
                            (#[trigger] decodes_syms_prefix(
                                lens, dlg, data0, pos0, w0, syms, wout, p,
                            ) && eob_at(lens, data0, p)) implies false by {
                            lemma_prefix_head(
                                lens, dlg, data0, ph, wh, syms.skip(k2), wout, p, sym as int,
                            );
                            let t = syms.skip(k2);
                            if t.len() > 0 {
                                match t[0] {
                                    BlockSym::Lit(b) => {},
                                    BlockSym::Copy(ls, lv, ds, dv) => {},
                                }
                            }
                        };
                        assert forall|qlsym: u16, qlval: u32, qdsym: u16, qdval: u32|
                            #[trigger] pair_at(lens, dlg, data0, pos0, qlsym, qlval, qdsym, qdval)
                                && dist_base(qdsym as int) + qdval > w0.len() implies false by {
                            lemma_matched_symbol_unique(lens, data0, pos0, qlsym as int, sym as int);
                        };
                    }
                    return Err(err);
                },
            };
            let length: u32 = lbase + lval;
            let ghost pmid = r.pos();
            let dsym: u16 = match dist.decode_symbol(r) {
                Ok(s) => s,
                Err(err) => {
                    proof {
                        assert forall|syms: Seq<BlockSym>, wout: Seq<u8>, p: int|
                            (#[trigger] decodes_syms_prefix(
                                lens, dlg, data0, pos0, w0, syms, wout, p,
                            ) && eob_at(lens, data0, p)) implies false by {
                            lemma_prefix_head(
                                lens, dlg, data0, ph, wh, syms.skip(k2), wout, p, sym as int,
                            );
                            let t = syms.skip(k2);
                            if t.len() > 0 {
                                match t[0] {
                                    BlockSym::Lit(b) => {},
                                    BlockSym::Copy(ls, lv, ds, dv) => {
                                        assert(msb_val(
                                            stream_bits(data0, pmid, pmid + dlg[ds as int]),
                                        ) == code_of(dlg, ds as int));
                                    },
                                }
                            }
                        };
                        assert forall|qlsym: u16, qlval: u32, qdsym: u16, qdval: u32|
                            #[trigger] pair_at(lens, dlg, data0, pos0, qlsym, qlval, qdsym, qdval)
                                && dist_base(qdsym as int) + qdval > w0.len() implies false by {
                            lemma_matched_symbol_unique(lens, data0, pos0, qlsym as int, sym as int);
                            assert(msb_val(stream_bits(data0, pmid, pmid + dlg[qdsym as int]))
                                == code_of(dlg, qdsym as int));
                        };
                    }
                    return Err(err);
                },
            };
            if dsym >= 30 {
                proof {
                    assert forall|syms: Seq<BlockSym>, wout: Seq<u8>, p: int|
                        (#[trigger] decodes_syms_prefix(lens, dlg, data0, pos0, w0, syms, wout, p)
                            && eob_at(lens, data0, p)) implies false by {
                        lemma_prefix_head(
                            lens, dlg, data0, ph, wh, syms.skip(k2), wout, p, sym as int,
                        );
                        let t = syms.skip(k2);
                        if t.len() > 0 {
                            match t[0] {
                                BlockSym::Lit(b) => {},
                                BlockSym::Copy(ls, lv, ds, dv) => {
                                    lemma_matched_symbol_unique(
                                        dlg, data0, pmid, ds as int, dsym as int,
                                    );
                                },
                            }
                        }
                    };
                    assert forall|qlsym: u16, qlval: u32, qdsym: u16, qdval: u32|
                        #[trigger] pair_at(lens, dlg, data0, pos0, qlsym, qlval, qdsym, qdval)
                            && dist_base(qdsym as int) + qdval > w0.len() implies false by {
                        lemma_matched_symbol_unique(lens, data0, pos0, qlsym as int, sym as int);
                        lemma_matched_symbol_unique(dlg, data0, pmid, qdsym as int, dsym as int);
                    };
                }
                return Err(Error::Block(BlockError::InvalidLengthCode));
            }
            let (dbase, dextra) = dist_info(dsym);
            let dval: u32 = match r.read_bits(dextra) {
                Ok(v) => v,
                Err(err) => {
                    proof {
                        assert forall|syms: Seq<BlockSym>, wout: Seq<u8>, p: int|
                            (#[trigger] decodes_syms_prefix(
                                lens, dlg, data0, pos0, w0, syms, wout, p,
                            ) && eob_at(lens, data0, p)) implies false by {
                            lemma_prefix_head(
                                lens, dlg, data0, ph, wh, syms.skip(k2), wout, p, sym as int,
                            );
                            let t = syms.skip(k2);
                            if t.len() > 0 {
                                match t[0] {
                                    BlockSym::Lit(b) => {},
                                    BlockSym::Copy(ls, lv, ds, dv) => {
                                        lemma_matched_symbol_unique(
                                            dlg, data0, pmid, ds as int, dsym as int,
                                        );
                                    },
                                }
                            }
                        };
                        assert forall|qlsym: u16, qlval: u32, qdsym: u16, qdval: u32|
                            #[trigger] pair_at(lens, dlg, data0, pos0, qlsym, qlval, qdsym, qdval)
                                && dist_base(qdsym as int) + qdval > w0.len() implies false by {
                            lemma_matched_symbol_unique(lens, data0, pos0, qlsym as int, sym as int);
                            lemma_matched_symbol_unique(dlg, data0, pmid, qdsym as int, dsym as int);
                        };
                    }
                    return Err(err);
                },
            };
            let distance: u32 = dbase + dval;
            if distance as usize > w.len() {
                proof {
                    assert forall|syms: Seq<BlockSym>, wout: Seq<u8>, p: int|
                        (#[trigger] decodes_syms_prefix(lens, dlg, data0, pos0, w0, syms, wout, p)
                            && eob_at(lens, data0, p)) implies false by {
                        lemma_prefix_head(
                            lens, dlg, data0, ph, wh, syms.skip(k2), wout, p, sym as int,
                        );
                        let t = syms.skip(k2);
                        if t.len() > 0 {
                            match t[0] {
                                BlockSym::Lit(b) => {},
                                BlockSym::Copy(ls, lv, ds, dv) => {
                                    lemma_matched_symbol_unique(
                                        dlg, data0, pmid, ds as int, dsym as int,
                                    );
                                },
                            }
                        }
                    };
                }
                return Err(Error::Block(BlockError::DistanceTooFar));
            }
            proof {
                assert forall|qlsym: u16, qlval: u32, qdsym: u16, qdval: u32|
                    #[trigger] pair_at(lens, dlg, data0, pos0, qlsym, qlval, qdsym, qdval)
                        && dist_base(qdsym as int) + qdval > w0.len() implies false by {
                    lemma_matched_symbol_unique(lens, data0, pos0, qlsym as int, sym as int);
                    lemma_matched_symbol_unique(dlg, data0, pmid, qdsym as int, dsym as int);
                };
            }
            let ghost wpre = w@;
            let start: usize = w.len();
            w.copy_back(distance as usize, length as usize);
            proof {
                crate::window::lemma_back_copied_len(wpre, distance as int, length as int);
                crate::window::lemma_back_copied_prefix(wpre, distance as int, length as int);
                assert(w@.subrange(0, start as int) =~= wpre);
            }
            let ghost wpost = w@;
            let end: usize = w.len();
            let mut j: usize = start;
            while j < end
                invariant
                    start <= j <= end,
                    w@ == wpost,
                    end == w@.len(),
                    crc.wf(),
                    crc.processed() == w@.subrange(0, j as int),
                decreases end - j,
            {
                let b: u8 = w.byte_at(j);
                crc.update(b);
                j = j + 1;
                proof {
                    assert(w@.subrange(0, j as int) =~= w@.subrange(0, j - 1).push(w@[j - 1]));
                }
            }
            proof {
                assert(w@.subrange(0, w@.len() as int) =~= w@);
                assert forall|syms: Seq<BlockSym>, wout: Seq<u8>, p: int|
                    (#[trigger] decodes_syms_prefix(lens, dlg, data0, pos0, w0, syms, wout, p)
                        && eob_at(lens, data0, p)) implies {
                    &&& k2 + 1 <= syms.len()
                    &&& decodes_syms_prefix(lens, dlg, data0, r.pos(), w@, syms.skip(k2 + 1), wout, p)
                } by {
                    lemma_prefix_head(lens, dlg, data0, ph, wh, syms.skip(k2), wout, p, sym as int);
                    let t = syms.skip(k2);
                    if t.len() > 0 {
                        match t[0] {
                            BlockSym::Lit(b) => {},
                            BlockSym::Copy(ls, lv, ds, dv) => {
                                lemma_matched_symbol_unique(
                                    dlg, data0, pmid, ds as int, dsym as int,
                                );
                                assert(lv == lval);
                                assert(dv == dval);
                                assert(r.pos() == pair_end(lens, dlg, ph, ls, ds));
                                assert(w@ == back_copied(
                                    wh,
                                    dist_base(ds as int) + dv,
                                    length_base(ls as int) + lv,
                                ));
                                assert(t.drop_first() =~= syms.skip(k2 + 1));
                            },
                        }
                    }
                };
                k2 = k2 + 1;
            }
        }
        proof {
            r.lemma_pos_in_range();
        }
    }
}

/// True when the block starting at bit `pos` is a well-formed stored block
/// with the final-block flag set: three header bits `1,0,0`, padding to the
/// next byte, a LEN/NLEN pair in one's complement, and LEN payload bytes
/// all present.
pub open spec fn is_final_stored_block(data: Seq<u8>, pos: int) -> bool {
    let a = aligned_byte(pos + 3);
    &&& pos + 3 <= data.len() * 8
    &&& bit_at(data, pos)
    &&& !bit_at(data, pos + 1)
    &&& !bit_at(data, pos + 2)
    &&& a + 4 <= data.len()
    &&& le16(data[a + 2], data[a + 3]) == 65535 - le16(data[a], data[a + 1])
    &&& a + 4 + le16(data[a], data[a + 1]) <= data.len()
}

/// The LEN payload bytes of such a block.
pub open spec fn stored_block_payload(data: Seq<u8>, pos: int) -> Seq<u8> {
    let a = aligned_byte(pos + 3);
    data.subrange(a + 4, a + 4 + le16(data[a], data[a + 1]))
}

/// The bit position just past such a block.
pub open spec fn stored_block_end(data: Seq<u8>, pos: int) -> int {
    let a = aligned_byte(pos + 3);
    8 * (a + 4 + le16(data[a], data[a + 1]))
}

/// Decodes one DEFLATE block: reads the three-bit header and dispatches on
/// the block type, writing the block's bytes into the window. Returns the
/// block's final-block flag.
pub fn decode_one_block(
    r: &mut BitReader,
    w: &mut OutputWindow,
    crc: &mut ChecksumVerifier,
    fixed_lit: &HuffmanTable,
    fixed_dist: &HuffmanTable,
) -> (res: Result<bool, Error>)
    requires
        old(r).wf(),
        old(crc).wf(),
        old(crc).processed() == old(w)@,
        fixed_lit.wf(),
        fixed_lit.lens() == fixed_lit_lens(),
        fixed_dist.wf(),
        fixed_dist.lens() == fixed_dist_lens(),
    ensures
        final(r).wf(),
        final(r).data() == old(r).data(),
        final(r).pos() >= old(r).pos(),
        final(crc).wf(),
        final(crc).processed() == final(w)@,
        old(w)@.is_prefix_of(final(w)@),
        res matches Ok(b) ==> {
            &&& final(r).pos() > old(r).pos()
            &&& old(r).pos() + 3 <= old(r).total_bits()
            &&& b == bit_at(old(r).data(), old(r).pos())
        },
        res matches Err(e) ==> (e matches Error::Block(_) || e matches Error::Io(_)),
        old(r).pos() + 3 <= old(r).total_bits() && bit_at(old(r).data(), old(r).pos() + 1)
            && bit_at(old(r).data(), old(r).pos() + 2) ==> res == Err::<bool, Error>(
            Error::Block(BlockError::ReservedBlockType),
        ),
        is_final_stored_block(old(r).data(), old(r).pos()) ==> {
            &&& res == Ok::<bool, Error>(true)
            &&& final(w)@ == old(w)@ + stored_block_payload(old(r).data(), old(r).pos())
            &&& final(r).pos() == stored_block_end(old(r).data(), old(r).pos())
        },
        forall|lits: Seq<u8>, e: int|
            {
                &&& old(r).pos() + 3 <= old(r).total_bits()
                &&& bit_at(old(r).data(), old(r).pos() + 1)
                &&& !bit_at(old(r).data(), old(r).pos() + 2)
                &&& #[trigger] encodes_literals(
                    fixed_lit_lens(),
                    old(r).data(),
                    old(r).pos() + 3,
                    lits,
                    e,
                )
            } ==> {
                &&& res == Ok::<bool, Error>(bit_at(old(r).data(), old(r).pos()))
                &&& final(w)@ == old(w)@ + lits
                &&& final(r).pos() == e
            },
        forall|syms: Seq<BlockSym>, wout: Seq<u8>, p: int|
            {
                &&& old(r).pos() + 3 <= old(r).total_bits()
                &&& bit_at(old(r).data(), old(r).pos() + 1)
                &&& !bit_at(old(r).data(), old(r).pos() + 2)
                &&& #[trigger] decodes_syms_prefix(
                    fixed_lit_lens(),
                    fixed_dist_lens(),
                    old(r).data(),
                    old(r).pos() + 3,
                    old(w)@,
                    syms,
                    wout,
                    p,
                )
                &&& eob_at(fixed_lit_lens(), old(r).data(), p)
            } ==> {
                &&& res == Ok::<bool, Error>(bit_at(old(r).data(), old(r).pos()))
                &&& final(w)@ == wout
                &&& final(r).pos() == p + fixed_lit_lens()[256]
            },
        forall|items: Seq<ClSym>, out: Seq<u8>, e1: int, lits: Seq<u8>, e2: int|
            {
                &&& old(r).pos() + 3 <= old(r).total_bits()
                &&& !bit_at(old(r).data(), old(r).pos() + 1)
                &&& bit_at(old(r).data(), old(r).pos() + 2)
                &&& #[trigger] dyn_tables_described(old(r).data(), old(r).pos() + 3, items, out, e1)
                &&& #[trigger] encodes_literals(
                    out.take(dyn_hlit(old(r).data(), old(r).pos() + 3)),
                    old(r).data(),
                    e1,
                    lits,
                    e2,
                )
            } ==> {
                &&& res == Ok::<bool, Error>(bit_at(old(r).data(), old(r).pos()))
                &&& final(w)@ == old(w)@ + lits
                &&& final(r).pos() == e2
            },
        forall|items: Seq<ClSym>, out: Seq<u8>, e1: int, syms: Seq<BlockSym>, wout: Seq<u8>, p: int|
            {
                &&& old(r).pos() + 3 <= old(r).total_bits()
                &&& !bit_at(old(r).data(), old(r).pos() + 1)
                &&& bit_at(old(r).data(), old(r).pos() + 2)
                &&& #[trigger] dyn_tables_described(old(r).data(), old(r).pos() + 3, items, out, e1)
                &&& #[trigger] decodes_syms_prefix(
                    out.take(dyn_hlit(old(r).data(), old(r).pos() + 3)),
                    out.skip(dyn_hlit(old(r).data(), old(r).pos() + 3)),
                    old(r).data(),
                    e1,
                    old(w)@,
                    syms,
                    wout,
                    p,
                )
                &&& eob_at(out.take(dyn_hlit(old(r).data(), old(r).pos() + 3)), old(r).data(), p)
            } ==> {
                &&& res == Ok::<bool, Error>(bit_at(old(r).data(), old(r).pos()))
                &&& final(w)@ == wout
                &&& final(r).pos() == p + out.take(dyn_hlit(old(r).data(), old(r).pos() + 3))[256]
            },
{
    let hdr: BlockHeader = read_block_header(r)?;
    match hdr.btype {
        BlockType::Stored => {
            decode_stored_block(r, w, crc)?;
        },
        BlockType::FixedHuffman => {
            decode_huffman_block(fixed_lit, fixed_dist, r, w, crc)?;
        },
        BlockType::DynamicHuffman => {
            let tables: (HuffmanTable, HuffmanTable) = read_dynamic_tables(r)?;
            decode_huffman_block(&tables.0, &tables.1, r, w, crc)?;
        },
    }
    Ok(hdr.bfinal)
}

} // verus!
