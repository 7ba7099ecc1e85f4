use vstd::prelude::*;
use crate::bits::{le16, le32, nth_bit, BitReader};
use crate::bits::bit_at;
use crate::block::{aligned_byte, decode_one_block, encodes_literals, is_final_stored_block,
    stored_block_end, stored_block_payload};
use crate::crc32::{crc32_of, ChecksumVerifier};
use crate::errors::{Error, FormatError, HeaderError, IoError, TrailerError};
use crate::huffman::{fixed_dist_lens, fixed_distance_table, fixed_lit_lens, fixed_literal_table,
    HuffmanTable};
use crate::utf8::{is_valid_utf8, validate_utf8};
use crate::window::OutputWindow;

verus! {

/// Index of the first NUL byte at or after `from`, or the sequence's length
/// when there is none.
pub open spec fn find_null(data: Seq<u8>, from: int) -> int
    decreases data.len() - from,
{
    if from >= data.len() {
        data.len() as int
    } else if data[from] == 0 {
        from
    } else {
        find_null(data, from + 1)
    }
}

pub proof fn lemma_find_null_at(data: Seq<u8>, from: int, e: int)
    requires
        0 <= from <= e <= data.len(),
        forall|k: int| from <= k < e ==> data[k] != 0,
        e == data.len() || data[e] == 0,
    ensures
        find_null(data, from) == e,
    decreases e - from,
{
    if from < e {
        lemma_find_null_at(data, from + 1, e);
    }
}

/// The ten fixed header bytes are present and hold the gzip signature and
/// the DEFLATE method byte.
pub open spec fn hdr_fixed_ok(data: Seq<u8>, p: int) -> bool {
    &&& p + 10 <= data.len()
    &&& data[p] == 0x1f
    &&& data[p + 1] == 0x8b
    &&& data[p + 2] == 8
}

pub open spec fn hdr_ftext(data: Seq<u8>, p: int) -> bool {
    nth_bit(data[p + 3], 0)
}

pub open spec fn hdr_fhcrc(data: Seq<u8>, p: int) -> bool {
    nth_bit(data[p + 3], 1)
}

pub open spec fn hdr_fextra(data: Seq<u8>, p: int) -> bool {
    nth_bit(data[p + 3], 2)
}

pub open spec fn hdr_fname(data: Seq<u8>, p: int) -> bool {
    nth_bit(data[p + 3], 3)
}

pub open spec fn hdr_fcomment(data: Seq<u8>, p: int) -> bool {
    nth_bit(data[p + 3], 4)
}

/// Byte position just past the optional extra field.
pub open spec fn hdr_extra_end(data: Seq<u8>, p: int) -> int {
    if hdr_fextra(data, p) {
        p + 12 + le16(data[p + 10], data[p + 11])
    } else {
        p + 10
    }
}

pub open spec fn hdr_extra_ok(data: Seq<u8>, p: int) -> bool {
    hdr_fextra(data, p) ==> (p + 12 <= data.len() && hdr_extra_end(data, p) <= data.len())
}

/// Byte position just past the optional null-terminated name.
pub open spec fn hdr_name_end(data: Seq<u8>, p: int) -> int {
    if hdr_fname(data, p) {
        find_null(data, hdr_extra_end(data, p)) + 1
    } else {
        hdr_extra_end(data, p)
    }
}

pub open spec fn hdr_name_ok(data: Seq<u8>, p: int) -> bool {
    hdr_fname(data, p) ==> {
        let s = hdr_extra_end(data, p);
        let e = find_null(data, s);
        e < data.len() && is_valid_utf8(data.subrange(s, e))
    }
}

/// Byte position just past the optional null-terminated comment.
pub open spec fn hdr_comment_end(data: Seq<u8>, p: int) -> int {
    if hdr_fcomment(data, p) {
        find_null(data, hdr_name_end(data, p)) + 1
    } else {
        hdr_name_end(data, p)
    }
}

pub open spec fn hdr_comment_ok(data: Seq<u8>, p: int) -> bool {
    hdr_fcomment(data, p) ==> {
        let s = hdr_name_end(data, p);
        let e = find_null(data, s);
        e < data.len() && is_valid_utf8(data.subrange(s, e))
    }
}

/// Byte position just past the whole header, its optional fields included.
pub open spec fn hdr_end(data: Seq<u8>, p: int) -> int {
    hdr_comment_end(data, p) + if hdr_fhcrc(data, p) {
        2int
    } else {
        0
    }
}

pub open spec fn hdr_crc_ok(data: Seq<u8>, p: int) -> bool {
    hdr_fhcrc(data, p) ==> hdr_end(data, p) <= data.len()
}

/// A fully well-formed gzip member header at byte position `p`.
pub open spec fn header_wf(data: Seq<u8>, p: int) -> bool {
    &&& hdr_fixed_ok(data, p)
    &&& hdr_extra_ok(data, p)
    &&& hdr_name_ok(data, p)
    &&& hdr_comment_ok(data, p)
    &&& hdr_crc_ok(data, p)
}

/// A parsed gzip member header. Each optional field is present exactly when
/// its flag bit is set.
pub struct GzipHeader {
    pub ftext: bool,
    pub fhcrc: bool,
    pub fextra: bool,
    pub fname: bool,
    pub fcomment: bool,
    pub mtime: u32,
    pub xfl: u8,
    pub os: u8,
    pub extra: Option<Vec<u8>>,
    pub name: Option<Vec<u8>>,
    pub comment: Option<Vec<u8>>,
    pub header_crc: Option<u16>,
}

/// The gzip member trailer: the CRC-32 of the decompressed bytes and their
/// count modulo 2^32, both little-endian.
pub struct GzipTrailer {
    pub crc: u32,
    pub size: u32,
}

fn flag_bit(f: u8, i: u8) -> (r: bool)
    requires
        i < 8,
    ensures
        r == nth_bit(f, i),
{
    (f >> i) & 1 == 1
}

/// Reads the bytes up to, and consumes, the next NUL terminator. Running
/// off the end of the input without one is a framing error.
fn read_cstring(r: &mut BitReader) -> (res: Result<Vec<u8>, Error>)
    requires
        old(r).wf(),
        old(r).bit_off() == 0,
    ensures
        final(r).wf(),
        final(r).data() == old(r).data(),
        final(r).bit_off() == 0,
        final(r).pos() >= old(r).pos(),
        ({
            let data = old(r).data();
            let s = old(r).byte_pos();
            let e = find_null(data, s);
            &&& (e < data.len() ==> (res matches Ok(v) && v@ == data.subrange(s, e)
                && final(r).byte_pos() == e + 1))
            &&& (e >= data.len() ==> res == Err::<Vec<u8>, Error>(
                Error::Header(HeaderError::MissingTerminator),
            ))
        }),
{
    let ghost data = old(r).data();
    let ghost s = old(r).byte_pos();
    let mut out: Vec<u8> = Vec::new();
    loop
        invariant
            r.wf(),
            r.bit_off() == 0,
            r.data() == data,
            data == old(r).data(),
            s == old(r).byte_pos(),
            old(r).bit_off() == 0,
            0 <= s <= r.byte_pos() <= data.len(),
            out@ == data.subrange(s, r.byte_pos()),
            forall|k: int| s <= k < r.byte_pos() ==> data[k] != 0,
        decreases data.len() - r.byte_pos(),
    {
        let ghost cur = r.byte_pos();
        match r.read_bytes(1) {
            Err(_) => {
                proof {
                    lemma_find_null_at(data, s, data.len() as int);
                }
                return Err(Error::Header(HeaderError::MissingTerminator));
            },
            Ok(v) => {
                let b: u8 = v[0];
                if b == 0 {
                    proof {
                        lemma_find_null_at(data, s, cur);
                    }
                    return Ok(out);
                }
                out.push(b);
                proof {
                    assert(out@ =~= data.subrange(s, r.byte_pos()));
                }
            },
        }
    }
}

/// Parses a gzip member header at the cursor: checks the two signature
/// bytes and the compression method, reads the flag byte, modification
/// time, extra flags and OS byte, then each optional field its flag
/// announces — the length-prefixed extra field, the null-terminated name
/// and comment (which must be UTF-8), and the 16-bit header checksum.
pub fn parse_header(r: &mut BitReader) -> (res: Result<GzipHeader, Error>)
    requires
        old(r).wf(),
        old(r).bit_off() == 0,
    ensures
        final(r).wf(),
        final(r).data() == old(r).data(),
        final(r).pos() >= old(r).pos(),
        ({
            let data = old(r).data();
            let p = old(r).byte_pos();
            &&& (p + 2 > data.len() ==> res == Err::<GzipHeader, Error>(
                Error::Io(IoError::UnexpectedEof),
            ))
            &&& (p + 2 <= data.len() && !(data[p] == 0x1f && data[p + 1] == 0x8b) ==> res
                == Err::<GzipHeader, Error>(Error::Format(FormatError::BadMagic)))
            &&& (p + 2 <= data.len() && data[p] == 0x1f && data[p + 1] == 0x8b && p + 3
                > data.len() ==> res == Err::<GzipHeader, Error>(
                Error::Io(IoError::UnexpectedEof),
            ))
            &&& (p + 3 <= data.len() && data[p] == 0x1f && data[p + 1] == 0x8b && data[p + 2]
                != 8 ==> res == Err::<GzipHeader, Error>(
                Error::Format(FormatError::UnsupportedMethod),
            ))
            &&& (p + 3 <= data.len() && data[p] == 0x1f && data[p + 1] == 0x8b && data[p + 2]
                == 8 && p + 10 > data.len() ==> res == Err::<GzipHeader, Error>(
                Error::Io(IoError::UnexpectedEof),
            ))
            &&& (hdr_fixed_ok(data, p) && !hdr_extra_ok(data, p) ==> res == Err::<
                GzipHeader,
                Error,
            >(Error::Io(IoError::UnexpectedEof)))
            &&& (hdr_fixed_ok(data, p) && hdr_extra_ok(data, p) && hdr_fname(data, p)
                && find_null(data, hdr_extra_end(data, p)) >= data.len() ==> res == Err::<
                GzipHeader,
                Error,
            >(Error::Header(HeaderError::MissingTerminator)))
            &&& (hdr_fixed_ok(data, p) && hdr_extra_ok(data, p) && hdr_fname(data, p)
                && find_null(data, hdr_extra_end(data, p)) < data.len() && !is_valid_utf8(
                data.subrange(hdr_extra_end(data, p), find_null(data, hdr_extra_end(data, p))),
            ) ==> res == Err::<GzipHeader, Error>(Error::Header(HeaderError::InvalidUtf8)))
            &&& (hdr_fixed_ok(data, p) && hdr_extra_ok(data, p) && hdr_name_ok(data, p)
                && hdr_fcomment(data, p) && find_null(data, hdr_name_end(data, p)) >= data.len()
                ==> res == Err::<GzipHeader, Error>(Error::Header(HeaderError::MissingTerminator)))
            &&& (hdr_fixed_ok(data, p) && hdr_extra_ok(data, p) && hdr_name_ok(data, p)
                && hdr_fcomment(data, p) && find_null(data, hdr_name_end(data, p)) < data.len()
                && !is_valid_utf8(
                data.subrange(hdr_name_end(data, p), find_null(data, hdr_name_end(data, p))),
            ) ==> res == Err::<GzipHeader, Error>(Error::Header(HeaderError::InvalidUtf8)))
            &&& (hdr_fixed_ok(data, p) && hdr_extra_ok(data, p) && hdr_name_ok(data, p)
                && hdr_comment_ok(data, p) && !hdr_crc_ok(data, p) ==> res == Err::<
                GzipHeader,
                Error,
            >(Error::Io(IoError::UnexpectedEof)))
            &&& (header_wf(data, p) ==> {
                &&& res matches Ok(h)
                &&& h.ftext == hdr_ftext(data, p)
                &&& h.fhcrc == hdr_fhcrc(data, p)
                &&& h.fextra == hdr_fextra(data, p)
                &&& h.fname == hdr_fname(data, p)
                &&& h.fcomment == hdr_fcomment(data, p)
                &&& h.mtime == le32(data[p + 4], data[p + 5], data[p + 6], data[p + 7])
                &&& h.xfl == data[p + 8]
                &&& h.os == data[p + 9]
                &&& (h.fextra ==> (h.extra matches Some(v) && v@ == data.subrange(
                    p + 12,
                    hdr_extra_end(data, p),
                )))
                &&& (!h.fextra ==> h.extra is None)
                &&& (h.fname ==> (h.name matches Some(v) && v@ == data.subrange(
                    hdr_extra_end(data, p),
                    find_null(data, hdr_extra_end(data, p)),
                )))
                &&& (!h.fname ==> h.name is None)
                &&& (h.fcomment ==> (h.comment matches Some(v) && v@ == data.subrange(
                    hdr_name_end(data, p),
                    find_null(data, hdr_name_end(data, p)),
                )))
                &&& (!h.fcomment ==> h.comment is None)
                &&& (h.fhcrc ==> (h.header_crc matches Some(c) && c == le16(
                    data[hdr_comment_end(data, p)],
                    data[hdr_comment_end(data, p) + 1],
                )))
                &&& (!h.fhcrc ==> h.header_crc is None)
                &&& final(r).byte_pos() == hdr_end(data, p)
                &&& final(r).bit_off() == 0
            })
        }),
{
    let magic: Vec<u8> = r.read_bytes(2)?;
    if magic[0] != 0x1f || magic[1] != 0x8b {
        return Err(Error::Format(FormatError::BadMagic));
    }
    let method: Vec<u8> = r.read_bytes(1)?;
    if method[0] != 8 {
        return Err(Error::Format(FormatError::UnsupportedMethod));
    }
    let rest: Vec<u8> = r.read_bytes(7)?;
    let flags: u8 = rest[0];
    let ftext: bool = flag_bit(flags, 0);
    let fhcrc: bool = flag_bit(flags, 1);
    let fextra: bool = flag_bit(flags, 2);
    let fname: bool = flag_bit(flags, 3);
    let fcomment: bool = flag_bit(flags, 4);
    let mtime: u32 = rest[1] as u32 + 256 * (rest[2] as u32) + 65536 * (rest[3] as u32)
        + 16777216 * (rest[4] as u32);
    let xfl: u8 = rest[5];
    let os: u8 = rest[6];
    let extra: Option<Vec<u8>> = if fextra {
        let xlen: u16 = r.read_u16_le()?;
        let v: Vec<u8> = r.read_bytes(xlen as usize)?;
        Some(v)
    } else {
        None
    };
    let name: Option<Vec<u8>> = if fname {
        let v: Vec<u8> = read_cstring(r)?;
        if !validate_utf8(&v) {
            return Err(Error::Header(HeaderError::InvalidUtf8));
        }
        Some(v)
    } else {
        None
    };
    let comment: Option<Vec<u8>> = if fcomment {
        let v: Vec<u8> = read_cstring(r)?;
        if !validate_utf8(&v) {
            return Err(Error::Header(HeaderError::InvalidUtf8));
        }
        Some(v)
    } else {
        None
    };
    let header_crc: Option<u16> = if fhcrc {
        Some(r.read_u16_le()?)
    } else {
        None
    };
    Ok(
        GzipHeader {
            ftext,
            fhcrc,
            fextra,
            fname,
            fcomment,
            mtime,
            xfl,
            os,
            extra,
            name,
            comment,
            header_crc,
        },
    )
}

/// Reads the eight trailer bytes that follow the final block: the CRC-32
/// and the decompressed size modulo 2^32, both little-endian.
pub fn parse_trailer(r: &mut BitReader) -> (res: Result<GzipTrailer, Error>)
    requires
        old(r).wf(),
        old(r).bit_off() == 0,
    ensures
        final(r).wf(),
        final(r).data() == old(r).data(),
        final(r).pos() >= old(r).pos(),
        ({
            let data = old(r).data();
            let p = old(r).byte_pos();
            &&& (p + 8 <= data.len() ==> {
                &&& res matches Ok(t)
                &&& t.crc == le32(data[p], data[p + 1], data[p + 2], data[p + 3])
                &&& t.size == le32(data[p + 4], data[p + 5], data[p + 6], data[p + 7])
                &&& final(r).byte_pos() == p + 8
                &&& final(r).bit_off() == 0
            })
            &&& (p + 8 > data.len() ==> res == Err::<GzipTrailer, Error>(
                Error::Io(IoError::UnexpectedEof),
            ))
        }),
{
    let crc: u32 = r.read_u32_le()?;
    let size: u32 = r.read_u32_le()?;
    Ok(GzipTrailer { crc, size })
}

/// A whole gzip member whose body is a single stored block: a well-formed
/// header, a final stored block, and a trailer whose checksum and size
/// match the block's payload.
pub open spec fn is_single_stored_member(data: Seq<u8>, p: int) -> bool {
    let body = 8 * hdr_end(data, p);
    let e = stored_block_end(data, body) / 8;
    let payload = stored_block_payload(data, body);
    &&& header_wf(data, p)
    &&& is_final_stored_block(data, body)
    &&& e + 8 <= data.len()
    &&& le32(data[e], data[e + 1], data[e + 2], data[e + 3]) == crc32_of(payload)
    &&& le32(data[e + 4], data[e + 5], data[e + 6], data[e + 7]) == payload.len()
        % 0x1_0000_0000
}

/// The payload of such a member.
pub open spec fn stored_member_payload(data: Seq<u8>, p: int) -> Seq<u8> {
    stored_block_payload(data, 8 * hdr_end(data, p))
}

/// The byte position just past such a member, its trailer included.
pub open spec fn stored_member_end(data: Seq<u8>, p: int) -> int {
    stored_block_end(data, 8 * hdr_end(data, p)) / 8 + 8
}

/// The frame of a single-stored-block member: header, final stored block
/// and eight trailer bytes all present, with nothing yet said about the
/// trailer's values.
pub open spec fn stored_member_frame(data: Seq<u8>, p: int) -> bool {
    let body = 8 * hdr_end(data, p);
    &&& header_wf(data, p)
    &&& is_final_stored_block(data, body)
    &&& stored_block_end(data, body) / 8 + 8 <= data.len()
}

/// The stored CRC-32 field of such a member's trailer.
pub open spec fn stored_member_trailer_crc(data: Seq<u8>, p: int) -> int {
    let e = stored_block_end(data, 8 * hdr_end(data, p)) / 8;
    le32(data[e], data[e + 1], data[e + 2], data[e + 3])
}

/// The stored size field of such a member's trailer.
pub open spec fn stored_member_trailer_size(data: Seq<u8>, p: int) -> int {
    let e = stored_block_end(data, 8 * hdr_end(data, p)) / 8;
    le32(data[e + 4], data[e + 5], data[e + 6], data[e + 7])
}

/// A whole gzip member whose body is one final fixed-Huffman block made of
/// literal codes spelling `lits` and ending at bit position `e`, with a
/// trailer whose checksum and size match `lits`.
pub open spec fn is_fixed_literal_member(data: Seq<u8>, p: int, lits: Seq<u8>, e: int) -> bool {
    &&& fixed_literal_member_frame(data, p, lits, e)
    &&& fixed_literal_trailer_crc(data, e) == crc32_of(lits)
    &&& fixed_literal_trailer_size(data, e) == lits.len() % 0x1_0000_0000
}

/// The frame of a member whose body is one final fixed-Huffman block of
/// literal codes spelling `lits`, ending at bit `e`: header, block and
/// eight trailer bytes present, the trailer's values not yet constrained.
pub open spec fn fixed_literal_member_frame(data: Seq<u8>, p: int, lits: Seq<u8>, e: int) -> bool {
    let body = 8 * hdr_end(data, p);
    &&& header_wf(data, p)
    &&& body + 3 <= data.len() * 8
    &&& bit_at(data, body)
    &&& bit_at(data, body + 1)
    &&& !bit_at(data, body + 2)
    &&& encodes_literals(crate::huffman::fixed_lit_lens(), data, body + 3, lits, e)
    &&& aligned_byte(e) + 8 <= data.len()
}

/// The stored CRC-32 field of such a member's trailer.
pub open spec fn fixed_literal_trailer_crc(data: Seq<u8>, e: int) -> int {
    let eb = aligned_byte(e);
    le32(data[eb], data[eb + 1], data[eb + 2], data[eb + 3])
}

/// The stored size field of such a member's trailer.
pub open spec fn fixed_literal_trailer_size(data: Seq<u8>, e: int) -> int {
    let eb = aligned_byte(e);
    le32(data[eb + 4], data[eb + 5], data[eb + 6], data[eb + 7])
}

/// Decodes one gzip member at the cursor into the (empty) window: parses
/// the header, decodes blocks until the final one, then checks the trailer
/// checksum and size against what was produced.
pub fn decompress_member(
    r: &mut BitReader,
    w: &mut OutputWindow,
    crc: &mut ChecksumVerifier,
    fixed_lit: &HuffmanTable,
    fixed_dist: &HuffmanTable,
) -> (res: Result<(), Error>)
    requires
        old(r).wf(),
        old(r).bit_off() == 0,
        old(w)@ == Seq::<u8>::empty(),
        old(crc).wf(),
        old(crc).processed() == old(w)@,
        fixed_lit.wf(),
        fixed_lit.lens() == fixed_lit_lens(),
        fixed_dist.wf(),
        fixed_dist.lens() == fixed_dist_lens(),
    ensures
        final(r).wf(),
        final(r).data() == old(r).data(),
        final(r).pos() >= old(r).pos(),
        final(crc).wf(),
        final(crc).processed() == final(w)@,
        res matches Ok(r_ok) ==> {
            let data = old(r).data();
            let fp = final(r).byte_pos();
            &&& final(r).bit_off() == 0
            &&& final(r).pos() > old(r).pos()
            &&& fp >= 8
            &&& crc32_of(final(w)@) == le32(
                data[fp - 8],
                data[fp - 7],
                data[fp - 6],
                data[fp - 5],
            )
            &&& final(w)@.len() % 0x1_0000_0000 == le32(
                data[fp - 4],
                data[fp - 3],
                data[fp - 2],
                data[fp - 1],
            )
        },
        is_single_stored_member(old(r).data(), old(r).byte_pos()) ==> {
            &&& res == Ok::<(), Error>(())
            &&& final(w)@ == stored_member_payload(old(r).data(), old(r).byte_pos())
            &&& final(r).byte_pos() == stored_member_end(old(r).data(), old(r).byte_pos())
            &&& final(r).bit_off() == 0
        },
        stored_member_frame(old(r).data(), old(r).byte_pos()) ==> final(w)@
            == stored_member_payload(old(r).data(), old(r).byte_pos()),
        stored_member_frame(old(r).data(), old(r).byte_pos()) && stored_member_trailer_crc(
            old(r).data(),
            old(r).byte_pos(),
        ) != crc32_of(stored_member_payload(old(r).data(), old(r).byte_pos())) ==> res == Err::<
            (),
            Error,
        >(Error::Trailer(TrailerError::Crc32Mismatch)),
        stored_member_frame(old(r).data(), old(r).byte_pos()) && stored_member_trailer_crc(
            old(r).data(),
            old(r).byte_pos(),
        ) == crc32_of(stored_member_payload(old(r).data(), old(r).byte_pos()))
            && stored_member_trailer_size(old(r).data(), old(r).byte_pos())
            != stored_member_payload(old(r).data(), old(r).byte_pos()).len() % 0x1_0000_0000
            ==> res == Err::<(), Error>(Error::Trailer(TrailerError::SizeMismatch)),
        forall|lits: Seq<u8>, e: int|
            #[trigger] is_fixed_literal_member(old(r).data(), old(r).byte_pos(), lits, e)
                ==> {
                &&& res == Ok::<(), Error>(())
                &&& final(w)@ == lits
                &&& final(r).byte_pos() == aligned_byte(e) + 8
                &&& final(r).bit_off() == 0
            },
        forall|lits: Seq<u8>, e: int|
            #[trigger] fixed_literal_member_frame(old(r).data(), old(r).byte_pos(), lits, e)
                ==> {
                &&& final(w)@ == lits
                &&& (fixed_literal_trailer_crc(old(r).data(), e) != crc32_of(lits) ==> res
                    == Err::<(), Error>(Error::Trailer(TrailerError::Crc32Mismatch)))
                &&& (fixed_literal_trailer_crc(old(r).data(), e) == crc32_of(lits)
                    && fixed_literal_trailer_size(old(r).data(), e) != lits.len()
                    % 0x1_0000_0000 ==> res == Err::<(), Error>(
                    Error::Trailer(TrailerError::SizeMismatch),
                ))
            },
{
    let ghost data = old(r).data();
    let ghost p = old(r).byte_pos();
    let _hdr: GzipHeader = parse_header(r)?;
    let mut done: bool = decode_one_block(r, w, crc, fixed_lit, fixed_dist)?;
    proof {
        assert forall|lits: Seq<u8>, e: int|
            #[trigger] fixed_literal_member_frame(data, p, lits, e) implies {
            &&& done
            &&& w@ == lits
            &&& r.pos() == e
        } by {
            assert(Seq::<u8>::empty() + lits =~= lits);
        };
    }
    while !done
        invariant
            r.wf(),
            r.data() == data,
            data == old(r).data(),
            p == old(r).byte_pos(),
            r.pos() > old(r).pos(),
            crc.wf(),
            crc.processed() == w@,
            fixed_lit.wf(),
            fixed_lit.lens() == fixed_lit_lens(),
            fixed_dist.wf(),
            fixed_dist.lens() == fixed_dist_lens(),
            r.pos() <= r.total_bits(),
            stored_member_frame(data, p) ==> {
                &&& done
                &&& w@ == stored_member_payload(data, p)
                &&& r.pos() == stored_block_end(data, 8 * hdr_end(data, p))
            },
            forall|lits: Seq<u8>, e: int|
                #[trigger] fixed_literal_member_frame(data, p, lits, e) ==> {
                    &&& done
                    &&& w@ == lits
                    &&& r.pos() == e
                },
        decreases r.total_bits() - r.pos(),
    {
        done = decode_one_block(r, w, crc, fixed_lit, fixed_dist)?;
        proof {
            r.lemma_pos_in_range();
        }
    }
    r.align_to_byte();
    let trailer: GzipTrailer = parse_trailer(r)?;
    let computed: u32 = crc.finalize();
    if computed != trailer.crc {
        return Err(Error::Trailer(TrailerError::Crc32Mismatch));
    }
    let size_mod: u32 = (w.len() as u64 % 4294967296) as u32;
    if size_mod != trailer.size {
        return Err(Error::Trailer(TrailerError::SizeMismatch));
    }
    Ok(())
}

/// Appends `src` to `dst`.
fn append_vec(dst: &mut Vec<u8>, src: &Vec<u8>)
    ensures
        final(dst)@ == old(dst)@ + src@,
{
    let mut q: usize = 0;
    while q < src.len()
        invariant
            0 <= q <= src@.len(),
            dst@ == old(dst)@ + src@.subrange(0, q as int),
        decreases src@.len() - q,
    {
        dst.push(src[q]);
        q = q + 1;
        proof {
            assert(old(dst)@ + src@.subrange(0, q as int) =~= (old(dst)@ + src@.subrange(
                0,
                q - 1,
            )).push(src@[q - 1]));
        }
    }
    proof {
        assert(src@.subrange(0, src@.len() as int) =~= src@);
    }
}

/// Decodes every member of a gzip stream in order, concatenating their
/// payloads. Returns the bytes decoded before any failure, and the failure
/// itself if one occurred: output produced before an error stays available
/// to the caller.
pub fn decompress_partial(data: Vec<u8>) -> (res: (Vec<u8>, Option<Error>))
    ensures
        is_single_stored_member(data@, 0) && stored_member_end(data@, 0) == data@.len() ==> {
            &&& res.0@ == stored_member_payload(data@, 0)
            &&& res.1 is None
        },
        stored_member_frame(data@, 0) && stored_member_trailer_crc(data@, 0) != crc32_of(
            stored_member_payload(data@, 0),
        ) ==> {
            &&& res.0@ == stored_member_payload(data@, 0)
            &&& res.1 == Some(Error::Trailer(TrailerError::Crc32Mismatch))
        },
        forall|lits: Seq<u8>, e: int|
            #[trigger] is_fixed_literal_member(data@, 0, lits, e) && aligned_byte(e) + 8
                == data@.len() ==> {
                &&& res.0@ == lits
                &&& res.1 is None
            },
{
    let fixed_lit: HuffmanTable = fixed_literal_table();
    let fixed_dist: HuffmanTable = fixed_distance_table();
    let mut r: BitReader = BitReader::new(data);
    let mut out: Vec<u8> = Vec::new();
    loop
        invariant
            r.wf(),
            r.bit_off() == 0,
            r.data() == data@,
            fixed_lit.wf(),
            fixed_lit.lens() == fixed_lit_lens(),
            fixed_dist.wf(),
            fixed_dist.lens() == fixed_dist_lens(),
            is_single_stored_member(data@, 0) && stored_member_end(data@, 0) == data@.len()
                ==> (r.pos() == 0 && out@ =~= Seq::<u8>::empty()),
            stored_member_frame(data@, 0) && stored_member_trailer_crc(data@, 0) != crc32_of(
                stored_member_payload(data@, 0),
            ) ==> (r.pos() == 0 && out@ =~= Seq::<u8>::empty()),
            forall|lits: Seq<u8>, e: int|
                #[trigger] is_fixed_literal_member(data@, 0, lits, e) && aligned_byte(e) + 8
                    == data@.len() ==> (r.pos() == 0 && out@ =~= Seq::<u8>::empty()),
        decreases r.total_bits() - r.pos(),
    {
        proof {
            r.lemma_pos_in_range();
        }
        let mut w: OutputWindow = OutputWindow::new();
        let mut crc: ChecksumVerifier = ChecksumVerifier::new();
        match decompress_member(&mut r, &mut w, &mut crc, &fixed_lit, &fixed_dist) {
            Ok(()) => {
                let member: Vec<u8> = w.into_bytes();
                append_vec(&mut out, &member);
                if r.at_end() {
                    return (out, None);
                }
            },
            Err(e) => {
                let member: Vec<u8> = w.into_bytes();
                append_vec(&mut out, &member);
                return (out, Some(e));
            },
        }
    }
}

/// Decodes every member of a gzip stream, concatenating their payloads;
/// any failure discards the partial output and is returned alone.
pub fn decompress(data: Vec<u8>) -> (res: Result<Vec<u8>, Error>)
    ensures
        is_single_stored_member(data@, 0) && stored_member_end(data@, 0) == data@.len() ==> {
            &&& res matches Ok(out)
            &&& out@ == stored_member_payload(data@, 0)
        },
        forall|lits: Seq<u8>, e: int|
            #[trigger] is_fixed_literal_member(data@, 0, lits, e) && aligned_byte(e) + 8
                == data@.len() ==> (res matches Ok(out) && out@ == lits),
{
    let outcome: (Vec<u8>, Option<Error>) = decompress_partial(data);
    match outcome.1 {
        None => Ok(outcome.0),
        Some(e) => Err(e),
    }
}

/// The canonical one-block stored encoding of a payload `b` of stored-block
/// size: a flag-less gzip header, one final stored block holding `b`, and a
/// trailer carrying CRC-32(`b`) and `b`'s length.
pub open spec fn stored_member_bytes(b: Seq<u8>) -> Seq<u8>
    recommends
        b.len() < 65536,
{
    let len = b.len() as int;
    let c = crc32_of(b) as int;
    seq![
        0x1fu8,
        0x8bu8,
        8u8,
        0u8,
        0u8,
        0u8,
        0u8,
        0u8,
        0u8,
        255u8,
        1u8,
        (len % 256) as u8,
        (len / 256) as u8,
        (255 - len % 256) as u8,
        (255 - len / 256) as u8,
    ] + b + seq![
        (c % 256) as u8,
        (c / 256 % 256) as u8,
        (c / 65536 % 256) as u8,
        (c / 16777216) as u8,
        (len % 256) as u8,
        (len / 256) as u8,
        0u8,
        0u8,
    ]
}

/// Every payload of stored-block size round-trips: its canonical stored
/// encoding is a well-formed single-stored-block member whose payload is
/// exactly the original bytes and whose trailer checksum is their CRC-32 —
/// the shape that `decompress` is, by its contract, proved to map back to
/// the payload.
pub proof fn lemma_stored_member_roundtrip(b: Seq<u8>)
    requires
        b.len() < 65536,
    ensures
        is_single_stored_member(stored_member_bytes(b), 0),
        stored_member_payload(stored_member_bytes(b), 0) == b,
        stored_member_end(stored_member_bytes(b), 0) == stored_member_bytes(b).len(),
{
    let data = stored_member_bytes(b);
    let len = b.len() as int;
    let c = crc32_of(b) as int;
    assert(data.len() == 23 + len);
    assert(data[3] == 0);
    assert(!nth_bit(0u8, 1) && !nth_bit(0u8, 2) && !nth_bit(0u8, 3) && !nth_bit(0u8, 4))
        by (bit_vector);
    assert(hdr_end(data, 0) == 10);
    assert(header_wf(data, 0));
    // The block header bits of the byte 0x01: final, stored.
    assert(data[10] == 1);
    assert(nth_bit(1u8, 0) && !nth_bit(1u8, 1) && !nth_bit(1u8, 2)) by (bit_vector);
    assert(crate::bits::bit_at(data, 80) == nth_bit(data[10], 0));
    assert(crate::bits::bit_at(data, 81) == nth_bit(data[10], 1));
    assert(crate::bits::bit_at(data, 82) == nth_bit(data[10], 2));
    assert(crate::block::aligned_byte(83) == 11);
    assert(0 <= len % 256 < 256 && 0 <= len / 256 < 256) by (nonlinear_arith)
        requires
            0 <= len < 65536,
    ;
    assert(len == 256 * (len / 256) + len % 256) by (nonlinear_arith);
    assert(le16(data[11], data[12]) == len);
    assert(le16(data[13], data[14]) == 65535 - len);
    assert(is_final_stored_block(data, 80));
    assert(stored_block_payload(data, 80) =~= b);
    assert(stored_block_end(data, 80) == 8 * (15 + len));
    assert(8 * (15 + len) / 8 == 15 + len) by (nonlinear_arith);
    // The trailer: the CRC's base-256 digits reassemble to the CRC, and the
    // size field holds the payload length, which is below 2^32.
    let e = 15 + len;
    assert(0 <= c < 0x1_0000_0000);
    assert(c == 256 * (c / 256) + c % 256) by (nonlinear_arith);
    assert(c / 256 == 256 * (c / 65536) + c / 256 % 256) by (nonlinear_arith)
        requires
            c >= 0,
    ;
    assert(c / 65536 == 256 * (c / 16777216) + c / 65536 % 256) by (nonlinear_arith)
        requires
            c >= 0,
    ;
    assert(c / 16777216 < 256) by (nonlinear_arith)
        requires
            0 <= c < 0x1_0000_0000,
    ;
    assert(le32(data[e], data[e + 1], data[e + 2], data[e + 3]) == c);
    assert(le32(data[e + 4], data[e + 5], data[e + 6], data[e + 7]) == len);
    assert(len % 0x1_0000_0000 == len);
}

/// What one pull from a decode session yields: the next chunk of
/// decompressed bytes, the end of the stream, or the error that ended
/// decoding after all earlier bytes were served.
pub enum ReadOutcome {
    Data(Vec<u8>),
    EndOfStream,
    Failed(Error),
}

/// A pull-based decode session over one gzip byte stream. `open` decodes
/// the stream; `read` then serves the decompressed bytes in chunks, and
/// after the last byte reports the end of the stream, or the error that
/// stopped decoding — the bytes produced before it remain available.
pub struct Decompressor {
    out: Vec<u8>,
    served: usize,
    error: Option<Error>,
}

impl Decompressor {
    /// Everything the decoder produced.
    pub closed spec fn decoded(&self) -> Seq<u8> {
        self.out@
    }

    /// How many decoded bytes have been handed out.
    pub closed spec fn served(&self) -> int {
        self.served as int
    }

    /// The error that ended decoding, if any.
    pub closed spec fn failure(&self) -> Option<Error> {
        self.error
    }

    pub open spec fn wf(&self) -> bool {
        0 <= self.served() <= self.decoded().len()
    }

    /// Opens a session over a gzip byte stream.
    pub fn open(data: Vec<u8>) -> (s: Decompressor)
        ensures
            s.wf(),
            s.served() == 0,
            is_single_stored_member(data@, 0) && stored_member_end(data@, 0) == data@.len()
                ==> {
                &&& s.decoded() == stored_member_payload(data@, 0)
                &&& s.failure() is None
            },
            forall|lits: Seq<u8>, e: int|
                #[trigger] is_fixed_literal_member(data@, 0, lits, e) && aligned_byte(e) + 8
                    == data@.len() ==> {
                    &&& s.decoded() == lits
                    &&& s.failure() is None
                },
    {
        let outcome: (Vec<u8>, Option<Error>) = decompress_partial(data);
        Decompressor { out: outcome.0, served: 0, error: outcome.1 }
    }

    /// Pulls up to `max_bytes` of decompressed output. After the last byte,
    /// yields `EndOfStream` on a cleanly decoded stream and `Failed` on one
    /// that ended in an error.
    pub fn read(&mut self, max_bytes: usize) -> (res: ReadOutcome)
        requires
            old(self).wf(),
        ensures
            final(self).wf(),
            final(self).decoded() == old(self).decoded(),
            final(self).failure() == old(self).failure(),
            ({
                let remain = old(self).decoded().len() - old(self).served();
                let take = if max_bytes < remain {
                    max_bytes as int
                } else {
                    remain
                };
                &&& (remain > 0 ==> {
                    &&& res matches ReadOutcome::Data(v) && v@ == old(self).decoded().subrange(
                        old(self).served(),
                        old(self).served() + take,
                    )
                    &&& final(self).served() == old(self).served() + take
                })
                &&& (remain == 0 ==> (old(self).failure() matches Some(e) ==> res
                    == ReadOutcome::Failed(e) && final(self).served() == old(self).served()))
                &&& (remain == 0 && old(self).failure() is None ==> res
                    == ReadOutcome::EndOfStream && final(self).served() == old(self).served())
            }),
    {
        let remain: usize = self.out.len() - self.served;
        if remain == 0 {
            match self.error {
                Some(e) => ReadOutcome::Failed(e),
                None => ReadOutcome::EndOfStream,
            }
        } else {
            let take: usize = if max_bytes < remain {
                max_bytes
            } else {
                remain
            };
            let mut chunk: Vec<u8> = Vec::new();
            let mut q: usize = 0;
            while q < take
                invariant
                    0 <= q <= take,
                    self.out@.len() <= usize::MAX,
                    self.served + take <= self.out@.len(),
                    chunk@ =~= self.out@.subrange(self.served as int, self.served + q),
                decreases take - q,
            {
                chunk.push(self.out[self.served + q]);
                q = q + 1;
                proof {
                    assert(chunk@ =~= self.out@.subrange(self.served as int, self.served + q));
                }
            }
            self.served = self.served + take;
            ReadOutcome::Data(chunk)
        }
    }

    /// Ends the session; its output and state are dropped.
    pub fn close(self) {
    }
}

} // verus!
