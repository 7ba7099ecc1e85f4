use gunzip::crc32::ChecksumVerifier;
use gunzip::errors::{BlockError, Error, FormatError, HeaderError, IoError, TrailerError};
use gunzip::gzip::{decompress, decompress_partial, parse_header, Decompressor, ReadOutcome};
use gunzip::bits::BitReader;

/// Little bit-level assembler for hand-built DEFLATE streams, packing in
/// the orders RFC 1951 prescribes.
struct BitWriter {
    bytes: Vec<u8>,
    nbits: usize,
}

impl BitWriter {
    fn new() -> BitWriter {
        BitWriter { bytes: Vec::new(), nbits: 0 }
    }

    fn put_bit(&mut self, b: bool) {
        if self.nbits % 8 == 0 {
            self.bytes.push(0);
        }
        if b {
            let i = self.nbits / 8;
            self.bytes[i] |= 1u8 << (self.nbits % 8);
        }
        self.nbits += 1;
    }

    /// Fixed-width field, least-significant bit first.
    fn put_bits_lsb(&mut self, val: u32, n: usize) {
        for i in 0..n {
            self.put_bit((val >> i) & 1 == 1);
        }
    }

    /// Huffman code, most-significant bit first.
    fn put_code_msb(&mut self, code: u32, len: usize) {
        for i in (0..len).rev() {
            self.put_bit((code >> i) & 1 == 1);
        }
    }

    fn align(&mut self) {
        while self.nbits % 8 != 0 {
            self.put_bit(false);
        }
    }
}

fn crc32(data: &[u8]) -> u32 {
    let mut c = ChecksumVerifier::new();
    for &b in data {
        c.update(b);
    }
    c.finalize()
}

/// Wraps a raw DEFLATE body in a flag-less gzip member with a correct
/// trailer for `payload`.
fn gzip_wrap(body: &[u8], payload: &[u8]) -> Vec<u8> {
    let mut v = vec![0x1f, 0x8b, 8, 0, 0, 0, 0, 0, 0, 255];
    v.extend_from_slice(body);
    v.extend_from_slice(&crc32(payload).to_le_bytes());
    v.extend_from_slice(&(payload.len() as u32).to_le_bytes());
    v
}

/// One final stored block holding `payload`.
fn stored_body(payload: &[u8]) -> Vec<u8> {
    let len = payload.len() as u16;
    let mut v = vec![0x01];
    v.extend_from_slice(&len.to_le_bytes());
    v.extend_from_slice(&(!len).to_le_bytes());
    v.extend_from_slice(payload);
    v
}

fn gzip_stored(payload: &[u8]) -> Vec<u8> {
    gzip_wrap(&stored_body(payload), payload)
}

#[test]
fn stored_block_roundtrip() {
    // A member of one stored block decodes to exactly its payload.
    let data = gzip_stored(b"The quick brown fox");
    assert_eq!(decompress(data).unwrap(), b"The quick brown fox");
}

#[test]
fn stored_block_crc_is_checked() {
    // The trailer CRC equals CRC-32 of the payload; a member built with
    // that value decodes, so the computed and stored fields agree.
    let payload = b"checksum me";
    let data = gzip_stored(payload);
    let n = data.len();
    let stored_crc = u32::from_le_bytes([data[n - 8], data[n - 7], data[n - 6], data[n - 5]]);
    assert_eq!(stored_crc, crc32(payload));
    assert_eq!(decompress(data).unwrap(), payload);
}

#[test]
fn hello_session() {
    // Flag-less header, one stored block "HELLO", correct trailer: the
    // session yields b"HELLO", then EndOfStream.
    let data = gzip_stored(b"HELLO");
    let mut s = Decompressor::open(data);
    match s.read(1024) {
        ReadOutcome::Data(v) => assert_eq!(v, b"HELLO"),
        _ => panic!("expected data"),
    }
    assert!(matches!(s.read(1024), ReadOutcome::EndOfStream));
    s.close();
}

#[test]
fn session_chunked_reads() {
    let data = gzip_stored(b"HELLOWORLD");
    let mut s = Decompressor::open(data);
    match s.read(4) {
        ReadOutcome::Data(v) => assert_eq!(v, b"HELL"),
        _ => panic!("expected data"),
    }
    match s.read(4) {
        ReadOutcome::Data(v) => assert_eq!(v, b"OWOR"),
        _ => panic!("expected data"),
    }
    match s.read(99) {
        ReadOutcome::Data(v) => assert_eq!(v, b"LD"),
        _ => panic!("expected data"),
    }
    assert!(matches!(s.read(1), ReadOutcome::EndOfStream));
}

#[test]
fn fname_header_parses() {
    // FNAME flag set, name "test.txt" NUL-terminated before the blocks:
    // the name parses and block decoding proceeds unaffected.
    let payload = b"HELLO";
    let mut v = vec![0x1f, 0x8b, 8, 0x08, 0, 0, 0, 0, 0, 255];
    v.extend_from_slice(b"test.txt\0");
    v.extend_from_slice(&stored_body(payload));
    v.extend_from_slice(&crc32(payload).to_le_bytes());
    v.extend_from_slice(&(payload.len() as u32).to_le_bytes());

    let mut r = BitReader::new(v.clone());
    let h = parse_header(&mut r).unwrap();
    assert!(h.fname);
    assert_eq!(h.name.unwrap(), b"test.txt");
    assert!(h.comment.is_none());

    assert_eq!(decompress(v).unwrap(), payload);
}

#[test]
fn extra_and_comment_and_hcrc_fields() {
    // FEXTRA + FCOMMENT + FHCRC all present, each read past correctly.
    let payload = b"x";
    let mut v = vec![0x1f, 0x8b, 8, 0x16, 0x04, 0x03, 0x02, 0x01, 2, 3];
    v.extend_from_slice(&[3u8, 0]); // XLEN = 3
    v.extend_from_slice(&[9, 9, 9]); // extra payload
    v.extend_from_slice(b"a comment\0");
    v.extend_from_slice(&[0xAB, 0xCD]); // header CRC16 (read, not checked)
    v.extend_from_slice(&stored_body(payload));
    v.extend_from_slice(&crc32(payload).to_le_bytes());
    v.extend_from_slice(&(payload.len() as u32).to_le_bytes());

    let mut r = BitReader::new(v.clone());
    let h = parse_header(&mut r).unwrap();
    assert!(h.fextra && h.fcomment && h.fhcrc && !h.fname && !h.ftext);
    assert_eq!(h.mtime, 0x01020304);
    assert_eq!(h.xfl, 2);
    assert_eq!(h.os, 3);
    assert_eq!(h.extra.unwrap(), vec![9, 9, 9]);
    assert_eq!(h.comment.unwrap(), b"a comment");
    assert_eq!(h.header_crc.unwrap(), 0xCDAB);

    assert_eq!(decompress(v).unwrap(), payload);
}

#[test]
fn fixed_block_literals_only() {
    // A fixed-Huffman block of two literal symbols decodes to exactly
    // those bytes: 'A' is code 48+65, 'B' 48+66, each 8 bits; end-of-block
    // is the 7-bit code 0.
    let mut w = BitWriter::new();
    w.put_bit(true); // BFINAL
    w.put_bits_lsb(1, 2); // BTYPE = 01, fixed
    w.put_code_msb(48 + 65, 8);
    w.put_code_msb(48 + 66, 8);
    w.put_code_msb(0, 7); // end of block
    w.align();
    let data = gzip_wrap(&w.bytes, b"AB");
    assert_eq!(decompress(data).unwrap(), b"AB");
}

#[test]
fn overlapping_backreference_repeats() {
    // One literal 'a', then a back-reference with length 10 and distance 1:
    // the copy overlaps itself and must expand to ten more 'a' bytes.
    let mut w = BitWriter::new();
    w.put_bit(true);
    w.put_bits_lsb(1, 2); // fixed
    w.put_code_msb(48 + 97, 8); // 'a'
    w.put_code_msb(8, 7); // length symbol 264: base length 10, no extra
    w.put_code_msb(0, 5); // distance symbol 0: distance 1
    w.put_code_msb(0, 7); // end of block
    w.align();
    let data = gzip_wrap(&w.bytes, b"aaaaaaaaaaa");
    assert_eq!(decompress(data).unwrap(), b"aaaaaaaaaaa");
}

#[test]
fn dynamic_block_two_symbol_table() {
    // A dynamic block with a minimal two-symbol literal table (one-bit
    // codes for 'a' and end-of-block) encoding ten repetitions of 'a'.
    let mut w = BitWriter::new();
    w.put_bit(true);
    w.put_bits_lsb(2, 2); // BTYPE = 10, dynamic
    w.put_bits_lsb(0, 5); // HLIT: 257 literal/length codes
    w.put_bits_lsb(0, 5); // HDIST: 1 distance code
    w.put_bits_lsb(14, 4); // HCLEN: 18 code-length code lengths
    // Code-length code lengths in transmission order
    // [16,17,18,0,8,7,9,6,10,5,11,4,12,3,13,2,14,1,15]:
    // symbol 18 gets length 1, symbols 0 and 1 get length 2.
    let cl = [0u32, 0, 1, 2, 0, 0, 0, 0, 0, 0, 0, 0, 0, 0, 0, 0, 0, 2];
    for &c in cl.iter() {
        w.put_bits_lsb(c, 3);
    }
    // Canonical code-length codes: 18 -> 0 (1 bit), 0 -> 10, 1 -> 11.
    w.put_code_msb(0, 1); // 18: repeat zero
    w.put_bits_lsb(86, 7); // 11 + 86 = 97 zeros (symbols 0..96)
    w.put_code_msb(3, 2); // symbol 'a' (97) gets length 1
    w.put_code_msb(0, 1);
    w.put_bits_lsb(127, 7); // 138 zeros
    w.put_code_msb(0, 1);
    w.put_bits_lsb(9, 7); // 20 more zeros (symbols 98..255)
    w.put_code_msb(3, 2); // symbol 256 gets length 1
    w.put_code_msb(2, 2); // the single distance code length is 0
    // Literal codes: 'a' -> 0, end-of-block -> 1, one bit each.
    for _ in 0..10 {
        w.put_code_msb(0, 1);
    }
    w.put_code_msb(1, 1);
    w.align();
    let data = gzip_wrap(&w.bytes, b"aaaaaaaaaa");
    assert_eq!(decompress(data).unwrap(), b"aaaaaaaaaa");
}

#[test]
fn reserved_block_type_rejected() {
    let mut w = BitWriter::new();
    w.put_bit(true);
    w.put_bits_lsb(3, 2); // BTYPE = 11, reserved
    w.align();
    let data = gzip_wrap(&w.bytes, b"");
    assert_eq!(
        decompress(data),
        Err(Error::Block(BlockError::ReservedBlockType))
    );
}

#[test]
fn truncated_stream_is_eof() {
    let mut data = gzip_stored(b"HELLO");
    data.truncate(data.len() - 10); // cut into the stored payload
    assert_eq!(decompress(data), Err(Error::Io(IoError::UnexpectedEof)));
}

#[test]
fn truncated_trailer_is_eof() {
    let mut data = gzip_stored(b"HELLO");
    data.truncate(data.len() - 3); // cut into the trailer
    assert_eq!(decompress(data), Err(Error::Io(IoError::UnexpectedEof)));
}

#[test]
fn flipped_trailer_crc_detected() {
    // Flipping one bit of the trailer CRC fails with Crc32Mismatch while
    // the decoded bytes themselves stay available and unchanged.
    let mut data = gzip_stored(b"HELLO");
    let n = data.len();
    data[n - 8] ^= 0x01;
    let (partial, err) = decompress_partial(data.clone());
    assert_eq!(partial, b"HELLO");
    assert_eq!(err, Some(Error::Trailer(TrailerError::Crc32Mismatch)));
    assert_eq!(
        decompress(data),
        Err(Error::Trailer(TrailerError::Crc32Mismatch))
    );
}

#[test]
fn wrong_isize_detected() {
    let mut data = gzip_stored(b"HELLO");
    let n = data.len();
    data[n - 1] ^= 0x80;
    assert_eq!(decompress(data), Err(Error::Trailer(TrailerError::SizeMismatch)));
}

#[test]
fn bad_magic_rejected() {
    let mut data = gzip_stored(b"HELLO");
    data[0] = 0x1d;
    assert_eq!(decompress(data), Err(Error::Format(FormatError::BadMagic)));
}

#[test]
fn short_wrong_magic_is_bad_magic() {
    // The signature is checked as soon as its two bytes are readable, so a
    // wrong magic is reported even when the rest of the header is missing.
    assert_eq!(
        decompress(vec![0x1d, 0x8b]),
        Err(Error::Format(FormatError::BadMagic))
    );
    // With only one byte not even the signature can be read.
    assert_eq!(decompress(vec![0x1f]), Err(Error::Io(IoError::UnexpectedEof)));
    // A correct signature with the header cut off is a truncation.
    assert_eq!(
        decompress(vec![0x1f, 0x8b, 8]),
        Err(Error::Io(IoError::UnexpectedEof))
    );
}

#[test]
fn unsupported_method_rejected() {
    let mut data = gzip_stored(b"HELLO");
    data[2] = 7;
    assert_eq!(
        decompress(data),
        Err(Error::Format(FormatError::UnsupportedMethod))
    );
}

#[test]
fn name_without_terminator_rejected() {
    let mut v = vec![0x1f, 0x8b, 8, 0x08, 0, 0, 0, 0, 0, 255];
    v.extend_from_slice(b"never-ending-name");
    assert_eq!(
        decompress(v),
        Err(Error::Header(HeaderError::MissingTerminator))
    );
}

#[test]
fn name_with_invalid_utf8_rejected() {
    let mut v = vec![0x1f, 0x8b, 8, 0x08, 0, 0, 0, 0, 0, 255];
    v.extend_from_slice(&[0xFF, 0x00]);
    v.extend_from_slice(&stored_body(b"x"));
    assert_eq!(decompress(v), Err(Error::Header(HeaderError::InvalidUtf8)));
}

#[test]
fn stored_length_mismatch_rejected() {
    let payload = b"HELLO";
    let len = payload.len() as u16;
    let mut body = vec![0x01];
    body.extend_from_slice(&len.to_le_bytes());
    body.extend_from_slice(&(!len ^ 0x0004).to_le_bytes()); // break NLEN
    body.extend_from_slice(payload);
    let data = gzip_wrap(&body, payload);
    assert_eq!(
        decompress(data),
        Err(Error::Block(BlockError::StoredLengthMismatch))
    );
}

#[test]
fn illegal_length_symbol_rejected() {
    // Literal/length symbol 286 has a fixed code (48 + 150 among the
    // 8-bit codes) but may never occur in data.
    let mut w = BitWriter::new();
    w.put_bit(true);
    w.put_bits_lsb(1, 2); // fixed
    w.put_code_msb(48 + 150, 8); // symbol 286
    w.align();
    let data = gzip_wrap(&w.bytes, b"");
    assert_eq!(
        decompress(data),
        Err(Error::Block(BlockError::InvalidLengthCode))
    );
}

#[test]
fn distance_before_any_output_rejected() {
    // A back-reference with nothing yet produced must fail: distance 1
    // exceeds the zero bytes of history.
    let mut w = BitWriter::new();
    w.put_bit(true);
    w.put_bits_lsb(1, 2); // fixed
    w.put_code_msb(8, 7); // length symbol 264
    w.put_code_msb(0, 5); // distance symbol 0: distance 1
    w.put_code_msb(0, 7);
    w.align();
    let data = gzip_wrap(&w.bytes, b"");
    assert_eq!(decompress(data), Err(Error::Block(BlockError::DistanceTooFar)));
}

#[test]
fn unassigned_huffman_code_rejected() {
    // The fixed distance table assigns 30 five-bit codes; the pattern of
    // all ones matches none of them at any length up to 15.
    let mut w = BitWriter::new();
    w.put_bit(true);
    w.put_bits_lsb(1, 2); // fixed
    w.put_code_msb(8, 7); // length symbol 264, then a distance code follows
    for _ in 0..18 {
        w.put_bit(true);
    }
    w.align();
    let data = gzip_wrap(&w.bytes, b"");
    assert_eq!(
        decompress(data),
        Err(Error::Block(BlockError::InvalidHuffmanCode))
    );
}

#[test]
fn oversubscribed_dynamic_code_rejected() {
    // A dynamic block whose code-length code oversubscribes its code
    // space: three one-bit lengths cannot form a prefix code.
    let mut w = BitWriter::new();
    w.put_bit(true);
    w.put_bits_lsb(2, 2); // dynamic
    w.put_bits_lsb(0, 5);
    w.put_bits_lsb(0, 5);
    w.put_bits_lsb(0, 4); // HCLEN: 4 entries, for symbols 16, 17, 18, 0
    w.put_bits_lsb(1, 3);
    w.put_bits_lsb(1, 3);
    w.put_bits_lsb(1, 3);
    w.put_bits_lsb(0, 3);
    w.align();
    let data = gzip_wrap(&w.bytes, b"");
    assert_eq!(
        decompress(data),
        Err(Error::Block(BlockError::InvalidCodeLengths))
    );
}

#[test]
fn empty_input_is_eof() {
    assert_eq!(decompress(Vec::new()), Err(Error::Io(IoError::UnexpectedEof)));
}
