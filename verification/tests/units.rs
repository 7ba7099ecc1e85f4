use gunzip::bits::BitReader;
use gunzip::crc32::ChecksumVerifier;
use gunzip::errors::{BlockError, Error, IoError};
use gunzip::huffman::HuffmanTable;
use gunzip::window::OutputWindow;

#[test]
fn bits_are_read_lsb_first() {
    let mut r = BitReader::new(vec![0b1011_0100]);
    let expected = [false, false, true, false, true, true, false, true];
    for &e in expected.iter() {
        assert_eq!(r.read_bit().unwrap(), e);
    }
    assert_eq!(r.read_bit(), Err(Error::Io(IoError::UnexpectedEof)));
}

#[test]
fn fixed_width_fields_accumulate_lsb_first() {
    let mut r = BitReader::new(vec![0b1011_0100, 0b0000_0110]);
    assert_eq!(r.read_bits(3).unwrap(), 0b100);
    assert_eq!(r.read_bits(5).unwrap(), 0b10110);
    assert_eq!(r.read_bits(3).unwrap(), 0b110);
    assert_eq!(r.read_bits(16), Err(Error::Io(IoError::UnexpectedEof)));
}

#[test]
fn peek_does_not_consume() {
    let r = BitReader::new(vec![0xA5]);
    assert_eq!(r.peek_bits(4).unwrap(), 0x5);
    assert_eq!(r.peek_bits(8).unwrap(), 0xA5);
}

#[test]
fn align_discards_partial_byte() {
    let mut r = BitReader::new(vec![0xFF, 0x42]);
    r.read_bit().unwrap();
    r.align_to_byte();
    assert_eq!(r.read_bytes(1).unwrap(), vec![0x42]);
}

#[test]
fn unaligned_byte_read_fails() {
    let mut r = BitReader::new(vec![0xFF, 0x42]);
    r.read_bit().unwrap();
    assert_eq!(r.read_bytes(1), Err(Error::Io(IoError::ReadFailure)));
}

#[test]
fn byte_reads_are_sequential() {
    let mut r = BitReader::new(vec![1, 2, 3, 4, 5]);
    assert_eq!(r.read_bytes(2).unwrap(), vec![1, 2]);
    assert_eq!(r.read_u16_le().unwrap(), 0x0403);
    assert_eq!(r.read_bytes(2), Err(Error::Io(IoError::UnexpectedEof)));
}

#[test]
fn canonical_codes_are_assigned_in_order() {
    // Lengths [2,1,3,3]: symbol 1 gets the one-bit code 0; symbol 0 the
    // two-bit code 10; symbols 2 and 3 the three-bit codes 110 and 111.
    let t = HuffmanTable::build(vec![2, 1, 3, 3]).unwrap();
    let mut r = BitReader::new(vec![0b0000_0000]);
    assert_eq!(t.decode_symbol(&mut r).unwrap(), 1);
    // Codes arrive most-significant bit first: 111 -> bits 1,1,1.
    let mut r = BitReader::new(vec![0b0000_0111]);
    assert_eq!(t.decode_symbol(&mut r).unwrap(), 3);
    let mut r = BitReader::new(vec![0b0000_0011]); // 110
    assert_eq!(t.decode_symbol(&mut r).unwrap(), 2);
    let mut r = BitReader::new(vec![0b0000_0001]); // 10
    assert_eq!(t.decode_symbol(&mut r).unwrap(), 0);
}

#[test]
fn oversubscribed_lengths_rejected() {
    assert!(matches!(
        HuffmanTable::build(vec![1, 1, 1]),
        Err(Error::Block(BlockError::InvalidCodeLengths))
    ));
    assert!(matches!(
        HuffmanTable::build(vec![2, 2, 2, 2, 1]),
        Err(Error::Block(BlockError::InvalidCodeLengths))
    ));
}

#[test]
fn incomplete_code_builds_but_unassigned_bits_fail() {
    // A single two-bit code leaves most of the code space unassigned.
    let t = HuffmanTable::build(vec![2]).unwrap();
    let mut r = BitReader::new(vec![0b0000_0000]);
    assert_eq!(t.decode_symbol(&mut r).unwrap(), 0);
    let mut r = BitReader::new(vec![0xFF, 0xFF]);
    assert_eq!(
        t.decode_symbol(&mut r),
        Err(Error::Block(BlockError::InvalidHuffmanCode))
    );
}

#[test]
fn crc32_check_value() {
    // The standard CRC-32 check value.
    let mut c = ChecksumVerifier::new();
    for &b in b"123456789" {
        c.update(b);
    }
    assert_eq!(c.finalize(), 0xCBF43926);
}

#[test]
fn crc32_of_empty_is_zero() {
    let c = ChecksumVerifier::new();
    assert_eq!(c.finalize(), 0);
}

#[test]
fn window_overlapping_copy() {
    let mut w = OutputWindow::new();
    w.append(b'a');
    w.copy_back(1, 10);
    let out = w.into_bytes();
    assert_eq!(out, vec![b'a'; 11]);
}

#[test]
fn window_copy_from_history() {
    let mut w = OutputWindow::new();
    for &b in b"abcdef" {
        w.append(b);
    }
    w.copy_back(6, 4);
    assert_eq!(w.into_bytes(), b"abcdefabcd");
}
