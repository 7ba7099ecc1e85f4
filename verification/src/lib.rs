//! A pure, verified gzip (RFC 1952) / DEFLATE (RFC 1951) decoder.
//!
//! The crate owns the whole decoding pipeline: a bit-level cursor over the
//! input bytes, canonical Huffman table construction and symbol decoding,
//! the three DEFLATE block kinds (stored, fixed, dynamic), the LZ77
//! back-reference copier, and gzip header/trailer parsing with CRC-32 and
//! size verification. Callers hand it a byte sequence and receive the
//! decompressed payload or a typed error.

pub mod errors;
pub mod bits;
pub mod huffman;
pub mod window;
pub mod crc32;
pub mod block;
pub mod utf8;
pub mod gzip;
