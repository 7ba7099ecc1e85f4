use vstd::prelude::*;

verus! {

/// Errors in the gzip framing itself: the fixed signature or the
/// compression-method byte is wrong.
#[derive(Clone, Copy, Debug, PartialEq, Eq)]
pub enum FormatError {
    BadMagic,
    UnsupportedMethod,
}

/// Errors in the optional gzip header fields: a null-terminated field runs
/// past the end of the input, or a name/comment is not valid UTF-8.
#[derive(Clone, Copy, Debug, PartialEq, Eq)]
pub enum HeaderError {
    MissingTerminator,
    InvalidUtf8,
}

/// Errors inside the DEFLATE block stream.
#[derive(Clone, Copy, Debug, PartialEq, Eq)]
pub enum BlockError {
    ReservedBlockType,
    StoredLengthMismatch,
    InvalidCodeLengths,
    InvalidHuffmanCode,
    InvalidLengthCode,
    DistanceTooFar,
}

/// Errors in the gzip trailer check: checksum or size does not match the
/// decompressed bytes.
#[derive(Clone, Copy, Debug, PartialEq, Eq)]
pub enum TrailerError {
    Crc32Mismatch,
    SizeMismatch,
}

/// Errors of the underlying byte source: it ran out before the requested
/// bits or bytes were available, or a byte read was attempted off a byte
/// boundary.
#[derive(Clone, Copy, Debug, PartialEq, Eq)]
pub enum IoError {
    UnexpectedEof,
    ReadFailure,
}

/// The full error taxonomy of the decoder. Every failure is fatal to the
/// current gzip member; the caller decides whether to abandon the stream.
#[derive(Clone, Copy, Debug, PartialEq, Eq)]
pub enum Error {
    Format(FormatError),
    Header(HeaderError),
    Block(BlockError),
    Trailer(TrailerError),
    Io(IoError),
}

} // verus!
