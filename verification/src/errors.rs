use vstd::prelude::*;

verus! {

/// Structural failure of a binary stream: the directory or a body does not
/// fit the bytes that are there.
#[derive(Clone, Copy, Debug, PartialEq, Eq, Structural)]
pub enum FormatError {
    /// The stream ended before the structure it announced.
    Truncated,
    /// A body carries the compressed marker but is smaller than the
    /// compressed variant's fixed overhead.
    InvalidBody,
}

/// Failure of the Shift-JIS text codec.
#[derive(Clone, Copy, Debug, PartialEq, Eq, Structural)]
pub enum EncodingError {
    /// The bytes are not a well-formed Shift-JIS sequence.
    Undecodable,
    /// The text has a character with no Shift-JIS encoding.
    Unencodable,
}

/// Failure while building an archive.
#[derive(Clone, Copy, Debug, PartialEq, Eq, Structural)]
pub enum BuildError {
    /// An entry name has a character with no Shift-JIS encoding.
    NameEncoding,
    /// An entry name's encoding does not leave room for the terminator in
    /// the fixed-width name field.
    NameTooLong,
    /// The serialized archive would not fit 32-bit offsets.
    TooLarge,
}

/// Failure of zlib decompression.
#[derive(Clone, Copy, Debug, PartialEq, Eq, Structural)]
pub enum CompressionError {
    /// The bytes are not a well-formed zlib stream.
    Malformed,
}

} // verus!
