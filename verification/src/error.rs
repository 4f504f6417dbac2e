//! Error taxonomy shared by the archive reader, the codec pipeline and
//! the packer.

use vstd::prelude::*;

verus! {

/// Everything that can go wrong while reading an archive or decoding a
/// blob. I/O failures are reported by the caller that performs the I/O
/// and carry no payload here.
#[derive(Debug, Clone, PartialEq, Eq)]
pub enum ArcError {
    /// A filesystem operation failed (raised by callers doing I/O).
    Io,
    /// The input is not the expected codec: bad magic, short buffer, or
    /// end of stream inside a field.
    InvalidFormat,
    /// An archive accessor was called with an index past the entry count.
    IndexOutOfBounds(u32, u32),
    /// An entry name did not decode as text.
    InvalidFileName,
    /// The BSE checksum validation failed after descrambling.
    BseDecryptError,
    /// The DSC code-length table, tree or bit stream is inconsistent.
    DscDecryptError,
    /// The CBG keystream checksum failed or the stream is malformed.
    CbgDecryptError,
    /// The PNG encoder failed (raised by callers doing I/O).
    PngProcessError,
    /// The packer was handed a blob type it cannot pack.
    UnsupportedFileType(String),
}

pub type ArcResult<T> = Result<T, ArcError>;

} // verus!
