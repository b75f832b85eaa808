//! The ways an extraction can fail.
use vstd::prelude::*;

verus! {

/// The first failure met by an extraction; each variant carries its cause.
#[derive(Debug)]
pub enum DecompressError {
    /// The compressed stream was rejected by the codec.
    DecodeError(std::io::Error),
    /// The decompressed bytes are no well-formed tar archive.
    ContainerFormatError(std::io::Error),
    /// The chosen entry is not valid UTF-8.
    TextDecodeError(std::string::FromUtf8Error),
    /// The path of an entry could not be read.
    MissingMetadata(std::io::Error),
}

} // verus!
