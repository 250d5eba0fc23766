use vstd::prelude::*;

verus! {

/// The ways an operation on the object store can fail.
#[derive(Clone, Copy, Debug, PartialEq, Eq, Structural)]
pub enum ObjectError {
    /// The requested object or file does not exist.
    NotFound,
    /// Bytes that do not follow the object or tree layout.
    DecodeError,
    /// A filesystem read or write failed.
    IoError,
    /// A compressed stream is corrupt or truncated, or could not be produced.
    CompressionError,
}

} // verus!
