use vstd::prelude::*;

verus! {

/// Why an I/O operation on an archive's byte stream could not complete.
#[derive(Debug, Clone, Copy, PartialEq, Eq, Structural)]
pub enum IoErrorKind {
    /// The stream ended before the requested number of bytes.
    UnexpectedEof,
    /// A seek was asked to move before the start of the stream, or past what a
    /// position can hold.
    InvalidInput,
}

/// The two ways a transcoding can fail.
#[derive(Debug)]
pub enum Error {
    /// The byte stream did not deliver what was asked of it.
    IoError(IoErrorKind),
    /// The bytes, or the value being written, break a rule of the encoding.
    ValueError(String),
}

/// Wraps a stream failure as an error of this library.
pub fn io_error<T>(kind: IoErrorKind) -> (r: Result<T, Error>)
    ensures
        r matches Err(Error::IoError(k)) && k == kind,
{
    Err(Error::IoError(kind))
}

/// A value error carrying `message`.
pub fn value_error<T>(message: &str) -> (r: Result<T, Error>)
    ensures
        r matches Err(Error::ValueError(m)) && m@ == message@,
{
    Err(Error::ValueError(String::from_str(message)))
}

} // verus!
