use vstd::prelude::*;

verus! {

/// The ways in which decoding a buffer can fail.
#[derive(Debug, Clone, Copy, PartialEq, Eq, Structural)]
pub enum Error {
    /// The input ends before the format says it should.
    UnexpectedEof,
    /// A variable-length integer does not terminate within ten bytes.
    Overflow,
    /// A length precondition of a higher layer does not hold.
    KeyLength,
    /// Padding bytes do not match the expected fill pattern.
    KeyPadding,
    /// A looked-up key is absent.
    KeyNotFound,
}

impl Error {
    /// Returns a copy of the error when it carries no I/O condition:
    /// `UnexpectedEof` and `Overflow` report a malformed input stream and
    /// are not duplicated.
    pub fn maybe_clone(&self) -> (r: Option<Error>)
        ensures
            r == (match *self {
                Error::UnexpectedEof | Error::Overflow => None,
                _ => Some(*self),
            }),
    {
        match *self {
            Error::KeyLength => Some(Error::KeyLength),
            Error::KeyPadding => Some(Error::KeyPadding),
            Error::KeyNotFound => Some(Error::KeyNotFound),
            Error::UnexpectedEof | Error::Overflow => None,
        }
    }

    /// The error for an input that ends too early.
    pub fn unexpected_eof() -> (r: Error)
        ensures
            r == Error::UnexpectedEof,
    {
        Error::UnexpectedEof
    }
}

pub type Result<T> = core::result::Result<T, Error>;

} // verus!
