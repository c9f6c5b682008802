//! The failure taxonomy shared by every layer, with its frozen numeric codes.

use vstd::prelude::*;

verus! {

/// Why an operation failed.
#[derive(Clone, Copy, Debug, PartialEq, Eq, Structural)]
pub enum ErrorKind {
    /// A caller-supplied length or buffer was invalid.
    Args,
    /// The entropy stream was insufficient, or a value did not fit its schema.
    Entropic,
    /// A structural violation of the packed encoding, or an unsupported kind.
    Encoding,
    /// The result, or the requested read, exceeds what is available.
    Truncated,
}

impl ErrorKind {
    /// The stable numeric code of this error: always negative, so that it can
    /// never be mistaken for a length.
    pub open spec fn spec_code(self) -> int {
        match self {
            ErrorKind::Args => -1,
            ErrorKind::Entropic => -2,
            ErrorKind::Encoding => -3,
            ErrorKind::Truncated => -4,
        }
    }

    /// Returns the numeric code reported across the boundary.
    pub fn code(self) -> (c: isize)
        ensures
            c == self.spec_code(),
            c < 0,
    {
        match self {
            ErrorKind::Args => -1,
            ErrorKind::Entropic => -2,
            ErrorKind::Encoding => -3,
            ErrorKind::Truncated => -4,
        }
    }

    /// The error with the given code, if there is one.
    pub fn from_code(code: isize) -> (r: Option<ErrorKind>)
        ensures
            match r {
                Some(e) => e.spec_code() == code,
                None => forall|e: ErrorKind| e.spec_code() != code,
            },
    {
        if code == -1 {
            Some(ErrorKind::Args)
        } else if code == -2 {
            Some(ErrorKind::Entropic)
        } else if code == -3 {
            Some(ErrorKind::Encoding)
        } else if code == -4 {
            Some(ErrorKind::Truncated)
        } else {
            None
        }
    }
}

} // verus!
