//! The library's error type.

use vstd::prelude::*;

verus! {

#[verifier::external_type_specification]
#[verifier::external_body]
pub struct ExIoError(std::io::Error);

/// Errors reported by the library and its applets.
#[derive(Debug)]
pub enum ProteusError {
    Io(std::io::Error),
    InvalidArgument(String),
    Other(String),
}

pub type ProteusResult<T> = Result<T, ProteusError>;

impl From<std::io::Error> for ProteusError {
    fn from(e: std::io::Error) -> (r: Self) {
        ProteusError::Io(e)
    }
}

impl vstd::std_specs::convert::FromSpecImpl<std::io::Error> for ProteusError {
    open spec fn obeys_from_spec() -> bool {
        true
    }

    open spec fn from_spec(v: std::io::Error) -> Self {
        ProteusError::Io(v)
    }
}

impl ProteusError {
    /// True when this is an `InvalidArgument` error whose message is `msg`.
    pub open spec fn is_invalid_argument(&self, msg: Seq<char>) -> bool {
        match self {
            ProteusError::InvalidArgument(m) => m@ == msg,
            _ => false,
        }
    }

    /// True when this is an `Other` error whose message is `msg`.
    pub open spec fn is_other(&self, msg: Seq<char>) -> bool {
        match self {
            ProteusError::Other(m) => m@ == msg,
            _ => false,
        }
    }
}

/// The text of an I/O error, as its `Display` writes it. Nothing is stated
/// of it: it comes from the operating system's description of the error.
#[verifier::external_body]
fn io_error_text(e: &std::io::Error) -> String {
    format!("{e}")
}

impl ProteusError {
    /// The error's message: the I/O error's own text, `invalid argument: `
    /// before the message of an invalid argument, or the message.
    pub fn message(&self) -> (r: String)
        ensures
            match self {
                ProteusError::Io(_) => true,
                ProteusError::InvalidArgument(m) => r@ == "invalid argument: "@ + m@,
                ProteusError::Other(m) => r@ == m@,
            },
    {
        match self {
            ProteusError::Io(e) => io_error_text(e),
            ProteusError::InvalidArgument(m) => crate::text::concat_str("invalid argument: ", m.as_str()),
            ProteusError::Other(m) => {
                proof {
                    reveal_strlit("");
                }
                crate::text::concat_str(m.as_str(), "")
            },
        }
    }

    /// The I/O error beneath this one, if it is one.
    pub fn source(&self) -> (r: Option<&std::io::Error>)
        ensures
            match self {
                ProteusError::Io(e) => r == Some(e),
                _ => r is None,
            },
    {
        match self {
            ProteusError::Io(e) => Some(e),
            _ => None,
        }
    }
}

} // verus!
