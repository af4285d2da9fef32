use vstd::prelude::*;
use vstd::std_specs::convert::FromSpecImpl;

verus! {

/// `std::io::Error` is carried through unchanged: nothing in the library
/// looks inside it.
#[verifier::external_type_specification]
#[verifier::external_body]
pub struct ExIoError(std::io::Error);

/// Why a conversion step failed.
#[derive(Debug)]
pub enum ProcessError {
    /// Reading or writing a file failed, or a line was not valid UTF-8.
    Io(std::io::Error),
    /// The input is not a WebVTT file of the accepted shape; the message
    /// says where and why.
    Parse(String),
}

/// What a `ProcessError` says, in terms contracts can speak of.
pub enum ErrorModel {
    Io(std::io::Error),
    Parse(Seq<char>),
}

impl ProcessError {
    pub open spec fn model(&self) -> ErrorModel {
        match self {
            ProcessError::Io(e) => ErrorModel::Io(*e),
            ProcessError::Parse(s) => ErrorModel::Parse(s@),
        }
    }
}

impl From<std::io::Error> for ProcessError {
    fn from(e: std::io::Error) -> (r: Self) {
        ProcessError::Io(e)
    }
}

impl FromSpecImpl<std::io::Error> for ProcessError {
    open spec fn obeys_from_spec() -> bool {
        true
    }

    open spec fn from_spec(e: std::io::Error) -> Self {
        ProcessError::Io(e)
    }
}

} // verus!
