//! Status codes carried on the wire and the error type built on them.

use vstd::prelude::*;
use vstd::string::*;

verus! {

/// The outcome codes of the protocol: a closed set, one byte each on the wire.
#[derive(Debug, Copy, Clone, PartialEq, Eq, Structural)]
pub enum StatusCode {
    OK,
    IOError,
    UnknownAction,
    EngineError,
    NotFound,
    /// Ends a stream of scanned entries; not a failure.
    Complete,
    /// Stands for every byte that names no other code.
    UnknownStatusCode,
}

impl StatusCode {
    /// The byte that carries this code.
    pub open spec fn spec_to_u8(self) -> u8 {
        match self {
            StatusCode::OK => 0,
            StatusCode::IOError => 1,
            StatusCode::UnknownAction => 2,
            StatusCode::EngineError => 3,
            StatusCode::NotFound => 4,
            StatusCode::Complete => 5,
            StatusCode::UnknownStatusCode => 255,
        }
    }

    /// The code that a byte carries.
    pub open spec fn spec_from_u8(code: u8) -> StatusCode {
        if code == 0 {
            StatusCode::OK
        } else if code == 1 {
            StatusCode::IOError
        } else if code == 2 {
            StatusCode::UnknownAction
        } else if code == 3 {
            StatusCode::EngineError
        } else if code == 4 {
            StatusCode::NotFound
        } else if code == 5 {
            StatusCode::Complete
        } else {
            StatusCode::UnknownStatusCode
        }
    }

    /// The name of this code, as it is shown to users.
    pub open spec fn spec_name(self) -> Seq<char> {
        match self {
            StatusCode::OK => "OK"@,
            StatusCode::IOError => "IOError"@,
            StatusCode::UnknownAction => "UnknownAction"@,
            StatusCode::EngineError => "EngineError"@,
            StatusCode::NotFound => "NotFound"@,
            StatusCode::Complete => "Complete"@,
            StatusCode::UnknownStatusCode => "UnknownStatusCode"@,
        }
    }

    /// The byte that carries this code.
    pub fn to_u8(self) -> (byte: u8)
        ensures
            byte == self.spec_to_u8(),
    {
        match self {
            StatusCode::OK => 0,
            StatusCode::IOError => 1,
            StatusCode::UnknownAction => 2,
            StatusCode::EngineError => 3,
            StatusCode::NotFound => 4,
            StatusCode::Complete => 5,
            StatusCode::UnknownStatusCode => 255,
        }
    }

    /// The name of this code.
    pub fn to_string(&self) -> (name: String)
        ensures
            name@ == self.spec_name(),
    {
        match self {
            StatusCode::OK => "OK".to_owned(),
            StatusCode::IOError => "IOError".to_owned(),
            StatusCode::UnknownAction => "UnknownAction".to_owned(),
            StatusCode::EngineError => "EngineError".to_owned(),
            StatusCode::NotFound => "NotFound".to_owned(),
            StatusCode::Complete => "Complete".to_owned(),
            StatusCode::UnknownStatusCode => "UnknownStatusCode".to_owned(),
        }
    }
}

impl From<u8> for StatusCode {
    /// Decodes a status byte; no byte fails to decode.
    fn from(code: u8) -> (status: StatusCode) {
        match code {
            0 => StatusCode::OK,
            1 => StatusCode::IOError,
            2 => StatusCode::UnknownAction,
            3 => StatusCode::EngineError,
            4 => StatusCode::NotFound,
            5 => StatusCode::Complete,
            _ => StatusCode::UnknownStatusCode,
        }
    }
}

impl vstd::std_specs::convert::FromSpecImpl<u8> for StatusCode {
    open spec fn obeys_from_spec() -> bool {
        true
    }

    open spec fn from_spec(code: u8) -> StatusCode {
        StatusCode::spec_from_u8(code)
    }
}

/// Every code comes back from the byte that carries it.
pub proof fn lemma_status_byte_round_trip(status: StatusCode)
    ensures
        StatusCode::spec_from_u8(status.spec_to_u8()) == status,
{
}

/// A byte outside the known range decodes to the catch-all code, and only
/// such a byte or the reserved one does.
pub proof fn lemma_unknown_status_bytes(code: u8)
    ensures
        StatusCode::spec_from_u8(code) == StatusCode::UnknownStatusCode <==> code > 5,
        code <= 5 ==> StatusCode::spec_from_u8(code).spec_to_u8() == code,
{
}

/// A failure: the status code that names its kind, and a message.
#[derive(Debug)]
pub struct Error {
    pub code: StatusCode,
    pub message: String,
}

impl Clone for Error {
    fn clone(&self) -> (copy: Error)
        ensures
            copy == *self,
    {
        Error { code: self.code, message: self.message.clone() }
    }
}

impl Error {
    /// What `to_string` shows: the code's name, a colon and the message.
    pub open spec fn spec_to_string(self) -> Seq<char> {
        self.code.spec_name() + ": "@ + self.message@
    }

    /// An error of the given kind.
    pub fn new(code: StatusCode, message: &str) -> (error: Error)
        ensures
            error.code == code,
            error.message@ == message@,
    {
        Error { code, message: message.to_owned() }
    }

    /// The code's name, a colon and the message.
    pub fn to_string(&self) -> (text: String)
        ensures
            text@ == self.spec_to_string(),
    {
        let mut text = self.code.to_string();
        text.append(": ");
        text.append(self.message.as_str());
        text
    }
}

/// A failure of input or output, as std reports it.
#[verifier::external_type_specification]
#[verifier::external_body]
pub struct ExIoError(std::io::Error);

impl From<std::io::Error> for Error {
    /// A failure of input or output becomes an error with the code
    /// `IOError` and std's description as its message.
    fn from(error: std::io::Error) -> (converted: Error)
        ensures
            converted.code == StatusCode::IOError,
    {
        Error { code: StatusCode::IOError, message: error.to_string() }
    }
}

impl vstd::std_specs::convert::FromSpecImpl<std::io::Error> for Error {
    open spec fn obeys_from_spec() -> bool {
        false
    }

    open spec fn from_spec(error: std::io::Error) -> Error {
        arbitrary()
    }
}

/// The failure of a lock whose holder panicked, as std reports it.
#[verifier::external_type_specification]
#[verifier::external_body]
#[verifier::reject_recursive_types(T)]
pub struct ExPoisonError<T>(std::sync::PoisonError<T>);

impl<T> From<std::sync::PoisonError<T>> for Error {
    /// The failure of a lock becomes an error with the code `EngineError`
    /// and std's description as its message.
    fn from(error: std::sync::PoisonError<T>) -> (converted: Error)
        ensures
            converted.code == StatusCode::EngineError,
    {
        Error { code: StatusCode::EngineError, message: error.to_string() }
    }
}

impl<T> vstd::std_specs::convert::FromSpecImpl<std::sync::PoisonError<T>> for Error {
    open spec fn obeys_from_spec() -> bool {
        false
    }

    open spec fn from_spec(error: std::sync::PoisonError<T>) -> Error {
        arbitrary()
    }
}

} // verus!
