//! The one error type of the library: each kind of failure that can reach a
//! caller.

use vstd::prelude::*;
use vstd::string::*;

use crate::duration;

verus! {

/// What went wrong.
#[derive(Debug, PartialEq)]
pub enum Error {
    /// A stream could not be read or written, or the endpoint could not be
    /// bound or removed.
    IOError,
    /// Bytes were not valid UTF-8.
    Utf8Error,
    /// An owned buffer was not valid UTF-8.
    FromUtf8Error,
    /// Text was not valid JSON.
    SerdeError,
    /// The clock went backwards.
    SystemTimeError,
    /// A duration could not be read.
    DurationError(duration::Error),
    /// The peer of a channel is gone.
    SendError,
    /// Every sender of a channel is gone.
    RecvError,
    /// A frame, an argument list or a value has the wrong shape.
    Malformed,
    /// A reply came that the caller did not wait for.
    Unexpected,
    /// A key or a path segment is absent.
    NotFound,
    /// The service could not be started.
    ServiceError,
    /// The service answered with an error, perhaps with a message.
    RemoteError(Option<String>),
}

impl Error {
    /// The text that describes the error.
    pub open spec fn text(&self) -> Seq<char> {
        match self {
            Error::IOError => "I/O error"@,
            Error::Utf8Error => "Invalid UTF-8"@,
            Error::FromUtf8Error => "Invalid UTF-8"@,
            Error::SerdeError => "Invalid JSON"@,
            Error::SystemTimeError => "Clock error"@,
            Error::DurationError(e) => e.text(),
            Error::SendError => "Could not send"@,
            Error::RecvError => "Could not receive"@,
            Error::Malformed => "Malformed"@,
            Error::Unexpected => "Unexpected"@,
            Error::NotFound => "Not found"@,
            Error::ServiceError => "Service error"@,
            Error::RemoteError(None) => "Remote error"@,
            Error::RemoteError(Some(m)) => "Remote error: "@ + m@,
        }
    }

    /// The text that describes the error.
    pub fn message(&self) -> (r: String)
        ensures
            r@ == self.text(),
    {
        match self {
            Error::IOError => String::from_str("I/O error"),
            Error::Utf8Error => String::from_str("Invalid UTF-8"),
            Error::FromUtf8Error => String::from_str("Invalid UTF-8"),
            Error::SerdeError => String::from_str("Invalid JSON"),
            Error::SystemTimeError => String::from_str("Clock error"),
            Error::DurationError(e) => e.message(),
            Error::SendError => String::from_str("Could not send"),
            Error::RecvError => String::from_str("Could not receive"),
            Error::Malformed => String::from_str("Malformed"),
            Error::Unexpected => String::from_str("Unexpected"),
            Error::NotFound => String::from_str("Not found"),
            Error::ServiceError => String::from_str("Service error"),
            Error::RemoteError(None) => String::from_str("Remote error"),
            Error::RemoteError(Some(m)) => String::from_str("Remote error: ").concat(m.as_str()),
        }
    }
}

} // verus!
