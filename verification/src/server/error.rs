//! Errors that come up while requests are handled.
use vstd::prelude::*;
use crate::text::{decimal, to_decimal};

verus! {

/// An error that a client can be told of.
pub trait ProtocolError {
    /// The object that the error is about and the error code. None if the client
    /// is not told.
    spec fn spec_wayland_error(&self) -> Option<(u32, u32)>;

    /// The client is disconnected.
    spec fn spec_fatal(&self) -> bool;

    /// What the error says.
    spec fn spec_message(&self) -> Seq<char>;

    /// The object that the error is about and the error code. None if the client
    /// is not told.
    fn wayland_error(&self) -> (r: Option<(u32, u32)>)
        ensures
            r == self.spec_wayland_error(),
    ;

    /// Tells whether the client is disconnected.
    fn fatal(&self) -> (r: bool)
        ensures
            r == self.spec_fatal(),
    ;

    /// What the error says.
    fn message(&self) -> (r: String)
        ensures
            r@ == self.spec_message(),
    ;
}

/// The error of `wl_display` for an object that is not there.
pub const INVALID_OBJECT: u32 = 0;

/// The error of `wl_display` for a request that makes no sense.
pub const INVALID_METHOD: u32 = 1;

/// Why a request failed.
#[derive(Clone, Debug)]
pub enum Error {
    /// The request could not be read, for the given reason.
    Deserialization(String),
    /// The connection to the client failed, for the given reason.
    Io(String),
    /// An id sent by the client is already in use.
    IdExists(u32),
    UnknownGlobal(u32),
    UnknownObject(u32),
    /// Another error, and what it says.
    Custom { source: String, object_id_and_code: Option<(u32, u32)>, fatal: bool },
}

impl Error {
    /// This is another error, with all that a client can be told of it.
    pub open spec fn is_custom(
        self,
        source: Seq<char>,
        object_id_and_code: Option<(u32, u32)>,
        fatal: bool,
    ) -> bool {
        match self {
            Error::Custom { source: s, object_id_and_code: o, fatal: f } => {
                s@ == source && o == object_id_and_code && f == fatal
            },
            _ => false,
        }
    }

    /// Keeps what a client can be told of another error.
    pub fn custom<E: ProtocolError>(e: &E) -> (r: Error)
        ensures
            r.is_custom(e.spec_message(), e.spec_wayland_error(), e.spec_fatal()),
    {
        Error::Custom { source: e.message(), object_id_and_code: e.wayland_error(), fatal: e.fatal() }
    }
}

impl ProtocolError for Error {
    open spec fn spec_wayland_error(&self) -> Option<(u32, u32)> {
        match *self {
            Error::Deserialization(_) => Some((1, INVALID_METHOD)),
            Error::IdExists(_) | Error::UnknownGlobal(_) | Error::UnknownObject(_) => Some((1, INVALID_OBJECT)),
            Error::Custom { object_id_and_code, .. } => object_id_and_code,
            Error::Io(_) => None,
        }
    }

    open spec fn spec_fatal(&self) -> bool {
        match *self {
            Error::Custom { fatal, .. } => fatal,
            _ => true,
        }
    }

    open spec fn spec_message(&self) -> Seq<char> {
        match *self {
            Error::Deserialization(reason) => "Deserialization error: "@ + reason@,
            Error::Io(reason) => "I/O error: "@ + reason@,
            Error::IdExists(id) => "NewId "@ + decimal(id as nat) + " sent by the client is already in use"@,
            Error::UnknownGlobal(name) => "Unknown Global: "@ + decimal(name as nat),
            Error::UnknownObject(id) => "Unknown object: "@ + decimal(id as nat),
            Error::Custom { source, .. } => source@,
        }
    }

    fn wayland_error(&self) -> (r: Option<(u32, u32)>) {
        match self {
            Error::Deserialization(_) => Some((1, INVALID_METHOD)),
            Error::IdExists(_) | Error::UnknownGlobal(_) | Error::UnknownObject(_) => Some((1, INVALID_OBJECT)),
            Error::Custom { object_id_and_code, .. } => *object_id_and_code,
            // We had an I/O error communicating with the client, so we better not
            // send anything further.
            Error::Io(_) => None,
        }
    }

    fn fatal(&self) -> (r: bool) {
        match self {
            Error::Custom { fatal, .. } => *fatal,
            _ => true,
        }
    }

    fn message(&self) -> (r: String) {
        match self {
            Error::Deserialization(reason) => "Deserialization error: ".to_owned().concat(reason.as_str()),
            Error::Io(reason) => "I/O error: ".to_owned().concat(reason.as_str()),
            Error::IdExists(id) => "NewId ".to_owned().concat(to_decimal(*id).as_str()).concat(
                " sent by the client is already in use",
            ),
            Error::UnknownGlobal(name) => "Unknown Global: ".to_owned().concat(to_decimal(*name).as_str()),
            Error::UnknownObject(id) => "Unknown object: ".to_owned().concat(to_decimal(*id).as_str()),
            Error::Custom { source, .. } => source.as_str().to_owned(),
        }
    }
}

/// What is told to a client of an error: the object it is about, its code, and
/// what it says.
#[derive(Clone, Debug, PartialEq, Eq)]
pub struct ErrorEvent {
    pub object_id: u32,
    pub code: u32,
    pub message: String,
}

impl View for ErrorEvent {
    type V = (u32, u32, Seq<char>);

    open spec fn view(&self) -> (u32, u32, Seq<char>) {
        (self.object_id, self.code, self.message@)
    }
}

/// What to send after a request was dispatched.
pub open spec fn spec_error_event(result: Result<(), Error>) -> Option<(u32, u32, Seq<char>)> {
    match result {
        Ok(_) => None,
        Err(e) => match e.spec_wayland_error() {
            Some((object_id, code)) => Some((object_id, code, e.spec_message())),
            None => None,
        },
    }
}

/// The error event that a client is sent after its request was dispatched.
pub fn error_event(result: &Result<(), Error>) -> (r: Option<ErrorEvent>)
    ensures
        match r {
            Some(event) => spec_error_event(*result) == Some(event@),
            None => spec_error_event(*result) is None,
        },
{
    match result {
        Ok(_) => None,
        Err(e) => match e.wayland_error() {
            Some((object_id, code)) => Some(ErrorEvent { object_id, code, message: e.message() }),
            None => None,
        },
    }
}

/// What is left to do after a request was dispatched.
#[derive(Clone, Copy, Debug)]
pub struct DispatchEnd {
    /// The client is disconnected.
    pub fatal: bool,
    /// How many bytes and file descriptors are consumed from the connection.
    pub consume: Option<(usize, usize)>,
}

/// Ends the dispatch of a request. The client is disconnected after a fatal
/// error, if it could not be told of an error, or if the request was longer or
/// shorter than it said. What was read is consumed unless the client is
/// disconnected by an error.
pub fn finish_dispatch(
    result: &Result<(), Error>,
    send_failed: bool,
    len: usize,
    bytes_read: usize,
    fds_read: usize,
) -> (r: DispatchEnd)
    ensures
        ({
            let failed = (*result matches Err(e) && e.spec_fatal()) || (spec_error_event(*result) is Some && send_failed);
            &&& r.fatal == (failed || bytes_read != len)
            &&& r.consume == if failed {
                None
            } else {
                Some((bytes_read, fds_read))
            }
        }),
{
    let mut fatal = match result {
        Ok(_) => false,
        Err(e) => e.fatal(),
    };
    if error_event(result).is_some() && send_failed {
        fatal = true;
    }
    if fatal {
        DispatchEnd { fatal: true, consume: None }
    } else {
        DispatchEnd { fatal: bytes_read != len, consume: Some((bytes_read, fds_read)) }
    }
}

} // verus!
