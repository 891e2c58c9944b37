use vstd::prelude::*;

verus! {

/// The category of a failure.
#[derive(Debug, Clone, Copy, PartialEq, Eq, Structural)]
pub enum ErrorKind {
    Interrupted,
    WriteZero,
    NotFound,
    PermissionDenied,
    ConnectionRefused,
    ConnectionAborted,
    ConnectionReset,
    NotConnected,
    AddrInUse,
    AddrNotAvailable,
    BrokenPipe,
    AlreadyExists,
    WouldBlock,
    InvalidInput,
    InvalidFilename,
    InvalidData,
    TimedOut,
    Unsupported,
    UnexpectedEof,
    OutOfMemory,
    Other,
}

impl ErrorKind {
    /// The description that `as_str` gives for each kind.
    pub open spec fn text(self) -> Seq<char> {
        match self {
            ErrorKind::AddrInUse => "address in use"@,
            ErrorKind::AddrNotAvailable => "address not available"@,
            ErrorKind::AlreadyExists => "entity already exists"@,
            ErrorKind::BrokenPipe => "broken pipe"@,
            ErrorKind::ConnectionAborted => "connection aborted"@,
            ErrorKind::ConnectionRefused => "connection refused"@,
            ErrorKind::ConnectionReset => "connection reset"@,
            ErrorKind::Interrupted => "operation interrupted"@,
            ErrorKind::InvalidData => "invalid data"@,
            ErrorKind::InvalidFilename => "invalid filename"@,
            ErrorKind::InvalidInput => "invalid input parameter"@,
            ErrorKind::NotConnected => "not connected"@,
            ErrorKind::NotFound => "entity not found"@,
            ErrorKind::Other => "other error"@,
            ErrorKind::OutOfMemory => "out of memory"@,
            ErrorKind::PermissionDenied => "permission denied"@,
            ErrorKind::TimedOut => "timed out"@,
            ErrorKind::UnexpectedEof => "unexpected end of file"@,
            ErrorKind::Unsupported => "unsupported"@,
            ErrorKind::WouldBlock => "operation would block"@,
            ErrorKind::WriteZero => "write zero"@,
        }
    }

    /// A short human-readable description of the kind.
    pub fn as_str(&self) -> (r: &'static str)
        ensures
            r@ == self.text(),
    {
        match *self {
            ErrorKind::AddrInUse => "address in use",
            ErrorKind::AddrNotAvailable => "address not available",
            ErrorKind::AlreadyExists => "entity already exists",
            ErrorKind::BrokenPipe => "broken pipe",
            ErrorKind::ConnectionAborted => "connection aborted",
            ErrorKind::ConnectionRefused => "connection refused",
            ErrorKind::ConnectionReset => "connection reset",
            ErrorKind::Interrupted => "operation interrupted",
            ErrorKind::InvalidData => "invalid data",
            ErrorKind::InvalidFilename => "invalid filename",
            ErrorKind::InvalidInput => "invalid input parameter",
            ErrorKind::NotConnected => "not connected",
            ErrorKind::NotFound => "entity not found",
            ErrorKind::Other => "other error",
            ErrorKind::OutOfMemory => "out of memory",
            ErrorKind::PermissionDenied => "permission denied",
            ErrorKind::TimedOut => "timed out",
            ErrorKind::UnexpectedEof => "unexpected end of file",
            ErrorKind::Unsupported => "unsupported",
            ErrorKind::WouldBlock => "operation would block",
            ErrorKind::WriteZero => "write zero",
        }
    }
}

/// A failure of a filesystem operation: its kind and an optional message.
#[derive(Debug, Clone)]
pub struct Error {
    pub kind: ErrorKind,
    pub message: Option<String>,
}

impl Error {
    /// The kind this error was built with.
    pub open spec fn spec_kind(&self) -> ErrorKind {
        self.kind
    }

    /// The message this error carries, if any.
    pub open spec fn spec_message(&self) -> Option<Seq<char>> {
        match self.message {
            Some(m) => Some(m@),
            None => None,
        }
    }

    pub fn new_const(kind: ErrorKind, message: &'static str) -> (r: Error)
        ensures
            r.spec_kind() == kind,
            r.spec_message() == Some(message@),
    {
        Error { kind, message: Some(message.to_owned()) }
    }

    pub fn new(kind: ErrorKind, message: &str) -> (r: Error)
        ensures
            r.spec_kind() == kind,
            r.spec_message() == Some(message@),
    {
        Error { kind, message: Some(message.to_owned()) }
    }

    /// An error of the given kind without a message.
    pub fn from_kind(kind: ErrorKind) -> (r: Error)
        ensures
            r.spec_kind() == kind,
            r.spec_message().is_none(),
    {
        Error { kind, message: None }
    }

    pub fn kind(&self) -> (r: ErrorKind)
        ensures
            r == self.spec_kind(),
    {
        self.kind
    }

    /// The message, if the error was built with one.
    pub fn message(&self) -> (r: Option<&str>)
        ensures
            match r {
                Some(m) => self.spec_message() == Some(m@),
                None => self.spec_message().is_none(),
            },
    {
        match &self.message {
            Some(m) => Some(m.as_str()),
            None => None,
        }
    }

    /// The kind's description, followed by `": "` and the message when there is one.
    pub fn describe(&self) -> (r: String)
        ensures
            match self.spec_message() {
                Some(m) => r@ == self.kind.text() + seq![':', ' '] + m,
                None => r@ == self.kind.text(),
            },
    {
        let mut out = String::from_str(self.kind.as_str());
        match &self.message {
            Some(m) => {
                proof {
                    reveal_strlit(": ");
                }
                out.append(": ");
                out.append(m.as_str());
            },
            None => {},
        }
        out
    }
}

impl From<ErrorKind> for Error {
    fn from(kind: ErrorKind) -> (r: Error) {
        Error { kind, message: None }
    }
}

impl vstd::std_specs::convert::FromSpecImpl<ErrorKind> for Error {
    open spec fn obeys_from_spec() -> bool {
        true
    }

    open spec fn from_spec(kind: ErrorKind) -> Error {
        Error { kind, message: None }
    }
}

/// Why a recursive copy between two filesystems failed.
#[derive(Debug, Clone)]
pub enum CopyError {
    /// Reading or writing a path failed.
    Io(Error),
    /// A directory cannot be copied onto a file.
    InvalidPath,
}

} // verus!
