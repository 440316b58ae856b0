//! Everything that can go wrong inside the core, in a few cases the UI can react to.
use vstd::prelude::*;

use crate::text::push_str;
use crate::vpath::{spec_display, VPath};

verus! {

/// Everything that can go wrong inside the core.
#[derive(Debug)]
pub enum Error {
    NotFound(VPath),
    PermissionDenied(VPath),
    NotADirectory(VPath),
    AlreadyExists(VPath),
    /// A rename that would have to move data between two different disks.
    CrossesDevices(VPath),
    /// Something that makes no sense, e.g. copying a folder into itself.
    InvalidOperation(String),
    Trash { path: VPath, message: String },
    /// An archive couldn't be opened or read.
    Archive { path: VPath, message: String },
    /// The folder exists but can't be watched for changes.
    Watch { path: VPath, message: String },
    /// The user cancelled the job.
    Cancelled,
    /// Text that can't be turned into a valid [`VPath`] or file name.
    InvalidPath(String),
    /// The backend can't handle this kind of path.
    Unsupported { backend: String, path: VPath },
    /// Any other failure of the operating system, with its description.
    Io { path: VPath, message: String },
    /// A background task crashed or was cancelled.
    Task(String),
    /// A remote path whose server has no open connection.
    NotConnected(VPath),
    /// Connecting to a server failed: it couldn't be reached, the handshake
    /// failed, or it refused who we said we were.
    Remote { authority: String, message: String },
}

pub type Result<T> = std::result::Result<T, Error>;

/// The kinds of operating-system failure the core tells apart.
#[derive(Debug, Clone, Copy, PartialEq, Eq)]
pub enum IoErrorKind {
    NotFound,
    PermissionDenied,
    NotADirectory,
    AlreadyExists,
    CrossesDevices,
    Other,
}


impl Error {
    /// Translates an operating-system failure on `path`, of the given kind and
    /// description, into the few cases the UI can react to.
    pub fn from_io(path: &VPath, kind: IoErrorKind, message: String) -> (r: Error)
        ensures
            match kind {
                IoErrorKind::NotFound => r matches Error::NotFound(p) && p@ == path@,
                IoErrorKind::PermissionDenied => r matches Error::PermissionDenied(p) && p@ == path@,
                IoErrorKind::NotADirectory => r matches Error::NotADirectory(p) && p@ == path@,
                IoErrorKind::AlreadyExists => r matches Error::AlreadyExists(p) && p@ == path@,
                IoErrorKind::CrossesDevices => r matches Error::CrossesDevices(p) && p@ == path@,
                IoErrorKind::Other => r matches Error::Io { path: p, message: m } && p@ == path@ && m@ == message@,
            },
    {
        let path = path.clone();
        match kind {
            IoErrorKind::NotFound => Error::NotFound(path),
            IoErrorKind::PermissionDenied => Error::PermissionDenied(path),
            IoErrorKind::NotADirectory => Error::NotADirectory(path),
            IoErrorKind::AlreadyExists => Error::AlreadyExists(path),
            IoErrorKind::CrossesDevices => Error::CrossesDevices(path),
            IoErrorKind::Other => Error::Io { path, message },
        }
    }

    /// The message shown for this error.
    pub fn to_string(&self) -> (r: String)
        ensures
            r@ == error_text(*self),
    {
        let mut out = String::new();
        proof {
            reveal_strlit("not found: ");
            reveal_strlit("permission denied: ");
            reveal_strlit("not a directory: ");
            reveal_strlit("already exists: ");
            reveal_strlit("can't rename across devices: ");
            reveal_strlit("couldn't move ");
            reveal_strlit(" to the trash: ");
            reveal_strlit("can't read the archive ");
            reveal_strlit(": ");
            reveal_strlit("can't watch ");
            reveal_strlit(" for changes: ");
            reveal_strlit("cancelled");
            reveal_strlit("invalid path: ");
            reveal_strlit(" can't open ");
            reveal_strlit("I/O error on ");
            reveal_strlit("background task failed: ");
            reveal_strlit("not connected: ");
            reveal_strlit("can't connect to ");
        }
        match self {
            Error::NotFound(p) => {
                push_str(&mut out, "not found: ");
                push_str(&mut out, p.to_string().as_str());
            },
            Error::PermissionDenied(p) => {
                push_str(&mut out, "permission denied: ");
                push_str(&mut out, p.to_string().as_str());
            },
            Error::NotADirectory(p) => {
                push_str(&mut out, "not a directory: ");
                push_str(&mut out, p.to_string().as_str());
            },
            Error::AlreadyExists(p) => {
                push_str(&mut out, "already exists: ");
                push_str(&mut out, p.to_string().as_str());
            },
            Error::CrossesDevices(p) => {
                push_str(&mut out, "can't rename across devices: ");
                push_str(&mut out, p.to_string().as_str());
            },
            Error::InvalidOperation(m) => {
                push_str(&mut out, m.as_str());
            },
            Error::Trash { path, message } => {
                push_str(&mut out, "couldn't move ");
                push_str(&mut out, path.to_string().as_str());
                push_str(&mut out, " to the trash: ");
                push_str(&mut out, message.as_str());
            },
            Error::Archive { path, message } => {
                push_str(&mut out, "can't read the archive ");
                push_str(&mut out, path.to_string().as_str());
                push_str(&mut out, ": ");
                push_str(&mut out, message.as_str());
            },
            Error::Watch { path, message } => {
                push_str(&mut out, "can't watch ");
                push_str(&mut out, path.to_string().as_str());
                push_str(&mut out, " for changes: ");
                push_str(&mut out, message.as_str());
            },
            Error::Cancelled => {
                push_str(&mut out, "cancelled");
            },
            Error::InvalidPath(m) => {
                push_str(&mut out, "invalid path: ");
                push_str(&mut out, m.as_str());
            },
            Error::Unsupported { backend, path } => {
                push_str(&mut out, backend.as_str());
                push_str(&mut out, " can't open ");
                push_str(&mut out, path.to_string().as_str());
            },
            Error::Io { path, message } => {
                push_str(&mut out, "I/O error on ");
                push_str(&mut out, path.to_string().as_str());
                push_str(&mut out, ": ");
                push_str(&mut out, message.as_str());
            },
            Error::Task(m) => {
                push_str(&mut out, "background task failed: ");
                push_str(&mut out, m.as_str());
            },
            Error::NotConnected(p) => {
                push_str(&mut out, "not connected: ");
                push_str(&mut out, p.to_string().as_str());
            },
            Error::Remote { authority, message } => {
                push_str(&mut out, "can't connect to ");
                push_str(&mut out, authority.as_str());
                push_str(&mut out, ": ");
                push_str(&mut out, message.as_str());
            },
        }
        out
    }
}

/// The message shown for an error.
pub open spec fn error_text(e: Error) -> Seq<char> {
    match e {
        Error::NotFound(p) => "not found: "@ + spec_display(p@),
        Error::PermissionDenied(p) => "permission denied: "@ + spec_display(p@),
        Error::NotADirectory(p) => "not a directory: "@ + spec_display(p@),
        Error::AlreadyExists(p) => "already exists: "@ + spec_display(p@),
        Error::CrossesDevices(p) => "can't rename across devices: "@ + spec_display(p@),
        Error::InvalidOperation(m) => m@,
        Error::Trash { path, message } => "couldn't move "@ + spec_display(path@) + " to the trash: "@ + message@,
        Error::Archive { path, message } => "can't read the archive "@ + spec_display(path@) + ": "@ + message@,
        Error::Watch { path, message } => "can't watch "@ + spec_display(path@) + " for changes: "@ + message@,
        Error::Cancelled => "cancelled"@,
        Error::InvalidPath(m) => "invalid path: "@ + m@,
        Error::Unsupported { backend, path } => backend@ + " can't open "@ + spec_display(path@),
        Error::Io { path, message } => "I/O error on "@ + spec_display(path@) + ": "@ + message@,
        Error::Task(m) => "background task failed: "@ + m@,
        Error::NotConnected(p) => "not connected: "@ + spec_display(p@),
        Error::Remote { authority, message } => "can't connect to "@ + authority@ + ": "@ + message@,
    }
}

} // verus!
