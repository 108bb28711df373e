//! The failures that a session reports to its caller.

use vstd::prelude::*;

verus! {

/// The point of the handshake at which a reply is awaited.
#[derive(Clone, Copy, Debug, PartialEq, Eq, Structural)]
pub enum Step {
    /// After a login was initiated, or a prompt answered or cancelled.
    Authentication,
    /// After the session arguments were handed over.
    Arguments,
    /// After the session was told to start.
    Start,
}

/// The variant of a message from the worker, without what it carries.
#[derive(Clone, Copy, Debug, PartialEq, Eq, Structural)]
pub enum ReplyKind {
    PamMessage,
    Success,
    Error,
    FinalChildPid,
}

/// Why an operation on a session did not succeed.
///
/// The first five variants are failures of the transport and carry the text
/// of the underlying fault. `Closed` is the transport failure that the
/// session detects by itself. `Protocol` is a failure that the worker
/// reported, and `ProtocolViolation` marks a reply that the awaited step does
/// not allow.
#[derive(Debug, PartialEq, Eq)]
pub enum Error {
    /// The pair of channel endpoints could not be created.
    Channel(String),
    /// The flags of the inherited descriptor could not be read or written.
    Descriptor(String),
    /// The worker process could not be spawned.
    Spawn(String),
    /// A datagram could not be written to or read from the channel.
    Io(String),
    /// A message could not be encoded, or a datagram holds no valid message.
    Codec(String),
    /// The channel has been shut down, so nothing more can be sent on it.
    Closed,
    /// The worker reported this failure, for instance a failed authentication.
    Protocol(String),
    /// The worker sent a message that is no answer to the awaited step.
    ProtocolViolation { awaited: Step, received: ReplyKind },
}

/// The value of an [`Error`], with each text as a sequence of characters.
pub ghost enum ErrorView {
    Channel(Seq<char>),
    Descriptor(Seq<char>),
    Spawn(Seq<char>),
    Io(Seq<char>),
    Codec(Seq<char>),
    Closed,
    Protocol(Seq<char>),
    ProtocolViolation { awaited: Step, received: ReplyKind },
}

impl View for Error {
    type V = ErrorView;

    open spec fn view(&self) -> ErrorView {
        match self {
            Error::Channel(text) => ErrorView::Channel(text@),
            Error::Descriptor(text) => ErrorView::Descriptor(text@),
            Error::Spawn(text) => ErrorView::Spawn(text@),
            Error::Io(text) => ErrorView::Io(text@),
            Error::Codec(text) => ErrorView::Codec(text@),
            Error::Closed => ErrorView::Closed,
            Error::Protocol(text) => ErrorView::Protocol(text@),
            Error::ProtocolViolation { awaited, received } => ErrorView::ProtocolViolation {
                awaited: *awaited,
                received: *received,
            },
        }
    }
}

impl Clone for Error {
    fn clone(&self) -> (copy: Error)
        ensures
            copy@ == self@,
    {
        match self {
            Error::Channel(text) => Error::Channel(text.clone()),
            Error::Descriptor(text) => Error::Descriptor(text.clone()),
            Error::Spawn(text) => Error::Spawn(text.clone()),
            Error::Io(text) => Error::Io(text.clone()),
            Error::Codec(text) => Error::Codec(text.clone()),
            Error::Closed => Error::Closed,
            Error::Protocol(text) => Error::Protocol(text.clone()),
            Error::ProtocolViolation { awaited, received } => Error::ProtocolViolation {
                awaited: *awaited,
                received: *received,
            },
        }
    }
}

} // verus!
