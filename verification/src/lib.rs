//! Controller side of a privilege-separated login session.
//!
//! The controller launches a worker process, drives it through the login
//! handshake over a datagram channel, and afterwards keeps a handle on the
//! processes of the running session. This crate holds the decisions of that
//! controller and the format of what it exchanges with the worker:
//!
//! - [`launcher`]: the arguments of the worker and the flags of the
//!   descriptor that it inherits;
//! - [`message`] and [`error`]: the requests, the replies and the failures;
//! - [`wire`], on top of [`cursor`] and [`json`]: the bytes of a message in
//!   a datagram, written and read back;
//! - [`session`]: which request a step of the handshake issues and what each
//!   reply means;
//! - [`child`]: the processes of a started session and the signals that end
//!   them.
//!
//! The crate performs no input or output. A driver owns the channel: it
//! sends the datagrams that are handed out, hands in the ones that it
//! receives, spawns the worker and delivers the signals.

pub mod child;
pub mod cursor;
pub mod error;
pub mod json;
pub mod launcher;
pub mod message;
pub mod session;
pub mod wire;
