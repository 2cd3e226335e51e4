//! Core of a single-threaded, completion-queue-based server speaking a
//! RESP-like wire protocol: the frame codec, the command model, the
//! fixed-descriptor table and the reactor's dispatch logic.
//!
//! The kernel submission/completion queue itself lives outside this crate;
//! the library owns every decision the event loop makes (framing, command
//! decoding, descriptor slot allocation, request-context bookkeeping) and
//! states those decisions as contracts.

use vstd::prelude::*;

pub mod cmd;
pub mod conn;
pub mod frame;
pub mod parse;
pub mod server;

verus! {

/// Reactor-level errors, per the error taxonomy of the design:
/// protocol violations close a connection, kernel faults and bookkeeping
/// bugs are fatal to the run, exhaustion is explicit backpressure.
#[derive(Clone, Copy, Debug, PartialEq, Eq, Structural)]
pub enum Error {
    /// The byte stream violates the frame grammar; the connection must close.
    Malformed,
    /// A completion event named a request identifier with no recorded context.
    UnknownRequest,
    /// The descriptor table or the identifier space is exhausted.
    Exhausted,
}

pub type Result<T> = core::result::Result<T, Error>;

} // verus!
