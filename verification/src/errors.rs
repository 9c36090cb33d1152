//! The bridge's own failure taxonomy.
//!
//! Every recoverable failure is returned as a typed result to the immediate
//! caller.  A remote call's own failure is passed through verbatim; the
//! distinguished exited failure says the worker is gone — the queue refused
//! the envelope, or the reply slot was abandoned at shutdown.

use vstd::prelude::*;

use crate::api::ApiError;

verus! {

/// Why a login could not complete.
#[derive(Clone, Copy, PartialEq, Eq, Structural, Debug)]
pub enum LoginError {
    /// The credential string holds a byte no header value may carry, so no
    /// client could be built from it; nothing was enqueued.
    InvalidHeaderValue,
    /// The runtime could not build a client from accepted credentials.
    /// The bridge's verified logic never produces this variant itself:
    /// whether construction succeeds is the runtime's affair, and the
    /// runtime surfaces it before anything is enqueued.
    Client,
    /// The worker is gone: the queue refused the envelope, or the
    /// acknowledgement slot was abandoned at shutdown.
    Exited,
}

/// Why a domain operation could not produce its page.
#[derive(Clone, Copy, PartialEq, Eq, Structural, Debug)]
pub enum RequestError {
    /// The remote call itself failed; the failure is passed through
    /// verbatim and the worker keeps running.
    Request(ApiError),
    /// The worker is gone: the queue refused the envelope, or the reply
    /// slot was abandoned at shutdown.
    Exited,
}

} // verus!
