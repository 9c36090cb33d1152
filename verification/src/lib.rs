//! A foreground/worker bridge: a clonable handle enqueues typed requests
//! onto a FIFO queue, a worker consumes them strictly sequentially against a
//! single replaceable remote-API client, and each request's result is
//! delivered exactly once through its own single-use reply slot.
//!
//! The library holds the bridge's logic and its proofs: the queue and
//! delivery model ([`model`]), the envelopes ([`msg`]), the worker loop and
//! the handle ([`bridge`]), the modelled remote client ([`api`]), the
//! failure taxonomy ([`errors`]), the credential check ([`header`]), and the
//! arena-backed ownership handles that callbacks hold ([`ptr`]).  The
//! asynchronous runtime that carries envelopes across the real thread
//! boundary lives outside the library and mirrors these types one to one.

pub mod api;
pub mod bridge;
pub mod errors;
pub mod header;
pub mod model;
pub mod msg;
pub mod ptr;
