//! QUIC connection manager: a single-threaded daemon that lets several local
//! client processes share one QUIC connection per remote destination, each on
//! its own stream, plus the client-side helpers for its local IPC protocol.
//!
//! The daemon multiplexes one readiness-driven event loop over a listening
//! local-IPC endpoint, the accepted client sockets, one UDP socket per remote
//! destination, and termination signals. This crate holds the daemon's
//! decision logic and the byte-exact IPC framing; the sockets, the poller and
//! the QUIC transport library are driven by a thin unverified shell around it.

use vstd::prelude::*;

pub mod client;
pub mod connection;
pub mod control;
pub mod frame;
pub mod manager;
pub mod tokens;

verus! {

/// The well-known filesystem path of the daemon's local-IPC endpoint.
pub const QCM_CONTROL_SOCKET: &'static str = "/tmp/qcm-control";

} // verus!
