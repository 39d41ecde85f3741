//! The datagram transport boundary.
//!
//! The session addresses peers by player id; the host supplies an
//! implementation that moves opaque datagrams to and from those peers,
//! typically over UDP with a table from peer id to network address.

use vstd::prelude::*;

verus! {

use crate::Nanos;
use crate::PlayerId;

/// Average datagram traffic, in bytes per second.
#[derive(Debug, Clone, Copy, PartialEq, Eq, Structural)]
pub struct SocketStats {
    pub outgoing_bytes: u64,
    pub incoming_bytes: u64,
}

/// Non-blocking, fire-and-forget datagram transport addressed by peer id.
///
/// `recv` never yields partial datagrams; a `None` means nothing is pending.
/// The `now` arguments carry the caller's monotonic clock reading, for
/// implementations that keep time-based statistics.
pub trait NonBlockingSocket {
    fn send(&mut self, message: &Vec<u8>, addr: PlayerId, now: Nanos);

    fn recv(&mut self, now: Nanos) -> Option<(PlayerId, Vec<u8>)>;

    fn stats(&self) -> Option<SocketStats>;
}

} // verus!
