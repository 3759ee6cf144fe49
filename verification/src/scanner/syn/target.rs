//! One port to probe in a SYN scan, and what is known about it.
use rand::Rng;
use vstd::prelude::*;

use crate::address::SocketAddress;

verus! {

/// Where the probe of a port stands.
#[derive(Clone, Copy, Debug, PartialEq, Eq, Structural)]
pub enum ScanState {
    /// No probe sent yet.
    Waiting,
    /// A probe was sent and no answer has come.
    Pending,
    /// The port answered with SYN and ACK.
    Open,
    /// The port answered with RST.
    Closed,
    /// No answer came in time, or the probe could not be sent.
    Filtered,
}

/// A port to probe: from `source` to `destination`, with its own sequence
/// number, by which the reply is matched to it.
#[derive(Clone, Copy, Debug, PartialEq, Eq, Structural)]
pub struct ScanTarget {
    pub source: SocketAddress,
    pub destination: SocketAddress,
    pub state: ScanState,
    pub sequence_number: u32,
}

/// A sequence number drawn from `rand::rng()`, the thread-local generator of
/// `rand` (`Rng::random::<u32>`). Any value may come.
#[verifier::external_body]
fn random_sequence_number() -> (n: u32) {
    rand::rng().random()
}

impl ScanTarget {
    /// A target from `source` to `destination`, not probed yet, with a
    /// random sequence number.
    pub fn new(source: SocketAddress, destination: SocketAddress) -> (t: Self)
        ensures
            t.source == source,
            t.destination == destination,
            t.state == ScanState::Waiting,
    {
        let sequence_number = random_sequence_number();
        Self::with_sequence_number(source, destination, sequence_number)
    }

    /// A target from `source` to `destination`, not probed yet, with the
    /// sequence number `sequence_number`.
    pub fn with_sequence_number(
        source: SocketAddress,
        destination: SocketAddress,
        sequence_number: u32,
    ) -> (t: Self)
        ensures
            t == (ScanTarget { source, destination, state: ScanState::Waiting, sequence_number }),
    {
        Self { source, destination, sequence_number, state: ScanState::Waiting }
    }
}

} // verus!
