//! What a connect scan finds out about one port.
use vstd::prelude::*;

verus! {

/// The state of a port after a connect scan.
#[derive(Clone, Copy, Debug, PartialEq, Eq, Structural)]
pub enum PortStatus {
    Open,
    Closed,
    Timeout,
}

/// The outcome of scanning one port.
#[derive(Clone, Copy, Debug, PartialEq, Eq, Structural)]
pub struct ScanResult {
    pub port: u16,
    pub status: PortStatus,
}

} // verus!
