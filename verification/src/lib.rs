//! `peek`: the decision logic of a TCP port scanner (connect and SYN
//! scans), with the byte layout of the SYN probes it sends, verified
//! with Verus.
pub mod address;
pub mod cli;
pub mod dns;
pub mod formatter;
pub mod scanner;
