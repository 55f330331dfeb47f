//! Scanner settings and the events a scanner reports.

use vstd::prelude::*;
use crate::slp::StatusResponse;

verus! {

/// Something a scanner reports about one address.
#[derive(Debug)]
pub enum ScanEvent {
    /// A server answered the status request.
    Discovered(u32, StatusResponse),
    /// A request was sent.
    Transmitted(u32),
}

/// Scans with one connection per target, spread over a number of tasks.
pub struct Naive {
    pub port: u16,
    pub threads: usize,
}

impl Naive {
    /// A scanner for servers on `port`, using `threads` tasks.
    pub fn new(port: u16, threads: usize) -> (r: Self)
        ensures
            r.port == port,
            r.threads == threads,
    {
        Self { port, threads }
    }
}

/// Scans by sending packets from one fixed source port, masscan style.
pub struct Async {
    pub target_port: u16,
    pub source_port: u16,
}

impl Async {
    /// A scanner that sends from `source_port` to servers on `target_port`.
    pub fn new(source_port: u16, target_port: u16) -> (r: Self)
        ensures
            r.target_port == target_port,
            r.source_port == source_port,
    {
        Self { target_port, source_port }
    }
}

} // verus!
