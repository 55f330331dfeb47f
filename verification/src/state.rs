//! What a running scan has found so far, and how scan events change it.

use vstd::prelude::*;
use crate::scanner::ScanEvent;
use crate::slp::StatusResponse;

verus! {

/// The progress of a scan: how many requests were sent and which servers answered.
#[derive(Debug)]
pub struct ProgramState {
    pub transmitted: usize,
    pub discovered: Vec<(u32, StatusResponse)>,
}

impl ProgramState {
    /// Nothing sent, nothing found.
    pub fn new() -> (r: Self)
        ensures
            r.transmitted == 0,
            r.discovered@ == Seq::<(u32, StatusResponse)>::empty(),
    {
        ProgramState { transmitted: 0, discovered: Vec::new() }
    }

    /// Records one scan event: a discovery is appended, a transmission is counted.
    pub fn record(&mut self, event: ScanEvent)
        requires
            event is Transmitted ==> old(self).transmitted < usize::MAX,
        ensures
            match event {
                ScanEvent::Discovered(ip, res) => {
                    &&& final(self).discovered@ == old(self).discovered@.push((ip, res))
                    &&& final(self).transmitted == old(self).transmitted
                },
                ScanEvent::Transmitted(_) => {
                    &&& final(self).discovered@ == old(self).discovered@
                    &&& final(self).transmitted == old(self).transmitted + 1
                },
            },
    {
        match event {
            ScanEvent::Discovered(ip, res) => {
                self.discovered.push((ip, res));
            },
            ScanEvent::Transmitted(_) => {
                self.transmitted = self.transmitted + 1;
            },
        }
    }
}

impl Default for ProgramState {
    fn default() -> (r: Self)
        ensures
            r.transmitted == 0,
            r.discovered@ == Seq::<(u32, StatusResponse)>::empty(),
    {
        ProgramState::new()
    }
}

} // verus!
