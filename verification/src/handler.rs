//! The worker pool: one polling schedule per configured region.
//!
//! Pure composition: starting or stopping the pool fans the call out to
//! every worker, with no ordering guarantee between regions and no
//! aggregated completion signal.  Region ids are taken as given —
//! duplicates are not deduplicated; each gets an independent worker.

use vstd::prelude::*;
use crate::registry::ClientRegistry;
use crate::worker::{WorkerHandler, initial, started, stopped};

verus! {

/// One polling schedule per configured region, plus the shared subscriber
/// registry the broadcasts target.
pub struct MarketHandler {
    pub workers: Vec<WorkerHandler>,
    pub clients: ClientRegistry,
}

impl MarketHandler {
    pub open spec fn wf(&self) -> bool {
        self.clients.wf() && forall|i: int|
            0 <= i < self.workers@.len() ==> (#[trigger] self.workers@[i]).wf()
    }

    /// One fresh worker per region id, in the given order, duplicates
    /// kept.
    pub fn new(region_ids: Vec<i32>, clients: ClientRegistry) -> (r: MarketHandler)
        requires
            clients.wf(),
        ensures
            r.wf(),
            r.workers@.len() == region_ids@.len(),
            forall|i: int|
                0 <= i < region_ids@.len() ==> r.workers@[i] == initial(region_ids@[i]),
            r.clients == clients,
    {
        let mut workers: Vec<WorkerHandler> = Vec::new();
        let mut i: usize = 0;
        while i < region_ids.len()
            invariant
                i <= region_ids@.len(),
                workers@.len() == i,
                forall|q: int| 0 <= q < i ==> workers@[q] == initial(region_ids@[q]),
                forall|q: int| 0 <= q < i ==> (#[trigger] workers@[q]).wf(),
            decreases region_ids@.len() - i,
        {
            workers.push(WorkerHandler::new(region_ids[i]));
            i += 1;
        }
        MarketHandler { workers, clients }
    }

    /// Starts every worker.  Simple fan-out; the registry is untouched.
    pub fn start(&mut self)
        ensures
            final(self).workers@.len() == old(self).workers@.len(),
            forall|i: int|
                0 <= i < old(self).workers@.len() ==> final(self).workers@[i] == started(
                    old(self).workers@[i],
                ),
            final(self).clients == old(self).clients,
            old(self).wf() ==> final(self).wf(),
    {
        let mut i: usize = 0;
        while i < self.workers.len()
            invariant
                i <= self.workers@.len(),
                self.workers@.len() == old(self).workers@.len(),
                forall|q: int|
                    0 <= q < i ==> self.workers@[q] == started(old(self).workers@[q]),
                forall|q: int|
                    i <= q < self.workers@.len() ==> self.workers@[q] == old(self).workers@[q],
                self.clients == old(self).clients,
            decreases self.workers@.len() - i,
        {
            let ghost before = self.workers@;
            let mut w = self.workers.remove(i);
            w.start();
            self.workers.insert(i, w);
            proof {
                assert(self.workers@ =~= before.update(i as int, started(before[i as int])));
            }
            i += 1;
        }
    }

    /// Requests termination of every worker.  Advisory, like each
    /// worker's own `stop`: it does not wait for in-flight work.
    pub fn stop(&mut self)
        ensures
            final(self).workers@.len() == old(self).workers@.len(),
            forall|i: int|
                0 <= i < old(self).workers@.len() ==> final(self).workers@[i] == stopped(
                    old(self).workers@[i],
                ),
            final(self).clients == old(self).clients,
            old(self).wf() ==> final(self).wf(),
    {
        let mut i: usize = 0;
        while i < self.workers.len()
            invariant
                i <= self.workers@.len(),
                self.workers@.len() == old(self).workers@.len(),
                forall|q: int|
                    0 <= q < i ==> self.workers@[q] == stopped(old(self).workers@[q]),
                forall|q: int|
                    i <= q < self.workers@.len() ==> self.workers@[q] == old(self).workers@[q],
                self.clients == old(self).clients,
            decreases self.workers@.len() - i,
        {
            let ghost before = self.workers@;
            let mut w = self.workers.remove(i);
            w.stop();
            self.workers.insert(i, w);
            proof {
                assert(self.workers@ =~= before.update(i as int, stopped(before[i as int])));
            }
            i += 1;
        }
    }

    /// The shared subscriber registry.
    pub fn clients(&self) -> (r: &ClientRegistry)
        ensures
            *r == self.clients,
    {
        &self.clients
    }
}

} // verus!
