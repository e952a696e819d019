//! Per-region pull cycle and polling schedule.
//!
//! A `Worker` turns the raw material of one paginated pull — the first
//! page's response and the later pages' bodies — into an aggregated
//! `RegionOrders` snapshot, or a failure signal when page one cannot be
//! read.  A `WorkerHandler` keeps the schedule of one region's polling
//! loop: an elapsed-seconds counter advanced once per iteration, a pull
//! triggered whenever the counter passes the poll interval, and a stop flag
//! observed at the top of each iteration.  The caller that owns the thread
//! performs the sleeps and the network fetches; every decision is taken
//! here.

use vstd::prelude::*;
use crate::orders::{Order, RegionOrders, aggregate, bucketed, order_count};
use crate::text::parse_i32_spec;
use crate::text::parse_i32;

verus! {

/// Why the page count of a region listing could not be obtained.
#[derive(Debug, Clone, Copy, PartialEq, Eq, Structural)]
pub enum FetchReason {
    /// The request itself failed.
    Transport,
    /// The response carried no page-count header, or one that is not a
    /// decimal integer.
    Format,
}

/// Failure of one pull cycle.  Either way no partial snapshot is produced;
/// the next scheduled tick simply tries again.
#[derive(Debug, Clone, Copy, PartialEq, Eq, Structural)]
pub enum FetchError {
    /// Page one did not yield a usable total-page count.
    PageCountUnavailable(FetchReason),
    /// Page one's body could not be decoded as a list of orders.
    PageOneUnreadable,
}

/// What came back for page one of a region listing: the page-count header
/// value if the response carried one, and the decoded order list if the
/// body was readable.
pub struct PageOne {
    pub pages_header: Option<Vec<u8>>,
    pub orders: Option<Vec<Order>>,
}

/// The total-page count page one announces: the value of its header read
/// as a decimal integer, or the error that aborts the cycle.
pub open spec fn page_count_spec(page1: Option<PageOne>) -> Result<i32, FetchError> {
    match page1 {
        None => Err(FetchError::PageCountUnavailable(FetchReason::Transport)),
        Some(p) => match p.pages_header {
            None => Err(FetchError::PageCountUnavailable(FetchReason::Format)),
            Some(h) => match parse_i32_spec(h@) {
                None => Err(FetchError::PageCountUnavailable(FetchReason::Format)),
                Some(n) => Ok(n),
            },
        },
    }
}

/// Reads the total-page count out of page one's response.  A failed
/// request, a missing header, or an unparseable header each abort the
/// cycle with the reason attached.
pub fn page_count(page1: &Option<PageOne>) -> (r: Result<i32, FetchError>)
    ensures
        r == page_count_spec(*page1),
{
    match page1 {
        None => Err(FetchError::PageCountUnavailable(FetchReason::Transport)),
        Some(p) => match &p.pages_header {
            None => Err(FetchError::PageCountUnavailable(FetchReason::Format)),
            Some(h) => match parse_i32(h.as_slice()) {
                None => Err(FetchError::PageCountUnavailable(FetchReason::Format)),
                Some(n) => Ok(n),
            },
        },
    }
}

/// The page numbers to fetch concurrently after page one: `2..=total`,
/// one independent fetch per page; nothing when the listing fits on one
/// page.
pub fn pages_to_fetch(total_pages: i32) -> (r: Vec<i32>)
    ensures
        total_pages < 2 ==> r@.len() == 0,
        total_pages >= 2 ==> r@.len() == total_pages - 1,
        forall|k: int| 0 <= k < r@.len() ==> r@[k] == k + 2,
{
    let mut r: Vec<i32> = Vec::new();
    if total_pages < 2 {
        return r;
    }
    let count = (total_pages - 1) as usize;
    let mut k: usize = 0;
    while k < count
        invariant
            k <= count,
            total_pages >= 2,
            count == total_pages - 1,
            r@.len() == k,
            forall|q: int| 0 <= q < r@.len() ==> r@[q] == q + 2,
        decreases count - k,
    {
        r.push((k as i32) + 2);
        k += 1;
    }
    r
}

/// The orders one later page contributes: its decoded body, or nothing
/// when its fetch failed or its body was undecodable.
pub open spec fn page_orders(p: Option<Vec<Order>>) -> Seq<Order> {
    match p {
        Some(v) => v@,
        None => Seq::empty(),
    }
}

/// All orders of one cycle: page one's, then each later page's
/// contribution in page order.  A failed page contributes zero orders and
/// shrinks the result instead of aborting it.
pub open spec fn collected(first: Seq<Order>, rest: Seq<Option<Vec<Order>>>) -> Seq<Order>
    decreases rest.len(),
{
    if rest.len() == 0 {
        first
    } else {
        collected(first, rest.drop_last()) + page_orders(rest.last())
    }
}

/// Concatenates page one's orders with every later page's contribution,
/// skipping failed pages.
pub fn collect_orders(first: Vec<Order>, rest: Vec<Option<Vec<Order>>>) -> (r: Vec<Order>)
    ensures
        r@ == collected(first@, rest@),
{
    let ghost rest_full = rest@;
    let mut r = first;
    let mut rest = rest;
    while rest.len() > 0
        invariant
            rest@.len() <= rest_full.len(),
            rest@ =~= rest_full.skip(rest_full.len() - rest@.len()),
            r@ == collected(first@, rest_full.take(rest_full.len() - rest@.len())),
        decreases rest@.len(),
    {
        let ghost done = rest_full.len() - rest@.len();
        proof {
            assert(rest_full.take(done as int + 1).drop_last() =~= rest_full.take(done as int));
            assert(rest_full.take(done as int + 1).last() == rest_full[done as int]);
            assert(rest@[0] == rest_full[done as int]);
        }
        let p = rest.remove(0);
        proof {
            assert(rest@ =~= rest_full.skip(done as int + 1));
        }
        match p {
            Some(mut v) => {
                r.append(&mut v);
            },
            None => {
                proof {
                    assert(r@ + page_orders(rest_full[done as int]) =~= r@);
                }
            },
        }
    }
    proof {
        assert(rest_full.take(rest_full.len() as int) =~= rest_full);
    }
    r
}

/// A failed later page contributes nothing at all: the collected order
/// list is the same as if that page had never been fetched.  Partial
/// failure shrinks the snapshot; it never aborts it.
pub proof fn lemma_failed_page_contributes_nothing(
    first: Seq<Order>,
    rest: Seq<Option<Vec<Order>>>,
    j: int,
)
    requires
        0 <= j < rest.len(),
        rest[j] == Option::<Vec<Order>>::None,
    ensures
        collected(first, rest) == collected(first, rest.remove(j)),
    decreases rest.len(),
{
    if j == rest.len() - 1 {
        assert(rest.remove(j) =~= rest.drop_last());
        assert(collected(first, rest) =~= collected(first, rest.drop_last()));
    } else {
        assert(rest.remove(j).drop_last() =~= rest.drop_last().remove(j));
        assert(rest.remove(j).last() == rest.last());
        assert(rest.drop_last()[j] == rest[j]);
        lemma_failed_page_contributes_nothing(first, rest.drop_last(), j);
    }
}

/// What one pull cycle must return, given what the pages yielded: the
/// exact error when page one is unusable, else the aggregation of every
/// collected order.
pub open spec fn pull_outcome(
    region_id: i32,
    page1: Option<PageOne>,
    rest: Seq<Option<Vec<Order>>>,
    r: Result<RegionOrders, FetchError>,
) -> bool {
    match page_count_spec(page1) {
        Err(e) => r == Err::<RegionOrders, FetchError>(e),
        Ok(_) => match page1 {
            None => false,
            Some(p) => match p.orders {
                None => r == Err::<RegionOrders, FetchError>(FetchError::PageOneUnreadable),
                Some(firsts) => match r {
                    Err(_) => false,
                    Ok(ro) => ro.region_id == region_id && bucketed(
                        collected(firsts@, rest),
                        ro.orders@,
                    ) && order_count(ro.orders@) == collected(firsts@, rest).len(),
                },
            },
        },
    }
}

/// One region's pull logic, fixed to its region id.
pub struct Worker {
    pub region_id: i32,
}

impl Worker {
    pub fn new(region_id: i32) -> (r: Worker)
        ensures
            r.region_id == region_id,
    {
        Worker { region_id }
    }

    /// Buckets the collected orders of one cycle by item type; arrival
    /// order is kept inside each bucket.
    pub fn parse_orders(&self, orders: Vec<Order>) -> (r: RegionOrders)
        ensures
            r.region_id == self.region_id,
            bucketed(orders@, r.orders@),
            order_count(r.orders@) == orders@.len(),
    {
        aggregate(self.region_id, orders)
    }

    /// One pull cycle over already-fetched pages.  Aborts, with no partial
    /// result, exactly when page one's request failed, its page-count
    /// header is missing or unparseable, or its body is unreadable; any
    /// later page that failed (a `None` in `later_pages`) merely
    /// contributes zero orders.
    pub fn pull_data(
        &self,
        page1: Option<PageOne>,
        later_pages: Vec<Option<Vec<Order>>>,
    ) -> (r: Result<RegionOrders, FetchError>)
        ensures
            pull_outcome(self.region_id, page1, later_pages@, r),
    {
        let p = match page1 {
            None => {
                return Err(FetchError::PageCountUnavailable(FetchReason::Transport));
            },
            Some(p) => p,
        };
        match &p.pages_header {
            None => {
                return Err(FetchError::PageCountUnavailable(FetchReason::Format));
            },
            Some(h) => {
                if parse_i32(h.as_slice()).is_none() {
                    return Err(FetchError::PageCountUnavailable(FetchReason::Format));
                }
            },
        }
        let firsts = match p.orders {
            None => {
                return Err(FetchError::PageOneUnreadable);
            },
            Some(v) => v,
        };
        let all = collect_orders(firsts, later_pages);
        Ok(aggregate(self.region_id, all))
    }
}

/// Seconds between two pulls of the same region.
pub const PULL_INTERVAL_SECS: u64 = 300;

/// What the scheduling loop does in one iteration.
#[derive(Debug, Clone, Copy, PartialEq, Eq, Structural)]
pub enum TickAction {
    /// The stop flag was observed: leave the loop.
    Halted,
    /// The poll interval has passed: pull now, then sleep one unit.
    Pull,
    /// Not yet due: sleep one unit.
    Wait,
}

/// The scheduling state of one region's polling loop.
pub struct WorkerHandler {
    pub region_id: i32,
    pub running: bool,
    pub elapsed_secs: u64,
    pub worker: Worker,
}

/// The action the next iteration takes: halt once the stop flag is down,
/// pull once the counter has passed the interval, else wait.
pub open spec fn tick_action(s: WorkerHandler) -> TickAction {
    if !s.running {
        TickAction::Halted
    } else if s.elapsed_secs > PULL_INTERVAL_SECS {
        TickAction::Pull
    } else {
        TickAction::Wait
    }
}

/// The state after one iteration: a pull resets the counter before the
/// iteration's one-second advance; a wait only advances it; a halted loop
/// changes nothing.
pub open spec fn tick_next(s: WorkerHandler) -> WorkerHandler {
    if !s.running {
        s
    } else if s.elapsed_secs > PULL_INTERVAL_SECS {
        WorkerHandler { elapsed_secs: 1, ..s }
    } else {
        WorkerHandler { elapsed_secs: (s.elapsed_secs + 1) as u64, ..s }
    }
}

/// The state `n` iterations later.
pub open spec fn run_steps(s: WorkerHandler, n: nat) -> WorkerHandler
    decreases n,
{
    if n == 0 {
        s
    } else {
        tick_next(run_steps(s, (n - 1) as nat))
    }
}

/// A freshly constructed handler: live, with the counter primed so that
/// the first pull happens after one wait.
pub open spec fn initial(region_id: i32) -> WorkerHandler {
    WorkerHandler {
        region_id,
        running: true,
        elapsed_secs: PULL_INTERVAL_SECS,
        worker: Worker { region_id },
    }
}

/// The same schedule with the stop flag down.
pub open spec fn stopped(s: WorkerHandler) -> WorkerHandler {
    WorkerHandler { running: false, ..s }
}

/// The same schedule marked live.
pub open spec fn started(s: WorkerHandler) -> WorkerHandler {
    WorkerHandler { running: true, ..s }
}

impl WorkerHandler {
    /// The counter never drifts past one step over the interval, and the
    /// owned worker serves this handler's region.
    pub open spec fn wf(&self) -> bool {
        self.elapsed_secs <= PULL_INTERVAL_SECS + 1 && self.worker.region_id == self.region_id
    }

    pub fn new(region_id: i32) -> (r: WorkerHandler)
        ensures
            r == initial(region_id),
            r.wf(),
    {
        WorkerHandler {
            region_id,
            running: true,
            elapsed_secs: PULL_INTERVAL_SECS,
            worker: Worker::new(region_id),
        }
    }

    /// Marks the schedule live.  The owning thread runs the loop by
    /// calling `tick` once per time unit and performing the action it
    /// returns.
    pub fn start(&mut self)
        ensures
            *final(self) == started(*old(self)),
    {
        self.running = true;
    }

    /// Requests termination.  The request is advisory: it returns at once,
    /// and the loop observes it at the top of its next iteration.
    pub fn stop(&mut self)
        ensures
            *final(self) == stopped(*old(self)),
    {
        self.running = false;
    }

    /// One iteration of the scheduling loop: decide, then advance the
    /// clock by the iteration's one-second granularity.
    pub fn tick(&mut self) -> (a: TickAction)
        requires
            old(self).wf(),
        ensures
            final(self).wf(),
            a == tick_action(*old(self)),
            *final(self) == tick_next(*old(self)),
    {
        if !self.running {
            TickAction::Halted
        } else if self.elapsed_secs > PULL_INTERVAL_SECS {
            self.elapsed_secs = 1;
            TickAction::Pull
        } else {
            self.elapsed_secs = self.elapsed_secs + 1;
            TickAction::Wait
        }
    }
}

/// Stopping is final and quiet: once the stop flag is down, every later
/// iteration halts — none pulls, so nothing further is broadcast — and the
/// schedule state never moves again.  An iteration already under way when
/// the flag goes down is unaffected: only the next iteration's decision
/// observes the flag.
pub proof fn lemma_no_pull_after_stop(s: WorkerHandler, n: nat)
    ensures
        run_steps(stopped(s), n) == stopped(s),
        tick_action(run_steps(stopped(s), n)) == TickAction::Halted,
    decreases n,
{
    if n > 0 {
        lemma_no_pull_after_stop(s, (n - 1) as nat);
    }
}

} // verus!
