//! What a finished run has to report: for each completed process its
//! response, turnaround and waiting time, and their sums over all of them.
//! Averages and the utilisation quotient are left to the caller, who divides
//! the sums by the count and the busy time by the clock.

use crate::ordering::views;
use crate::process::{Process, ProcessView};
use crate::tally::total;
use std::collections::VecDeque;
use vstd::prelude::*;

verus! {

/// Response time of a process, zero for one that never ran.
pub open spec fn response() -> spec_fn(ProcessView) -> int {
    |p: ProcessView|
        match p.first_accessed {
            Some(t) => t,
            None => 0,
        }
}

/// Turnaround time of a process.
pub open spec fn turnaround() -> spec_fn(ProcessView) -> int {
    |p: ProcessView| p.turnaround_time()
}

/// Waiting time of a process.
pub open spec fn waiting() -> spec_fn(ProcessView) -> int {
    |p: ProcessView| p.waiting_time()
}

/// Every process of the queue has been dispatched at least once.
pub open spec fn all_dispatched(queue: Seq<ProcessView>) -> bool {
    forall|i: int| 0 <= i < queue.len() ==> (#[trigger] queue[i]).first_accessed is Some
}

/// The sums from which the averages of a run are taken.
#[derive(Clone, Copy, Debug, PartialEq, Eq)]
pub struct Summary {
    /// Number of completed processes; never zero.
    pub processes: usize,
    /// Sum of the response times.
    pub response_sum: i128,
    /// Sum of the waiting times.
    pub waiting_sum: i128,
    /// Sum of the turnaround times.
    pub turnaround_sum: i128,
}

/// Adds up the response, waiting and turnaround times of the completed
/// processes.  Returns `None` where there is no process, so that no average
/// is ever taken over nothing.
pub fn summarize(completed: &VecDeque<Process>) -> (summary: Option<Summary>)
    requires
        all_dispatched(views(completed@)),
    ensures
        summary.is_some() == (completed@.len() > 0),
        summary matches Some(s) ==> {
            &&& s.processes == completed@.len()
            &&& s.response_sum == total(views(completed@), response())
            &&& s.waiting_sum == total(views(completed@), waiting())
            &&& s.turnaround_sum == total(views(completed@), turnaround())
        },
{
    let ghost all = views(completed@);
    let n: usize = completed.len();
    if n == 0 {
        return None;
    }
    let mut response_sum: i128 = 0;
    let mut waiting_sum: i128 = 0;
    let mut turnaround_sum: i128 = 0;
    let mut i: usize = 0;
    while i < n
        invariant
            n == completed@.len(),
            all == views(completed@),
            all_dispatched(all),
            i <= n,
            response_sum == total(all.take(i as int), response()),
            waiting_sum == total(all.take(i as int), waiting()),
            turnaround_sum == total(all.take(i as int), turnaround()),
            -i * 0x1_0000_0000 <= response_sum <= i * 0x1_0000_0000,
            -i * 0x1_0000_0000 <= waiting_sum <= i * 0x1_0000_0000,
            -i * 0x1_0000_0000 <= turnaround_sum <= i * 0x1_0000_0000,
        decreases n - i,
    {
        let process = &completed[i];
        proof {
            assert(all.take(i + 1).drop_last() =~= all.take(i as int));
            assert(all.take(i + 1).last() == process@);
            assert(all[i as int].first_accessed is Some);
        }
        let first: i32 = match process.first_accessed {
            Some(t) => t,
            None => 0,
        };
        response_sum = response_sum + first as i128;
        waiting_sum = waiting_sum + (process.last_accessed as i128
            - process.total_process_time as i128);
        turnaround_sum = turnaround_sum + process.last_accessed as i128;
        i = i + 1;
    }
    proof {
        assert(all.take(n as int) =~= all);
    }
    Some(Summary { processes: n, response_sum, waiting_sum, turnaround_sum })
}

} // verus!
