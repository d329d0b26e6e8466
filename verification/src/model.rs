//! The scheduler as a state machine over mathematical values.
//!
//! A state holds the three ready queues, the I/O-wait queue, the completed
//! processes, the clock and the number of idle ticks.  One step serves one
//! process, or lets one idle tick pass, and then brings back every process
//! whose I/O wait is over.  A run repeats the step until every queue but the
//! graveyard is empty.

use crate::ordering::{ascending, burst_keys, return_keys, sorted_by_burst, sorted_by_return};
use crate::process::{non_negative, ProcessView};
use crate::tally::{census, negated, total};
use vstd::multiset::Multiset;
use vstd::prelude::*;

verus! {

/// Round-robin quantum of the first level of the feedback queue.
pub const LEVEL_ONE_QUANTUM: i32 = 5;

/// Round-robin quantum of the second level of the feedback queue.
pub const LEVEL_TWO_QUANTUM: i32 = 10;

/// The scheduling policies.
#[derive(Clone, Copy, Debug, PartialEq, Eq)]
pub enum Policy {
    /// First come, first served: the ready queue is served in arrival
    /// order, each process for its whole current burst.
    Fcfs,
    /// Shortest job first: the ready queue is kept in order of current
    /// burst, and its head is served for its whole current burst.
    Sjf,
    /// Multi-level feedback queue: two round-robin levels and a third
    /// level that is kept in order of current burst.
    Mlfq,
}

/// The mathematical picture of a scheduler.
pub struct SchedulerView {
    /// The policy that the scheduler follows.
    pub policy: Policy,
    /// The ready queue; under the feedback policy, its first level.
    pub ready: Seq<ProcessView>,
    /// Second level of the feedback queue.
    pub level_two: Seq<ProcessView>,
    /// Third level of the feedback queue.
    pub level_three: Seq<ProcessView>,
    /// Processes that wait for their I/O to end.
    pub io_queue: Seq<ProcessView>,
    /// Completed processes, in order of completion.
    pub graveyard: Seq<ProcessView>,
    /// The global clock.
    pub global_clock: int,
    /// Number of ticks at which no process was ready.
    pub wait_count: int,
}

/// What is left to serve of a process: the sum of its bursts.
pub open spec fn work() -> spec_fn(ProcessView) -> int {
    |p: ProcessView| p.remaining()
}

/// Number of bursts that a process still has.
pub open spec fn bursts_left() -> spec_fn(ProcessView) -> int {
    |p: ProcessView| p.bursts.len() as int
}

/// Time from `clock` to the end of a process's I/O wait, zero once the
/// wait is over.
pub open spec fn slack(clock: int) -> spec_fn(ProcessView) -> int {
    |p: ProcessView|
        if p.return_from_io_time > clock {
            p.return_from_io_time - clock
        } else {
            0
        }
}

/// Whether a process's I/O wait is over at `clock`.
pub open spec fn due(clock: int) -> spec_fn(ProcessView) -> bool {
    |p: ProcessView| p.return_from_io_time <= clock
}

/// What stays the same of a process for as long as it lives: its name and
/// its total time.
pub open spec fn identity() -> spec_fn(ProcessView) -> (Seq<char>, int) {
    |p: ProcessView| (p.name, p.total_process_time)
}

/// A process that can be dispatched now and again after each I/O wait: its
/// bursts are not negative, and there is an odd number of them, so that the
/// last one is a CPU burst.
pub open spec fn runnable(p: ProcessView) -> bool {
    p.bursts.len() % 2 == 1 && non_negative(p.bursts)
}

/// Every process of the queue is [`runnable`].
pub open spec fn all_runnable(queue: Seq<ProcessView>) -> bool {
    forall|i: int| 0 <= i < queue.len() ==> runnable(#[trigger] queue[i])
}

impl SchedulerView {
    /// The state before the first step: every process is ready, the clock
    /// is at zero.  Under shortest-job-first the ready queue is in order.
    pub open spec fn start(processes: Seq<ProcessView>, policy: Policy) -> SchedulerView {
        SchedulerView {
            policy,
            ready: if policy is Sjf {
                sorted_by_burst(processes)
            } else {
                processes
            },
            level_two: Seq::empty(),
            level_three: Seq::empty(),
            io_queue: Seq::empty(),
            graveyard: Seq::empty(),
            global_clock: 0,
            wait_count: 0,
        }
    }

    /// No process is ready and none waits for I/O: the run is over.
    pub open spec fn finished(self) -> bool {
        &&& self.ready.len() == 0
        &&& self.level_two.len() == 0
        &&& self.level_three.len() == 0
        &&& self.io_queue.len() == 0
    }

    /// The state after one tick without a ready process.
    pub open spec fn tick(self) -> SchedulerView {
        SchedulerView {
            global_clock: self.global_clock + 1,
            wait_count: self.wait_count + 1,
            ..self
        }
    }

    /// The state after `ran`, whose CPU burst has just been used up, has
    /// been put where it belongs: in the graveyard if that was its last
    /// burst, else in the I/O-wait queue.  Under the feedback policy the
    /// I/O-wait queue is kept in order of return time.
    pub open spec fn settle(self, ran: ProcessView) -> SchedulerView {
        if ran.bursts.len() <= 1 {
            SchedulerView { graveyard: self.graveyard.push(ran.pop_burst()), ..self }
        } else {
            let io_queue = self.io_queue.push(ran.into_wait(self.global_clock));
            SchedulerView {
                io_queue: if self.policy is Mlfq {
                    sorted_by_return(io_queue)
                } else {
                    io_queue
                },
                ..self
            }
        }
    }

    /// The state after `p`, which has been taken off its queue, has run for
    /// its whole current burst and has been settled.
    pub open spec fn serve_whole(self, p: ProcessView) -> SchedulerView {
        SchedulerView { global_clock: self.global_clock + p.front(), ..self }.settle(
            p.run(p.front(), self.global_clock),
        )
    }

    /// The state after the head of the ready queue has run for its whole
    /// current burst, or after an idle tick if nothing is ready.
    pub open spec fn serve_ready(self) -> SchedulerView {
        if self.ready.len() > 0 {
            SchedulerView { ready: self.ready.skip(1), ..self }.serve_whole(self.ready[0])
        } else {
            self.tick()
        }
    }

    /// The state after the head of the first level has run for at most one
    /// quantum of that level.  A process that did not finish its burst goes
    /// to the back of the second level.
    pub open spec fn serve_level_one(self) -> SchedulerView {
        let p = self.ready[0];
        let quantum = LEVEL_ONE_QUANTUM as int;
        let ran = p.run(quantum, self.global_clock);
        let next = SchedulerView {
            ready: self.ready.skip(1),
            global_clock: self.global_clock + p.consumed(quantum),
            ..self
        };
        if ran.burst_completed {
            next.settle(ran)
        } else {
            SchedulerView { level_two: next.level_two.push(ran), ..next }
        }
    }

    /// Whether the head of the I/O-wait queue is due at the current clock.
    pub open spec fn arrival_imminent(self) -> bool {
        self.io_queue.len() > 0 && self.io_queue[0].return_from_io_time <= self.global_clock
    }

    /// The state after the head of the second level has run for at most one
    /// quantum of that level.  A process that did not finish its burst
    /// stays in the second level, at the back, if the head of the I/O-wait
    /// queue is due; else it goes down to the third level.
    pub open spec fn serve_level_two(self) -> SchedulerView {
        let p = self.level_two[0];
        let quantum = LEVEL_TWO_QUANTUM as int;
        let ran = p.run(quantum, self.global_clock);
        let next = SchedulerView {
            level_two: self.level_two.skip(1),
            global_clock: self.global_clock + p.consumed(quantum),
            ..self
        };
        if ran.burst_completed {
            next.settle(ran)
        } else if next.arrival_imminent() {
            SchedulerView { level_two: next.level_two.push(ran), ..next }
        } else {
            SchedulerView { level_three: sorted_by_burst(next.level_three.push(ran)), ..next }
        }
    }

    /// The state after the head of the third level has run for its whole
    /// current burst.
    pub open spec fn serve_level_three(self) -> SchedulerView {
        SchedulerView { level_three: self.level_three.skip(1), ..self }.serve_whole(
            self.level_three[0],
        )
    }

    /// The state after the feedback queue has served the head of its first
    /// level that is not empty, or after an idle tick if all are empty.
    pub open spec fn serve_levels(self) -> SchedulerView {
        if self.ready.len() > 0 {
            self.serve_level_one()
        } else if self.level_two.len() > 0 {
            self.serve_level_two()
        } else if self.level_three.len() > 0 {
            self.serve_level_three()
        } else {
            self.tick()
        }
    }

    /// The state after one process has been served, or one idle tick has
    /// passed, as the policy has it.
    pub open spec fn serve(self) -> SchedulerView {
        match self.policy {
            Policy::Fcfs => self.serve_ready(),
            Policy::Sjf => self.serve_ready(),
            Policy::Mlfq => self.serve_levels(),
        }
    }

    /// The state after every process whose I/O wait is over has gone to the
    /// back of the ready queue, in the order in which they waited.  The
    /// others stay, in their order.  Under shortest-job-first the ready
    /// queue is then put in order again.
    pub open spec fn release(self) -> SchedulerView {
        let ready = self.ready + self.io_queue.filter(due(self.global_clock));
        SchedulerView {
            ready: if self.policy is Sjf {
                sorted_by_burst(ready)
            } else {
                ready
            },
            io_queue: self.io_queue.filter(negated(due(self.global_clock))),
            ..self
        }
    }

    /// The state after one iteration of the scheduler.  A finished state
    /// stays as it is.
    pub open spec fn step(self) -> SchedulerView {
        if self.finished() {
            self
        } else {
            self.serve().release()
        }
    }

    /// Sum of `f` over the processes that are ready or wait for I/O.
    pub open spec fn mass(self, f: spec_fn(ProcessView) -> int) -> int {
        total(self.ready, f) + total(self.level_two, f) + total(self.level_three, f) + total(
            self.io_queue,
            f,
        )
    }

    /// Time that remains to be accounted for: every burst that is left,
    /// and the rest of every I/O wait that is under way.
    pub open spec fn load(self) -> int {
        self.mass(work()) + total(self.io_queue, slack(self.global_clock))
    }

    /// A clock value that the run cannot pass.
    pub open spec fn horizon(self) -> int {
        self.global_clock + self.load()
    }

    /// A number that every step of an unfinished run makes smaller.
    pub open spec fn effort(self) -> int {
        self.load() + self.mass(bursts_left())
    }

    /// Number of processes in the system, completed ones included.
    pub open spec fn population(self) -> nat {
        self.ready.len() + self.level_two.len() + self.level_three.len() + self.io_queue.len()
            + self.graveyard.len()
    }

    /// The identities of the processes in the system, completed ones
    /// included.
    pub open spec fn crowd(self) -> Multiset<(Seq<char>, int)> {
        census(self.ready, identity()).add(census(self.level_two, identity())).add(
            census(self.level_three, identity()),
        ).add(census(self.io_queue, identity())).add(census(self.graveyard, identity()))
    }

    /// Time during which the processor was busy.
    pub open spec fn busy_time(self) -> int {
        self.global_clock - self.wait_count
    }

    /// What holds of a state while a step is under way: every process that
    /// is not completed is runnable, the idle ticks are part of the clock,
    /// and only the feedback policy uses the second and third level.
    pub open spec fn orderly(self) -> bool {
        &&& all_runnable(self.ready)
        &&& all_runnable(self.level_two)
        &&& all_runnable(self.level_three)
        &&& all_runnable(self.io_queue)
        &&& 0 <= self.wait_count <= self.global_clock
        &&& !(self.policy is Mlfq) ==> self.level_two.len() == 0 && self.level_three.len() == 0
    }

    /// No process in the I/O-wait queue is due.
    pub open spec fn none_due(self) -> bool {
        forall|i: int|
            0 <= i < self.io_queue.len() ==> (#[trigger] self.io_queue[i]).return_from_io_time
                > self.global_clock
    }

    /// What holds of a state between two steps: it is orderly, and no
    /// process in the I/O-wait queue is due.
    pub open spec fn sound(self) -> bool {
        self.orderly() && self.none_due()
    }

    /// The queues that the policy keeps in order are in order: under
    /// shortest-job-first the ready queue, by current burst; under the
    /// feedback policy the third level, by current burst, and the I/O-wait
    /// queue, by return time.
    pub open spec fn ordered(self) -> bool {
        match self.policy {
            Policy::Fcfs => true,
            Policy::Sjf => ascending(burst_keys(self.ready)),
            Policy::Mlfq => ascending(burst_keys(self.level_three)) && ascending(
                return_keys(self.io_queue),
            ),
        }
    }

    /// A sound state whose horizon the machine's integers can hold.
    pub open spec fn in_range(self) -> bool {
        self.sound() && self.horizon() <= i32::MAX
    }
}

/// A workload that a scheduler can run: every process is runnable, and the
/// sum of all bursts fits the machine's integers.
pub open spec fn workload_ok(processes: Seq<ProcessView>) -> bool {
    all_runnable(processes) && total(processes, work()) <= i32::MAX
}

/// The state in which a run that goes on from the sound state `s` ends.
pub open spec fn run(s: SchedulerView) -> SchedulerView
    decreases s.effort(),
    when s.sound()
    via run_ends
{
    if s.finished() {
        s
    } else {
        run(s.step())
    }
}

#[via_fn]
proof fn run_ends(s: SchedulerView) {
    crate::laws::lemma_step(s);
}

} // verus!
