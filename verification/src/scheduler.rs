//! The scheduler that runs: queues of processes, a clock, and the three
//! policies, each step proved to do what the model's step does.

use crate::laws::{
    lemma_effort_bounds, lemma_into_wait, lemma_members_runnable, lemma_queue_bounds, lemma_run,
    lemma_run_of_workload, lemma_run_outcome, lemma_serve, lemma_start, lemma_start_in_order,
    lemma_step, lemma_step_keeps_order, lemma_tick,
};
use crate::model::{
    all_runnable, due, identity, run, runnable, slack, work, workload_ok, Policy, SchedulerView,
    LEVEL_ONE_QUANTUM, LEVEL_TWO_QUANTUM,
};
use crate::ordering::{sort_queue, views, QueueOrder};
use crate::process::{
    lemma_sum_of_non_negative, lemma_sum_of_prefix, non_negative, sum_of, Process, ProcessView,
};
use crate::tally::{
    census, lemma_filter_members, lemma_total_bounds, lemma_total_concat, lemma_total_push,
    negated, total,
};
use std::collections::VecDeque;
use vstd::prelude::*;
use vstd::seq_lib::*;

verus! {

/// A scheduler in the middle of a run: the queues that hold the processes,
/// the clock, and the count of idle ticks.
#[derive(Debug)]
pub struct Scheduler {
    /// The policy that the scheduler follows.
    pub policy: Policy,
    /// The ready queue; under the feedback policy, its first level.
    pub ready: VecDeque<Process>,
    /// Second level of the feedback queue.
    pub level_two: VecDeque<Process>,
    /// Third level of the feedback queue, shortest current burst first.
    pub level_three: VecDeque<Process>,
    /// Processes that wait for their I/O to end.
    pub io_queue: VecDeque<Process>,
    /// Completed processes, in order of completion.
    pub graveyard: VecDeque<Process>,
    /// The global clock.
    pub global_clock: i32,
    /// Number of ticks at which no process was ready.
    pub wait_count: i32,
}

impl View for Scheduler {
    type V = SchedulerView;

    open spec fn view(&self) -> SchedulerView {
        SchedulerView {
            policy: self.policy,
            ready: views(self.ready@),
            level_two: views(self.level_two@),
            level_three: views(self.level_three@),
            io_queue: views(self.io_queue@),
            graveyard: views(self.graveyard@),
            global_clock: self.global_clock as int,
            wait_count: self.wait_count as int,
        }
    }
}

impl Scheduler {
    /// Makes a scheduler that is about to run `processes` under `policy`:
    /// every process is ready, in the order given, and the clock is at
    /// zero.  Under shortest-job-first the ready queue is put in order.
    pub fn new(processes: VecDeque<Process>, policy: Policy) -> (made: Scheduler)
        requires
            workload_ok(views(processes@)),
        ensures
            made@ == SchedulerView::start(views(processes@), policy),
            made@.in_range(),
            made@.ordered(),
    {
        let mut made = Scheduler {
            policy,
            ready: processes,
            level_two: VecDeque::new(),
            level_three: VecDeque::new(),
            io_queue: VecDeque::new(),
            graveyard: VecDeque::new(),
            global_clock: 0,
            wait_count: 0,
        };
        proof {
            lemma_start(views(processes@), policy);
            lemma_start_in_order(views(processes@), policy);
            assert(made@.level_two =~= Seq::<ProcessView>::empty());
            assert(made@.level_three =~= Seq::<ProcessView>::empty());
            assert(made@.io_queue =~= Seq::<ProcessView>::empty());
            assert(made@.graveyard =~= Seq::<ProcessView>::empty());
        }
        match policy {
            Policy::Sjf => {
                sort_queue(&mut made.ready, QueueOrder::ShortestBurst);
            },
            _ => {},
        }
        made
    }

    /// Whether the run is over: no process is ready and none waits for
    /// I/O.
    pub fn is_finished(&self) -> (done: bool)
        ensures
            done == self@.finished(),
    {
        self.ready.len() == 0 && self.level_two.len() == 0 && self.level_three.len() == 0
            && self.io_queue.len() == 0
    }

    /// Time during which the processor was busy: the clock less the idle
    /// ticks.  It is never negative and never more than the clock.
    pub fn busy_time(&self) -> (busy: i32)
        requires
            0 <= self@.wait_count <= self@.global_clock,
        ensures
            busy == self@.busy_time(),
            0 <= busy <= self@.global_clock,
    {
        self.global_clock - self.wait_count
    }

    /// Lets one tick pass without a process on the processor.
    fn tick(&mut self)
        requires
            old(self)@.global_clock < i32::MAX,
            old(self)@.wait_count < i32::MAX,
        ensures
            final(self)@ == old(self)@.tick(),
    {
        self.global_clock = self.global_clock + 1;
        self.wait_count = self.wait_count + 1;
    }

    /// Puts a process whose CPU burst is used up where it belongs: in the
    /// graveyard if it has no burst left after that one, else in the
    /// I/O-wait queue.
    fn settle(&mut self, ran: Process)
        requires
            runnable(ran@),
            ran@.burst_completed,
            old(self)@.global_clock >= 0,
            all_runnable(old(self)@.io_queue),
            ran@.bursts.len() > 1 ==> old(self)@.global_clock + ran@.bursts[1] <= i32::MAX,
        ensures
            final(self)@ == old(self)@.settle(ran@),
    {
        let mut process = ran;
        process.ready_next_io();
        if process.is_complete() {
            self.graveyard.push_back(process);
            assert(self@.graveyard =~= old(self)@.graveyard.push(ran@.pop_burst()));
        } else {
            proof {
                lemma_into_wait(ran@, self@.global_clock);
                assert(ran@.pop_burst().front() == ran@.bursts[1]);
            }
            process.calc_return_time(self.global_clock);
            process.ready_next_cpu();
            self.io_queue.push_back(process);
            let ghost longer = old(self)@.io_queue.push(ran@.into_wait(self@.global_clock));
            assert(self@.io_queue =~= longer);
            match self.policy {
                Policy::Mlfq => {
                    sort_queue(&mut self.io_queue, QueueOrder::SoonestReturn);
                },
                _ => {},
            }
        }
    }

    /// Runs a process, which has been taken off its queue, for its whole
    /// current burst, and settles it.
    fn serve_whole(&mut self, p: Process)
        requires
            runnable(p@),
            old(self)@.global_clock >= 0,
            all_runnable(old(self)@.io_queue),
            old(self)@.global_clock + p@.remaining() <= i32::MAX,
        ensures
            final(self)@ == old(self)@.serve_whole(p@),
    {
        let mut process = p;
        proof {
            lemma_run(p@, p@.front(), self@.global_clock);
            if p@.bursts.len() > 1 {
                lemma_into_wait(p@, 0);
                lemma_sum_of_non_negative(p@.into_wait(0).bursts);
            }
        }
        let burst: i32 = process.process_bursts[0];
        let _ = process.run(burst, self.global_clock);
        self.global_clock = self.global_clock + burst;
        self.settle(process);
    }

    /// Runs a process, which has been taken off a round-robin level, for at
    /// most `quantum`, moves the clock on by the time consumed, and hands
    /// the process back if its burst is not used up; else settles it.
    fn serve_quantum(&mut self, p: Process, quantum: i32) -> (left: Option<Process>)
        requires
            runnable(p@),
            quantum > 0,
            old(self)@.global_clock >= 0,
            all_runnable(old(self)@.io_queue),
            old(self)@.global_clock + p@.remaining() <= i32::MAX,
        ensures
            ({
                let ran = p@.run(quantum as int, old(self)@.global_clock);
                let next = SchedulerView {
                    global_clock: old(self)@.global_clock + p@.consumed(quantum as int),
                    ..old(self)@
                };
                if ran.burst_completed {
                    left.is_none() && final(self)@ == next.settle(ran)
                } else {
                    left.is_some() && left.unwrap()@ == ran && final(self)@ == next
                }
            }),
    {
        let mut process = p;
        proof {
            lemma_run(p@, quantum as int, self@.global_clock);
            if p@.bursts.len() > 1 {
                lemma_into_wait(p@, 0);
                lemma_sum_of_non_negative(p@.into_wait(0).bursts);
            }
        }
        let unused: i32 = process.run(quantum, self.global_clock);
        self.global_clock = self.global_clock + (quantum - unused);
        if process.burst_completed {
            self.settle(process);
            None
        } else {
            Some(process)
        }
    }

    /// Brings every process whose I/O wait is over to the back of the ready
    /// queue, and under shortest-job-first puts the ready queue in order.
    fn release(&mut self)
        requires
            all_runnable(old(self)@.ready),
            all_runnable(old(self)@.io_queue),
        ensures
            final(self)@ == old(self)@.release(),
    {
        let ghost before = self@;
        let ghost is_due = due(before.global_clock);
        let n: usize = self.io_queue.len();
        let mut i: usize = 0;
        proof {
            reveal(Seq::filter);
            assert(before.io_queue.skip(0) =~= before.io_queue);
            assert(before.io_queue.take(0) =~= Seq::<ProcessView>::empty());
        }
        while i < n
            invariant
                n == before.io_queue.len(),
                i <= n,
                is_due == due(before.global_clock),
                self@.policy == before.policy,
                self@.global_clock == before.global_clock,
                self@.wait_count == before.wait_count,
                self@.level_two == before.level_two,
                self@.level_three == before.level_three,
                self@.graveyard == before.graveyard,
                self@.ready == before.ready + before.io_queue.take(i as int).filter(is_due),
                self@.io_queue == before.io_queue.skip(i as int) + before.io_queue.take(
                    i as int,
                ).filter(negated(is_due)),
            decreases n - i,
        {
            let ghost seen = before.io_queue.take(i as int);
            let ghost current = before.io_queue[i as int];
            let ghost ready_so_far = self@.ready;
            let ghost io_so_far = self@.io_queue;
            proof {
                assert(before.io_queue.take(i + 1) =~= seen.push(current));
                seen.lemma_filter_push(current, is_due);
                seen.lemma_filter_push(current, negated(is_due));
                assert(io_so_far[0] == current);
                assert(is_due(current) == (current.return_from_io_time <= before.global_clock));
                assert(negated(is_due)(current) == !is_due(current));
                assert(io_so_far.skip(1) =~= before.io_queue.skip(i + 1) + seen.filter(
                    negated(is_due),
                ));
            }
            let front = self.io_queue.pop_front();
            assert(self@.io_queue =~= io_so_far.skip(1));
            match front {
                Some(process) => {
                    assert(process@ == current);
                    if process.return_from_io_time <= self.global_clock {
                        self.ready.push_back(process);
                        assert(self@.ready =~= ready_so_far.push(current));
                        assert(ready_so_far.push(current) =~= before.ready + seen.filter(
                            is_due,
                        ).push(current));
                    } else {
                        self.io_queue.push_back(process);
                        assert(self@.io_queue =~= io_so_far.skip(1).push(current));
                        assert(io_so_far.skip(1).push(current) =~= before.io_queue.skip(i + 1)
                            + seen.filter(negated(is_due)).push(current));
                    }
                },
                None => {},
            }
            i = i + 1;
        }
        proof {
            assert(before.io_queue.take(n as int) =~= before.io_queue);
            assert(before.io_queue.skip(n as int) =~= Seq::<ProcessView>::empty());
            assert(self@.io_queue =~= before.io_queue.filter(negated(is_due)));
        }
        match self.policy {
            Policy::Sjf => {
                proof {
                    let back = before.io_queue.filter(is_due);
                    lemma_filter_members(before.io_queue, is_due);
                    lemma_members_runnable(before.io_queue, back);
                    assert forall|k: int| 0 <= k < self@.ready.len() implies (
                    #[trigger] self@.ready[k]).has_burst() by {
                        if k < before.ready.len() {
                            assert(runnable(before.ready[k]));
                        } else {
                            assert(runnable(back[k - before.ready.len()]));
                        }
                    }
                }
                sort_queue(&mut self.ready, QueueOrder::ShortestBurst);
            },
            _ => {},
        }
    }

    /// Serves the head of the ready queue for its whole current burst, or
    /// lets an idle tick pass if nothing is ready.
    fn serve_ready(&mut self)
        requires
            old(self)@.in_range(),
            !old(self)@.finished(),
            !(old(self)@.policy is Mlfq),
        ensures
            final(self)@ == old(self)@.serve_ready(),
    {
        proof {
            lemma_effort_bounds(self@);
            lemma_queue_bounds(self@.ready);
            lemma_queue_bounds(self@.level_two);
            lemma_queue_bounds(self@.level_three);
            lemma_queue_bounds(self@.io_queue);
            lemma_total_bounds(self@.io_queue, slack(self@.global_clock));
        }
        let head = self.ready.pop_front();
        match head {
            Some(process) => {
                assert(self@.ready =~= old(self)@.ready.skip(1));
                assert(process@ == old(self)@.ready[0]);
                self.serve_whole(process);
            },
            None => {
                proof {
                    lemma_tick(self@);
                    lemma_effort_bounds(self@.tick());
                }
                assert(self@.ready =~= old(self)@.ready);
                self.tick();
            },
        }
    }

    /// Serves the head of the first level of the feedback queue.
    fn serve_level_one(&mut self, process: Process)
        requires
            runnable(process@),
            old(self)@.global_clock >= 0,
            all_runnable(old(self)@.io_queue),
            old(self)@.global_clock + process@.remaining() <= i32::MAX,
        ensures
            final(self)@ == (SchedulerView {
                ready: seq![process@] + old(self)@.ready,
                ..old(self)@
            }).serve_level_one(),
    {
        let ghost whole = SchedulerView {
            ready: seq![process@] + old(self)@.ready,
            ..old(self)@
        };
        assert(whole.ready.skip(1) =~= old(self)@.ready);
        let left = self.serve_quantum(process, LEVEL_ONE_QUANTUM);
        match left {
            Some(back) => {
                self.level_two.push_back(back);
                assert(self@.level_two =~= old(self)@.level_two.push(back@));
            },
            None => {},
        }
    }

    /// Serves the head of the second level of the feedback queue.
    fn serve_level_two(&mut self, process: Process)
        requires
            runnable(process@),
            old(self)@.global_clock >= 0,
            all_runnable(old(self)@.io_queue),
            all_runnable(old(self)@.level_three),
            old(self)@.global_clock + process@.remaining() <= i32::MAX,
        ensures
            final(self)@ == (SchedulerView {
                level_two: seq![process@] + old(self)@.level_two,
                ..old(self)@
            }).serve_level_two(),
    {
        let ghost whole = SchedulerView {
            level_two: seq![process@] + old(self)@.level_two,
            ..old(self)@
        };
        assert(whole.level_two.skip(1) =~= old(self)@.level_two);
        proof {
            lemma_run(process@, LEVEL_TWO_QUANTUM as int, self@.global_clock);
        }
        let left = self.serve_quantum(process, LEVEL_TWO_QUANTUM);
        match left {
            Some(back) => {
                let imminent = self.io_queue.len() > 0 && self.io_queue[0].return_from_io_time
                    <= self.global_clock;
                assert(imminent == self@.arrival_imminent());
                if imminent {
                    self.level_two.push_back(back);
                    assert(self@.level_two =~= old(self)@.level_two.push(back@));
                } else {
                    self.level_three.push_back(back);
                    let ghost longer = old(self)@.level_three.push(back@);
                    assert(self@.level_three =~= longer);
                    assert forall|k: int| 0 <= k < longer.len() implies (
                    #[trigger] longer[k]).has_burst() by {
                        if k < old(self)@.level_three.len() {
                            assert(runnable(old(self)@.level_three[k]));
                        }
                    }
                    sort_queue(&mut self.level_three, QueueOrder::ShortestBurst);
                }
            },
            None => {},
        }
    }

    /// Serves the head of the first level of the feedback queue that is not
    /// empty, or lets an idle tick pass if all are empty.
    fn serve_levels(&mut self)
        requires
            old(self)@.in_range(),
            !old(self)@.finished(),
            old(self)@.policy is Mlfq,
        ensures
            final(self)@ == old(self)@.serve_levels(),
    {
        proof {
            lemma_effort_bounds(self@);
            lemma_queue_bounds(self@.ready);
            lemma_queue_bounds(self@.level_two);
            lemma_queue_bounds(self@.level_three);
            lemma_queue_bounds(self@.io_queue);
            lemma_total_bounds(self@.io_queue, slack(self@.global_clock));
        }
        if self.ready.len() > 0 {
            let head = self.ready.pop_front();
            match head {
                Some(process) => {
                    assert(self@.ready =~= old(self)@.ready.skip(1));
                    assert(process@ == old(self)@.ready[0]);
                    assert(seq![process@] + self@.ready =~= old(self)@.ready);
                    self.serve_level_one(process);
                },
                None => {},
            }
        } else if self.level_two.len() > 0 {
            let head = self.level_two.pop_front();
            match head {
                Some(process) => {
                    assert(self@.level_two =~= old(self)@.level_two.skip(1));
                    assert(process@ == old(self)@.level_two[0]);
                    assert(seq![process@] + self@.level_two =~= old(self)@.level_two);
                    self.serve_level_two(process);
                },
                None => {},
            }
        } else if self.level_three.len() > 0 {
            let head = self.level_three.pop_front();
            match head {
                Some(process) => {
                    assert(self@.level_three =~= old(self)@.level_three.skip(1));
                    assert(process@ == old(self)@.level_three[0]);
                    self.serve_whole(process);
                },
                None => {},
            }
        } else {
            proof {
                lemma_tick(self@);
                lemma_effort_bounds(self@.tick());
            }
            self.tick();
        }
    }

    /// One iteration of the scheduler: serves one process as the policy
    /// has it, or lets one idle tick pass where nothing is ready, and then
    /// brings every process whose I/O wait is over back to the ready
    /// queue.  A scheduler whose run is over is left as it is.
    ///
    /// The clock never goes back, and no process is lost or added.
    pub fn step(&mut self)
        requires
            old(self)@.in_range(),
        ensures
            final(self)@ == old(self)@.step(),
            final(self)@.in_range(),
            final(self)@.global_clock >= old(self)@.global_clock,
            final(self)@.population() == old(self)@.population(),
            final(self)@.crowd() == old(self)@.crowd(),
            old(self)@.ordered() ==> final(self)@.ordered(),
    {
        proof {
            lemma_step(self@);
            if self@.ordered() {
                lemma_step_keeps_order(self@);
            }
        }
        if self.is_finished() {
            return ;
        }
        proof {
            lemma_serve(self@);
        }
        match self.policy {
            Policy::Mlfq => {
                self.serve_levels();
            },
            _ => {
                self.serve_ready();
            },
        }
        self.release();
    }

    /// Steps until the run is over.
    ///
    /// At the end every process is in the graveyard, in order of
    /// completion: as many as were in the system, with the names and total
    /// times that they had.
    pub fn run(&mut self)
        requires
            old(self)@.in_range(),
        ensures
            final(self)@ == run(old(self)@),
            final(self)@.finished(),
            final(self)@.sound(),
            final(self)@.graveyard.len() == old(self)@.population(),
            census(final(self)@.graveyard, identity()) == old(self)@.crowd(),
            old(self)@.global_clock <= final(self)@.global_clock <= old(self)@.horizon(),
    {
        let ghost start = self@;
        proof {
            lemma_run_outcome(start);
        }
        while !self.is_finished()
            invariant
                self@.in_range(),
                run(self@) == run(start),
            decreases self@.effort(),
        {
            proof {
                lemma_step(self@);
            }
            self.step();
        }
    }
}

/// Whether a scheduler can run `processes`: every process has an odd number
/// of bursts, none of them negative, and the sum of all bursts of all
/// processes fits the machine's integers.
pub fn check_workload(processes: &VecDeque<Process>) -> (ok: bool)
    ensures
        ok == workload_ok(views(processes@)),
{
    let ghost all = views(processes@);
    let n: usize = processes.len();
    let mut sum: i32 = 0;
    let mut i: usize = 0;
    while i < n
        invariant
            n == processes@.len(),
            all == views(processes@),
            i <= n,
            all_runnable(all.take(i as int)),
            sum == total(all.take(i as int), work()),
            0 <= sum,
        decreases n - i,
    {
        let ghost seen = all.take(i as int);
        let ghost current = all[i as int];
        proof {
            assert(all.take(i + 1) =~= seen.push(current));
            assert(all.take(i + 1).drop_last() =~= seen);
            assert(processes@[i as int]@ == current);
        }
        let bursts = &processes[i].process_bursts;
        let m: usize = bursts.len();
        if m % 2 == 0 {
            assert(!runnable(all[i as int]));
            return false;
        }
        let mut j: usize = 0;
        while j < m
            invariant
                m == current.bursts.len(),
                current == processes@[i as int]@,
                bursts == processes@[i as int].process_bursts,
                j <= m,
                non_negative(current.bursts.take(j as int)),
                sum == total(seen, work()) + sum_of(current.bursts.take(j as int)),
                0 <= sum,
                all == views(processes@),
                seen == all.take(i as int),
                current == all[i as int],
                all_runnable(seen),
                0 <= i < n,
                n == processes@.len(),
            decreases m - j,
        {
            let burst: i32 = bursts[j];
            proof {
                assert(current.bursts.take(j + 1).drop_last() =~= current.bursts.take(j as int));
                assert(current.bursts[j as int] == burst);
            }
            if burst < 0 {
                assert(!runnable(all[i as int]));
                return false;
            }
            if burst > i32::MAX - sum {
                proof {
                    if workload_ok(all) {
                        assert(runnable(all[i as int]));
                        lemma_sum_of_prefix(current.bursts, j + 1);
                        assert(sum_of(current.bursts.take(j + 1)) == sum_of(
                            current.bursts.take(j as int),
                        ) + burst);
                        assert(all.take(i + 1) =~= seen.push(current));
                        lemma_total_push(seen, current, work());
                        assert(all =~= all.take(i + 1) + all.skip(i + 1));
                        lemma_total_concat(all.take(i + 1), all.skip(i + 1), work());
                        assert forall|k: int| 0 <= k < all.skip(i + 1).len() implies runnable(
                            #[trigger] all.skip(i + 1)[k],
                        ) by {
                            assert(all.skip(i + 1)[k] == all[k + i + 1]);
                        }
                        lemma_queue_bounds(all.skip(i + 1));
                    }
                }
                return false;
            }
            sum = sum + burst;
            j = j + 1;
        }
        proof {
            assert(current.bursts.take(m as int) =~= current.bursts);
            assert(runnable(current));
            assert forall|k: int| 0 <= k < all.take(i + 1).len() implies runnable(
                #[trigger] all.take(i + 1)[k],
            ) by {
                if k < i {
                    assert(all.take(i + 1)[k] == seen[k]);
                }
            }
        }
        i = i + 1;
    }
    proof {
        assert(all.take(n as int) =~= all);
    }
    true
}

/// Runs `processes` under `policy` if a scheduler can run them, and returns
/// the scheduler at the end of the run; returns `None` if it cannot, which
/// is when [`check_workload`] says so.
pub fn run_workload(processes: VecDeque<Process>, policy: Policy) -> (done: Option<Scheduler>)
    ensures
        done.is_some() == workload_ok(views(processes@)),
        done matches Some(end) ==> {
            &&& end@ == run(SchedulerView::start(views(processes@), policy))
            &&& end@.finished()
            &&& end@.graveyard.len() == processes@.len()
            &&& census(end@.graveyard, identity()) == census(views(processes@), identity())
            &&& 0 <= end@.wait_count <= end@.global_clock <= total(views(processes@), work())
        },
{
    if !check_workload(&processes) {
        return None;
    }
    proof {
        lemma_run_of_workload(views(processes@), policy);
    }
    let mut scheduler = Scheduler::new(processes, policy);
    scheduler.run();
    Some(scheduler)
}

/// Runs `processes` first come, first served: the ready queue is served in
/// arrival order, each process for its whole current burst.  Returns the
/// scheduler at the end of the run, with the completed processes, the final
/// clock and the count of idle ticks.
pub fn fcfs_scheduler(processes: VecDeque<Process>) -> (done: Scheduler)
    requires
        workload_ok(views(processes@)),
    ensures
        done@ == run(SchedulerView::start(views(processes@), Policy::Fcfs)),
        done@.finished(),
        done@.graveyard.len() == processes@.len(),
        census(done@.graveyard, identity()) == census(views(processes@), identity()),
        0 <= done@.wait_count <= done@.global_clock <= total(views(processes@), work()),
{
    proof {
        lemma_run_of_workload(views(processes@), Policy::Fcfs);
    }
    let mut scheduler = Scheduler::new(processes, Policy::Fcfs);
    scheduler.run();
    scheduler
}

/// Runs `processes` shortest job first: the ready queue is kept in order of
/// current burst, and its head is served for its whole current burst.
/// Returns the scheduler at the end of the run.
pub fn sjf_scheduler(processes: VecDeque<Process>) -> (done: Scheduler)
    requires
        workload_ok(views(processes@)),
    ensures
        done@ == run(SchedulerView::start(views(processes@), Policy::Sjf)),
        done@.finished(),
        done@.graveyard.len() == processes@.len(),
        census(done@.graveyard, identity()) == census(views(processes@), identity()),
        0 <= done@.wait_count <= done@.global_clock <= total(views(processes@), work()),
{
    proof {
        lemma_run_of_workload(views(processes@), Policy::Sjf);
    }
    let mut scheduler = Scheduler::new(processes, Policy::Sjf);
    scheduler.run();
    scheduler
}

/// Runs `processes` through the multi-level feedback queue: two
/// round-robin levels with quanta of 5 and 10, and a third level that is
/// kept in order of current burst.  Returns the scheduler at the end of the
/// run.
pub fn mlfq_scheduler(processes: VecDeque<Process>) -> (done: Scheduler)
    requires
        workload_ok(views(processes@)),
    ensures
        done@ == run(SchedulerView::start(views(processes@), Policy::Mlfq)),
        done@.finished(),
        done@.graveyard.len() == processes@.len(),
        census(done@.graveyard, identity()) == census(views(processes@), identity()),
        0 <= done@.wait_count <= done@.global_clock <= total(views(processes@), work()),
{
    proof {
        lemma_run_of_workload(views(processes@), Policy::Mlfq);
    }
    let mut scheduler = Scheduler::new(processes, Policy::Mlfq);
    scheduler.run();
    scheduler
}

} // verus!
