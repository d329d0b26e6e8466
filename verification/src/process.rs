//! The process: its bursts, its accounting fields and the operations that
//! move it from one burst to the next.

use std::cmp::Ordering;
use std::collections::VecDeque;
use vstd::prelude::*;

verus! {

/// The mathematical picture of a [`Process`]: the same fields over unbounded
/// integers and sequences.  Contracts are stated over this type.
pub struct ProcessView {
    /// Remaining bursts, the current one first.
    pub bursts: Seq<int>,
    /// Clock value at the first dispatch, once there has been one.
    pub first_accessed: Option<int>,
    /// Clock value at which the latest dispatch stopped consuming time.
    pub last_accessed: int,
    /// The process's name.
    pub name: Seq<char>,
    /// Clock value at which the pending I/O wait is over.
    pub return_from_io_time: int,
    /// Total length of all bursts, as recorded when the process was made.
    pub total_process_time: int,
    /// Whether the latest dispatch used up the current CPU burst.
    pub burst_completed: bool,
}

impl ProcessView {
    /// The process still has a current burst.
    pub open spec fn has_burst(self) -> bool {
        self.bursts.len() > 0
    }

    /// Length of the current burst.
    pub open spec fn front(self) -> int
        recommends
            self.has_burst(),
    {
        self.bursts[0]
    }

    /// Time that a dispatch with `quantum` takes from the clock: the quantum,
    /// or the whole current burst where that is shorter.
    pub open spec fn consumed(self, quantum: int) -> int {
        if quantum <= self.front() {
            quantum
        } else {
            self.front()
        }
    }

    /// Part of `quantum` that a dispatch hands back.
    pub open spec fn unused(self, quantum: int) -> int {
        quantum - self.consumed(quantum)
    }

    /// The process after a dispatch with `quantum` at time `clock`.
    pub open spec fn run(self, quantum: int, clock: int) -> ProcessView {
        ProcessView {
            bursts: self.bursts.update(0, self.front() - self.consumed(quantum)),
            first_accessed: if self.first_accessed is None {
                Some(clock)
            } else {
                self.first_accessed
            },
            last_accessed: clock + self.consumed(quantum),
            burst_completed: self.front() <= quantum,
            ..self
        }
    }

    /// The process with its current burst taken off.
    pub open spec fn pop_burst(self) -> ProcessView {
        ProcessView { bursts: self.bursts.skip(1), ..self }
    }

    /// The process with the end of its current I/O burst recorded, counted
    /// from `clock`.
    pub open spec fn calc_return_time(self, clock: int) -> ProcessView {
        ProcessView { return_from_io_time: clock + self.front(), ..self }
    }

    /// The process as it enters the I/O-wait queue at time `clock`, its CPU
    /// burst used up: that burst is gone, the end of the I/O wait is
    /// recorded, and the I/O burst is gone too.
    pub open spec fn into_wait(self, clock: int) -> ProcessView {
        self.pop_burst().calc_return_time(clock).pop_burst()
    }

    /// A process as it is before its first dispatch: the given bursts, their
    /// sum as total, and every accounting field at zero.
    pub open spec fn fresh(name: Seq<char>, bursts: Seq<int>) -> ProcessView {
        ProcessView {
            bursts,
            first_accessed: None,
            last_accessed: 0,
            name,
            return_from_io_time: 0,
            total_process_time: sum_of(bursts),
            burst_completed: false,
        }
    }

    /// Sum of the bursts that the process still has to serve.
    pub open spec fn remaining(self) -> int {
        sum_of(self.bursts)
    }

    /// Time from the start of the simulation to the first dispatch.
    pub open spec fn response_time(self) -> Option<int> {
        self.first_accessed
    }

    /// Time from the start of the simulation to the latest event; for a
    /// completed process, to its completion.
    pub open spec fn turnaround_time(self) -> int {
        self.last_accessed
    }

    /// Time that the process spent neither running nor in I/O.
    pub open spec fn waiting_time(self) -> int {
        self.last_accessed - self.total_process_time
    }
}

/// The burst lengths of a queue of bursts, as unbounded integers.
pub open spec fn burst_lengths(bursts: Seq<i32>) -> Seq<int> {
    bursts.map_values(|b: i32| b as int)
}

/// Sum of a sequence of integers.
pub open spec fn sum_of(s: Seq<int>) -> int
    decreases s.len(),
{
    if s.len() == 0 {
        0
    } else {
        sum_of(s.drop_last()) + s.last()
    }
}

/// Every element of `s` is at least zero.
pub open spec fn non_negative(s: Seq<int>) -> bool {
    forall|i: int| 0 <= i < s.len() ==> s[i] >= 0
}

/// The sum of non-negative numbers is non-negative, and no prefix sums to
/// more than the whole.
pub proof fn lemma_sum_of_prefix(s: Seq<int>, n: int)
    requires
        non_negative(s),
        0 <= n <= s.len(),
    ensures
        0 <= sum_of(s.take(n)) <= sum_of(s),
    decreases s.len() - n,
{
    if n == s.len() {
        assert(s.take(n) =~= s);
        lemma_sum_of_non_negative(s);
    } else {
        lemma_sum_of_prefix(s, n + 1);
        assert(s.take(n + 1).drop_last() =~= s.take(n));
        lemma_sum_of_non_negative(s.take(n));
    }
}

/// The sum of a sequence is its first element and the sum of the rest.
pub proof fn lemma_sum_of_first(s: Seq<int>)
    requires
        s.len() > 0,
    ensures
        sum_of(s) == s[0] + sum_of(s.skip(1)),
    decreases s.len(),
{
    if s.len() == 1 {
        assert(s.skip(1) =~= Seq::<int>::empty());
        assert(s.drop_last() =~= Seq::<int>::empty());
        assert(sum_of(s.drop_last()) == 0);
    } else {
        lemma_sum_of_first(s.drop_last());
        assert(s.drop_last().skip(1) =~= s.skip(1).drop_last());
    }
}

/// The sum of non-negative numbers is non-negative.
pub proof fn lemma_sum_of_non_negative(s: Seq<int>)
    requires
        non_negative(s),
    ensures
        sum_of(s) >= 0,
    decreases s.len(),
{
    if s.len() > 0 {
        lemma_sum_of_non_negative(s.drop_last());
    }
}

/// One simulated job.
#[derive(Debug)]
pub struct Process {
    /// Remaining bursts, the current one first.  They alternate: CPU, I/O,
    /// CPU, and so on.
    pub process_bursts: VecDeque<i32>,
    /// Clock value at the first dispatch; it gives the response time.
    pub first_accessed: Option<i32>,
    /// Clock value at which the latest dispatch stopped consuming time; at
    /// the end of a run it is the turnaround time.
    pub last_accessed: i32,
    /// Identifier of the process.
    pub name: String,
    /// Clock value at which the process comes back from its I/O wait.
    pub return_from_io_time: i32,
    /// Sum of all burst lengths at creation; used for the waiting time.
    pub total_process_time: i32,
    /// Whether the latest dispatch used up the current CPU burst.
    pub burst_completed: bool,
}

impl View for Process {
    type V = ProcessView;

    open spec fn view(&self) -> ProcessView {
        ProcessView {
            bursts: burst_lengths(self.process_bursts@),
            first_accessed: match self.first_accessed {
                Some(t) => Some(t as int),
                None => None,
            },
            last_accessed: self.last_accessed as int,
            name: self.name@,
            return_from_io_time: self.return_from_io_time as int,
            total_process_time: self.total_process_time as int,
            burst_completed: self.burst_completed,
        }
    }
}

/// Two processes are equal, for the purpose of ordering a queue, when both
/// have a current burst and the two bursts are equally long.
impl PartialEq for Process {
    fn eq(&self, other: &Self) -> (same: bool) {
        if self.process_bursts.len() == 0 || other.process_bursts.len() == 0 {
            false
        } else {
            self.process_bursts[0] == other.process_bursts[0]
        }
    }
}

impl vstd::std_specs::cmp::PartialEqSpecImpl for Process {
    open spec fn obeys_eq_spec() -> bool {
        true
    }

    open spec fn eq_spec(&self, other: &Self) -> bool {
        self@.has_burst() && other@.has_burst() && self@.front() == other@.front()
    }
}

/// Processes are ordered by the length of their current burst, shortest
/// first.  A process without a current burst compares with nothing.
impl PartialOrd for Process {
    fn partial_cmp(&self, other: &Self) -> (order: Option<Ordering>) {
        if self.process_bursts.len() == 0 || other.process_bursts.len() == 0 {
            None
        } else {
            let mine: i32 = self.process_bursts[0];
            let theirs: i32 = other.process_bursts[0];
            if mine < theirs {
                Some(Ordering::Less)
            } else if mine == theirs {
                Some(Ordering::Equal)
            } else {
                Some(Ordering::Greater)
            }
        }
    }
}

impl vstd::std_specs::cmp::PartialOrdSpecImpl for Process {
    open spec fn obeys_partial_cmp_spec() -> bool {
        true
    }

    open spec fn partial_cmp_spec(&self, other: &Self) -> Option<Ordering> {
        if !self@.has_burst() || !other@.has_burst() {
            None
        } else if self@.front() < other@.front() {
            Some(Ordering::Less)
        } else if self@.front() == other@.front() {
            Some(Ordering::Equal)
        } else {
            Some(Ordering::Greater)
        }
    }
}

impl Default for Process {
    /// A process without a name and without bursts, every accounting field
    /// at zero.
    fn default() -> (p: Process)
        ensures
            p@ == ProcessView::fresh(Seq::empty(), Seq::empty()),
    {
        let p = Process {
            process_bursts: VecDeque::new(),
            first_accessed: None,
            last_accessed: 0,
            name: String::new(),
            return_from_io_time: 0,
            total_process_time: 0,
            burst_completed: false,
        };
        assert(p@.bursts =~= Seq::<int>::empty());
        p
    }
}

impl Process {
    /// Makes a process that has not run yet from its name and its bursts,
    /// and records the sum of the bursts as its total time.
    ///
    /// Returns `None` where a burst is negative or the sum does not fit the
    /// integer type.
    pub fn new(name: String, bursts: VecDeque<i32>) -> (made: Option<Process>)
        ensures
            made.is_some() == (non_negative(burst_lengths(bursts@)) && sum_of(
                burst_lengths(bursts@),
            ) <= i32::MAX),
            made matches Some(p) ==> p@ == ProcessView::fresh(name@, burst_lengths(bursts@)),
    {
        let ghost lengths = burst_lengths(bursts@);
        let n: usize = bursts.len();
        let mut total: i32 = 0;
        let mut i: usize = 0;
        while i < n
            invariant
                n == bursts@.len(),
                lengths == burst_lengths(bursts@),
                0 <= i <= n,
                non_negative(lengths.take(i as int)),
                total == sum_of(lengths.take(i as int)),
                0 <= total,
            decreases n - i,
        {
            let burst: i32 = bursts[i];
            proof {
                assert(lengths.take(i + 1).drop_last() =~= lengths.take(i as int));
                assert(lengths[i as int] == burst);
            }
            if burst < 0 {
                return None;
            }
            if burst > i32::MAX - total {
                proof {
                    if non_negative(lengths) {
                        lemma_sum_of_prefix(lengths, i + 1);
                    }
                }
                return None;
            }
            total = total + burst;
            i = i + 1;
        }
        proof {
            assert(lengths.take(n as int) =~= lengths);
        }
        Some(
            Process {
                process_bursts: bursts,
                first_accessed: None,
                last_accessed: 0,
                name,
                return_from_io_time: 0,
                total_process_time: total,
                burst_completed: false,
            },
        )
    }

    /// Dispatches the process at time `global_clock` for at most
    /// `time_quanta` units and returns the part of the quantum that was not
    /// needed.
    ///
    /// The current burst shrinks by the time consumed;
    /// `burst_completed` tells whether it reached zero.  The first dispatch
    /// ever records `global_clock` in `first_accessed`, and `last_accessed`
    /// becomes the instant at which the process stopped running.
    pub fn run(&mut self, time_quanta: i32, global_clock: i32) -> (unused: i32)
        requires
            time_quanta >= 0,
            old(self)@.has_burst(),
            old(self)@.front() >= 0,
            i32::MIN <= global_clock + old(self)@.consumed(time_quanta as int) <= i32::MAX,
        ensures
            final(self)@ == old(self)@.run(time_quanta as int, global_clock as int),
            unused == old(self)@.unused(time_quanta as int),
    {
        if self.first_accessed.is_none() {
            self.first_accessed = Some(global_clock);
        }
        let burst: i32 = self.process_bursts[0];
        let used: i32 = if time_quanta <= burst {
            time_quanta
        } else {
            burst
        };
        let _ = self.process_bursts.pop_front();
        self.process_bursts.push_front(burst - used);
        self.burst_completed = burst <= time_quanta;
        self.last_accessed = global_clock + used;
        assert(self@.bursts =~= old(self)@.bursts.update(0, burst - used));
        time_quanta - used
    }

    /// Takes the exhausted CPU burst off the front.  What is then in front,
    /// if anything, is the I/O burst that follows it; a process left with no
    /// bursts is complete.
    pub fn ready_next_io(&mut self)
        requires
            old(self)@.has_burst(),
            old(self)@.burst_completed,
        ensures
            final(self)@ == old(self)@.pop_burst(),
    {
        let _ = self.process_bursts.pop_front();
        assert(self@.bursts =~= old(self)@.bursts.skip(1));
    }

    /// Records in `return_from_io_time` when the I/O burst in front, started
    /// at `global_clock`, will be over.  The burst itself stays in place.
    pub fn calc_return_time(&mut self, global_clock: i32)
        requires
            old(self)@.has_burst(),
            i32::MIN <= global_clock + old(self)@.front() <= i32::MAX,
        ensures
            final(self)@ == old(self)@.calc_return_time(global_clock as int),
    {
        let burst: i32 = self.process_bursts[0];
        self.return_from_io_time = global_clock + burst;
    }

    /// Takes the I/O burst off the front, so that the next CPU burst, if
    /// there is one, becomes the current burst.  A process without bursts is
    /// left as it is.
    pub fn ready_next_cpu(&mut self)
        ensures
            final(self)@ == if old(self)@.has_burst() {
                old(self)@.pop_burst()
            } else {
                old(self)@
            },
    {
        let _ = self.process_bursts.pop_front();
        assert(self@.bursts =~= if old(self)@.has_burst() {
            old(self)@.bursts.skip(1)
        } else {
            old(self)@.bursts
        });
    }

    /// Whether the process has run out of bursts.
    pub fn is_complete(&self) -> (done: bool)
        ensures
            done == !self@.has_burst(),
    {
        self.process_bursts.len() == 0
    }

    /// Time from the start of the simulation to the first dispatch, or
    /// `None` for a process that never ran.
    pub fn response_time(&self) -> (t: Option<i32>)
        ensures
            t.is_some() == self@.response_time().is_some(),
            t matches Some(v) ==> self@.response_time() == Some(v as int),
    {
        self.first_accessed
    }

    /// Time from the start of the simulation to the completion of the
    /// process.
    pub fn turnaround_time(&self) -> (t: i32)
        ensures
            t == self@.turnaround_time(),
    {
        self.last_accessed
    }

    /// Turnaround time less the total burst time, or `None` where that
    /// difference does not fit the integer type.
    pub fn waiting_time(&self) -> (t: Option<i32>)
        ensures
            t.is_some() == (i32::MIN <= self@.waiting_time() <= i32::MAX),
            t matches Some(v) ==> v == self@.waiting_time(),
    {
        self.last_accessed.checked_sub(self.total_process_time)
    }
}

} // verus!
