//! What every step of a scheduler keeps or changes, proved of the model.

use crate::model::{
    all_runnable, bursts_left, due, identity, run, runnable, slack, work, Policy, SchedulerView,
    LEVEL_ONE_QUANTUM, LEVEL_TWO_QUANTUM,
};
use crate::ordering::{
    arrange, burst_keys, lemma_arrange, lemma_arrange_members, lemma_filter_keeps_order,
    lemma_sorted_ascends, lemma_tail_keeps_order, return_keys, QueueOrder,
};
use crate::process::{lemma_sum_of_first, lemma_sum_of_non_negative, non_negative, ProcessView};
use crate::tally::{
    census, lemma_census_concat, lemma_census_filter, lemma_census_push, lemma_census_rearranged,
    lemma_census_skip_first, lemma_filter_lengths, lemma_filter_members, lemma_total_bounds,
    lemma_total_concat, lemma_total_filter, lemma_total_le, lemma_total_lt, lemma_total_push,
    lemma_total_rearranged, lemma_census_empty, lemma_total_skip_first, lemma_total_zero, negated,
    total,
};
use vstd::multiset::*;
use vstd::prelude::*;
use vstd::seq_lib::*;

verus! {

/// A dispatch leaves a runnable process runnable, with the same identity
/// and the same number of bursts, and takes the time it consumed from the
/// work that is left.
pub proof fn lemma_run(p: ProcessView, quantum: int, clock: int)
    requires
        runnable(p),
        quantum >= 0,
    ensures
        runnable(p.run(quantum, clock)),
        p.run(quantum, clock).bursts.len() == p.bursts.len(),
        p.run(quantum, clock).remaining() == p.remaining() - p.consumed(quantum),
        p.run(quantum, clock).front() == p.front() - p.consumed(quantum),
        p.run(quantum, clock).bursts.skip(1) == p.bursts.skip(1),
        identity()(p.run(quantum, clock)) == identity()(p),
        0 <= p.consumed(quantum) <= p.front() <= p.remaining(),
        p.run(quantum, clock).burst_completed == (p.front() <= quantum),
{
    let ran = p.run(quantum, clock);
    lemma_sum_of_first(p.bursts);
    lemma_sum_of_first(ran.bursts);
    assert(ran.bursts.skip(1) =~= p.bursts.skip(1));
    assert(non_negative(p.bursts.skip(1)));
    lemma_sum_of_non_negative(p.bursts.skip(1));
}

/// A runnable process with more than one burst, its CPU burst used up,
/// enters the I/O wait runnable, with the same identity and two bursts
/// fewer; its wait lasts as long as its I/O burst.
pub proof fn lemma_into_wait(p: ProcessView, clock: int)
    requires
        runnable(p),
        p.bursts.len() > 1,
    ensures
        runnable(p.into_wait(clock)),
        p.into_wait(clock).bursts.len() == p.bursts.len() - 2,
        p.into_wait(clock).remaining() == p.remaining() - p.bursts[0] - p.bursts[1],
        p.into_wait(clock).return_from_io_time == clock + p.bursts[1],
        p.bursts[1] >= 0,
        identity()(p.into_wait(clock)) == identity()(p),
{
    let w = p.into_wait(clock);
    lemma_sum_of_first(p.bursts);
    lemma_sum_of_first(p.bursts.skip(1));
    assert(w.bursts =~= p.bursts.skip(1).skip(1));
    assert(p.bursts.skip(1)[0] == p.bursts[1]);
    assert forall|i: int| 0 <= i < w.bursts.len() implies w.bursts[i] >= 0 by {
        assert(w.bursts[i] == p.bursts[i + 2]);
    }
}

/// A queue made of elements of runnable queues is runnable.
pub proof fn lemma_members_runnable(from: Seq<ProcessView>, queue: Seq<ProcessView>)
    requires
        all_runnable(from),
        forall|j: int| 0 <= j < queue.len() ==> from.contains(#[trigger] queue[j]),
    ensures
        all_runnable(queue),
{
    assert forall|j: int| 0 <= j < queue.len() implies runnable(#[trigger] queue[j]) by {
        assert(from.contains(queue[j]));
        let i = choose|i: int| 0 <= i < from.len() && from[i] == queue[j];
        assert(runnable(from[i]));
    }
}

/// Putting a queue in order keeps its length, its sums and its census, and
/// keeps it runnable.
pub proof fn lemma_arranged_queue(queue: Seq<ProcessView>, keys: Seq<int>)
    requires
        keys.len() == queue.len(),
    ensures
        arrange(queue, keys).len() == queue.len(),
        total(arrange(queue, keys), work()) == total(queue, work()),
        total(arrange(queue, keys), bursts_left()) == total(queue, bursts_left()),
        forall|clock: int|
            total(arrange(queue, keys), #[trigger] slack(clock)) == total(queue, slack(clock)),
        census(arrange(queue, keys), identity()) == census(queue, identity()),
        all_runnable(queue) ==> all_runnable(arrange(queue, keys)),
{
    lemma_arrange(queue, keys);
    lemma_arrange_members(queue, keys);
    lemma_total_rearranged(arrange(queue, keys), queue, work());
    lemma_total_rearranged(arrange(queue, keys), queue, bursts_left());
    assert forall|clock: int|
        total(arrange(queue, keys), #[trigger] slack(clock)) == total(queue, slack(clock)) by {
        lemma_total_rearranged(arrange(queue, keys), queue, slack(clock));
    }
    lemma_census_rearranged(arrange(queue, keys), queue, identity());
    if all_runnable(queue) {
        lemma_members_runnable(queue, arrange(queue, keys));
    }
}

/// Bringing back the processes whose I/O wait is over moves processes from
/// the I/O-wait queue to the ready queue and changes nothing else: neither
/// the load nor the effort, neither the number of processes nor who they
/// are.  Afterwards no process in the I/O-wait queue is due.
pub proof fn lemma_release(s: SchedulerView)
    requires
        s.orderly(),
    ensures
        s.release().sound(),
        s.release().policy == s.policy,
        s.release().global_clock == s.global_clock,
        s.release().wait_count == s.wait_count,
        s.release().level_two == s.level_two,
        s.release().level_three == s.level_three,
        s.release().graveyard == s.graveyard,
        s.release().horizon() == s.horizon(),
        s.release().effort() == s.effort(),
        s.release().population() == s.population(),
        s.release().crowd() == s.crowd(),
{
    broadcast use group_multiset_axioms;

    let r = s.release();
    let clock = s.global_clock;
    let back = s.io_queue.filter(due(clock));
    let stay = s.io_queue.filter(negated(due(clock)));
    let joined = s.ready + back;
    lemma_filter_members(s.io_queue, due(clock));
    lemma_filter_members(s.io_queue, negated(due(clock)));
    lemma_filter_lengths(s.io_queue, due(clock));
    lemma_members_runnable(s.io_queue, back);
    lemma_members_runnable(s.io_queue, stay);
    assert(all_runnable(joined)) by {
        assert forall|i: int| 0 <= i < joined.len() implies runnable(#[trigger] joined[i]) by {
            if i < s.ready.len() {
                assert(joined[i] == s.ready[i]);
            } else {
                assert(joined[i] == back[i - s.ready.len()]);
            }
        }
    }
    lemma_arranged_queue(joined, burst_keys(joined));
    assert(r.ready.len() == joined.len());
    assert(all_runnable(r.ready));
    assert(r.none_due());

    lemma_total_filter(s.io_queue, due(clock), work());
    lemma_total_filter(s.io_queue, due(clock), bursts_left());
    lemma_total_filter(s.io_queue, due(clock), slack(clock));
    lemma_total_zero(back, slack(clock));
    lemma_total_concat(s.ready, back, work());
    lemma_total_concat(s.ready, back, bursts_left());
    assert(total(r.ready, work()) == total(joined, work()));
    assert(total(r.ready, bursts_left()) == total(joined, bursts_left()));
    assert(r.mass(work()) == s.mass(work()));
    assert(r.mass(bursts_left()) == s.mass(bursts_left()));

    lemma_census_filter(s.io_queue, due(clock), identity());
    lemma_census_concat(s.ready, back, identity());
    assert(census(r.ready, identity()) == census(joined, identity()));
    assert(r.crowd() =~= s.crowd());
}

/// As the clock moves on, the I/O waits that are under way get shorter, or
/// stay at zero.
pub proof fn lemma_slack_shrinks(queue: Seq<ProcessView>, clock: int, later: int)
    requires
        clock <= later,
    ensures
        0 <= total(queue, slack(later)) <= total(queue, slack(clock)),
{
    lemma_total_le(queue, slack(later), slack(clock));
    lemma_total_bounds(queue, slack(later));
}

/// The work and the bursts that are left in a runnable queue are not
/// negative, and no process has more of either than the whole queue.
pub proof fn lemma_queue_bounds(queue: Seq<ProcessView>)
    requires
        all_runnable(queue),
    ensures
        total(queue, work()) >= 0,
        total(queue, bursts_left()) >= 0,
        forall|i: int|
            0 <= i < queue.len() ==> 0 <= (#[trigger] queue[i]).front() <= queue[i].remaining()
                <= total(queue, work()),
{
    assert forall|i: int| 0 <= i < queue.len() implies work()(#[trigger] queue[i]) >= 0 by {
        assert(runnable(queue[i]));
        lemma_sum_of_non_negative(queue[i].bursts);
    }
    lemma_total_bounds(queue, work());
    lemma_total_bounds(queue, bursts_left());
    assert forall|i: int| 0 <= i < queue.len() implies 0 <= (#[trigger] queue[i]).front()
        <= queue[i].remaining() <= total(queue, work()) by {
        assert(runnable(queue[i]));
        lemma_run(queue[i], 0, 0);
        assert(work()(queue[i]) <= total(queue, work()));
    }
}

/// Settling a process whose CPU burst is used up adds it to the system, in
/// the graveyard or in the I/O-wait queue, and adds to the load what the
/// process has left after that burst.
pub proof fn lemma_settle(s: SchedulerView, ran: ProcessView)
    requires
        s.orderly(),
        runnable(ran),
    ensures
        s.settle(ran).orderly(),
        s.settle(ran).policy == s.policy,
        s.settle(ran).global_clock == s.global_clock,
        s.settle(ran).wait_count == s.wait_count,
        s.settle(ran).ready == s.ready,
        s.settle(ran).level_two == s.level_two,
        s.settle(ran).level_three == s.level_three,
        s.settle(ran).load() == s.load() + ran.remaining() - ran.front(),
        s.settle(ran).mass(bursts_left()) <= s.mass(bursts_left()) + ran.bursts.len() - 1,
        s.settle(ran).population() == s.population() + 1,
        s.settle(ran).crowd() == s.crowd().insert(identity()(ran)),
{
    broadcast use group_multiset_axioms;

    let t = s.settle(ran);
    let clock = s.global_clock;
    lemma_sum_of_first(ran.bursts);
    if ran.bursts.len() <= 1 {
        assert(ran.bursts.skip(1) =~= Seq::<int>::empty());
        lemma_census_push(s.graveyard, ran.pop_burst(), identity());
        assert(t.crowd() =~= s.crowd().insert(identity()(ran)));
    } else {
        let w = ran.into_wait(clock);
        let longer = s.io_queue.push(w);
        lemma_into_wait(ran, clock);
        assert(all_runnable(longer)) by {
            assert forall|i: int| 0 <= i < longer.len() implies runnable(#[trigger] longer[i]) by {
                if i < s.io_queue.len() {
                    assert(longer[i] == s.io_queue[i]);
                }
            }
        }
        lemma_arranged_queue(longer, return_keys(longer));
        lemma_total_push(s.io_queue, w, work());
        lemma_total_push(s.io_queue, w, bursts_left());
        lemma_total_push(s.io_queue, w, slack(clock));
        lemma_census_push(s.io_queue, w, identity());
        assert(total(t.io_queue, work()) == total(longer, work()));
        assert(total(t.io_queue, bursts_left()) == total(longer, bursts_left()));
        assert(total(t.io_queue, slack(clock)) == total(longer, slack(clock)));
        assert(census(t.io_queue, identity()) == census(longer, identity()));
        assert(t.crowd() =~= s.crowd().insert(identity()(ran)));
    }
}

/// Serving a process for its whole current burst moves the clock on by
/// that burst and settles the process.
pub proof fn lemma_serve_whole(s: SchedulerView, p: ProcessView)
    requires
        s.orderly(),
        runnable(p),
    ensures
        s.serve_whole(p).orderly(),
        s.serve_whole(p).policy == s.policy,
        s.serve_whole(p).global_clock == s.global_clock + p.front(),
        s.serve_whole(p).wait_count == s.wait_count,
        s.serve_whole(p).load() <= s.load() + p.remaining() - p.front(),
        s.serve_whole(p).mass(bursts_left()) <= s.mass(bursts_left()) + p.bursts.len() - 1,
        s.serve_whole(p).population() == s.population() + 1,
        s.serve_whole(p).crowd() == s.crowd().insert(identity()(p)),
        p.front() >= 0,
{
    let later = SchedulerView { global_clock: s.global_clock + p.front(), ..s };
    let ran = p.run(p.front(), s.global_clock);
    lemma_run(p, p.front(), s.global_clock);
    lemma_slack_shrinks(s.io_queue, s.global_clock, later.global_clock);
    assert(later.mass(work()) == s.mass(work()));
    assert(later.mass(bursts_left()) == s.mass(bursts_left()));
    assert(later.crowd() == s.crowd());
    lemma_settle(later, ran);
}

/// What a queue loses with its head: the head's share of every sum and the
/// head's identity.
pub proof fn lemma_without_head(queue: Seq<ProcessView>)
    requires
        all_runnable(queue),
        queue.len() > 0,
    ensures
        runnable(queue[0]),
        all_runnable(queue.skip(1)),
        total(queue.skip(1), work()) == total(queue, work()) - queue[0].remaining(),
        total(queue.skip(1), bursts_left()) == total(queue, bursts_left()) - queue[0].bursts.len(),
        census(queue, identity()) == census(queue.skip(1), identity()).insert(
            identity()(queue[0]),
        ),
{
    assert forall|i: int| 0 <= i < queue.skip(1).len() implies runnable(
        #[trigger] queue.skip(1)[i],
    ) by {
        assert(queue.skip(1)[i] == queue[i + 1]);
    }
    lemma_total_skip_first(queue, work());
    lemma_total_skip_first(queue, bursts_left());
    lemma_census_skip_first(queue, identity());
}

/// What a queue gains with a process at its back, whether the queue is then
/// put in order or not.
pub proof fn lemma_with_last(queue: Seq<ProcessView>, p: ProcessView, keys: Seq<int>)
    requires
        all_runnable(queue),
        runnable(p),
        keys.len() == queue.len() + 1,
    ensures
        all_runnable(queue.push(p)),
        all_runnable(arrange(queue.push(p), keys)),
        arrange(queue.push(p), keys).len() == queue.len() + 1,
        total(queue.push(p), work()) == total(queue, work()) + p.remaining(),
        total(arrange(queue.push(p), keys), work()) == total(queue, work()) + p.remaining(),
        total(queue.push(p), bursts_left()) == total(queue, bursts_left()) + p.bursts.len(),
        total(arrange(queue.push(p), keys), bursts_left()) == total(queue, bursts_left())
            + p.bursts.len(),
        census(queue.push(p), identity()) == census(queue, identity()).insert(identity()(p)),
        census(arrange(queue.push(p), keys), identity()) == census(queue, identity()).insert(
            identity()(p),
        ),
{
    let longer = queue.push(p);
    assert forall|i: int| 0 <= i < longer.len() implies runnable(#[trigger] longer[i]) by {
        if i < queue.len() {
            assert(longer[i] == queue[i]);
        }
    }
    lemma_arranged_queue(longer, keys);
    lemma_total_push(queue, p, work());
    lemma_total_push(queue, p, bursts_left());
    lemma_census_push(queue, p, identity());
}

/// An idle tick, when nothing is ready but some process waits for I/O,
/// shortens every wait.
pub proof fn lemma_tick(s: SchedulerView)
    requires
        s.sound(),
        s.io_queue.len() > 0,
    ensures
        s.tick().orderly(),
        s.tick().load() < s.load(),
        s.tick().horizon() <= s.horizon(),
        s.tick().effort() < s.effort(),
        s.tick().population() == s.population(),
        s.tick().crowd() == s.crowd(),
{
    let t = s.tick();
    lemma_total_lt(s.io_queue, slack(s.global_clock + 1), slack(s.global_clock));
    assert(t.mass(work()) == s.mass(work()));
    assert(t.mass(bursts_left()) == s.mass(bursts_left()));
}

/// Serving the head of the ready queue for its whole burst.
pub proof fn lemma_serve_ready(s: SchedulerView)
    requires
        s.sound(),
        !s.finished(),
        !(s.policy is Mlfq),
    ensures
        s.serve_ready().orderly(),
        s.serve_ready().policy == s.policy,
        s.serve_ready().global_clock >= s.global_clock,
        s.serve_ready().wait_count >= s.wait_count,
        s.serve_ready().busy_time() >= s.busy_time(),
        s.serve_ready().horizon() <= s.horizon(),
        s.serve_ready().effort() < s.effort(),
        s.serve_ready().population() == s.population(),
        s.serve_ready().crowd() == s.crowd(),
{
    broadcast use group_multiset_axioms;

    if s.ready.len() > 0 {
        let rest = SchedulerView { ready: s.ready.skip(1), ..s };
        let p = s.ready[0];
        lemma_without_head(s.ready);
        lemma_serve_whole(rest, p);
        assert(rest.load() == s.load() - p.remaining());
        assert(rest.mass(bursts_left()) == s.mass(bursts_left()) - p.bursts.len());
        assert(rest.crowd().insert(identity()(p)) =~= s.crowd());
    } else {
        lemma_tick(s);
    }
}

/// Serving the head of a round-robin level for at most one quantum, seen
/// from the state that no longer holds the process: the clock moves on by
/// the time consumed, and the process, as it is after the dispatch, is
/// either settled or still has a burst that is not used up.
pub proof fn lemma_serve_quantum(rest: SchedulerView, p: ProcessView, quantum: int)
    requires
        rest.orderly(),
        runnable(p),
        quantum > 0,
    ensures
        ({
            let ran = p.run(quantum, rest.global_clock);
            let next = SchedulerView {
                global_clock: rest.global_clock + p.consumed(quantum),
                ..rest
            };
            &&& next.orderly()
            &&& runnable(ran)
            &&& identity()(ran) == identity()(p)
            &&& ran.bursts.len() == p.bursts.len()
            &&& next.load() <= rest.load()
            &&& next.mass(bursts_left()) == rest.mass(bursts_left())
            &&& next.population() == rest.population()
            &&& next.crowd() == rest.crowd()
            &&& 0 <= p.consumed(quantum)
            &&& ran.remaining() == p.remaining() - p.consumed(quantum)
            &&& ran.burst_completed ==> ran.front() == 0 && {
                let t = next.settle(ran);
                &&& t.orderly()
                &&& t.load() <= rest.load() + p.remaining() - p.consumed(quantum)
                &&& t.mass(bursts_left()) <= rest.mass(bursts_left()) + p.bursts.len() - 1
                &&& t.population() == rest.population() + 1
                &&& t.crowd() == rest.crowd().insert(identity()(p))
            }
            &&& !ran.burst_completed ==> p.consumed(quantum) == quantum
        }),
{
    let ran = p.run(quantum, rest.global_clock);
    let next = SchedulerView { global_clock: rest.global_clock + p.consumed(quantum), ..rest };
    lemma_run(p, quantum, rest.global_clock);
    lemma_slack_shrinks(rest.io_queue, rest.global_clock, next.global_clock);
    assert(next.mass(work()) == rest.mass(work()));
    assert(next.mass(bursts_left()) == rest.mass(bursts_left()));
    assert(next.crowd() == rest.crowd());
    if ran.burst_completed {
        lemma_settle(next, ran);
    }
}

/// Serving the head of the first level of the feedback queue.
pub proof fn lemma_serve_level_one(s: SchedulerView)
    requires
        s.sound(),
        s.policy is Mlfq,
        s.ready.len() > 0,
    ensures
        s.serve_level_one().orderly(),
        s.serve_level_one().policy == s.policy,
        s.serve_level_one().global_clock >= s.global_clock,
        s.serve_level_one().wait_count == s.wait_count,
        s.serve_level_one().horizon() <= s.horizon(),
        s.serve_level_one().effort() < s.effort(),
        s.serve_level_one().population() == s.population(),
        s.serve_level_one().crowd() == s.crowd(),
{
    broadcast use group_multiset_axioms;

    let p = s.ready[0];
    let quantum = LEVEL_ONE_QUANTUM as int;
    let rest = SchedulerView { ready: s.ready.skip(1), ..s };
    let ran = p.run(quantum, s.global_clock);
    let next = SchedulerView { global_clock: s.global_clock + p.consumed(quantum), ..rest };
    let t = s.serve_level_one();
    lemma_without_head(s.ready);
    lemma_serve_quantum(rest, p, quantum);
    assert(rest.load() == s.load() - p.remaining());
    assert(rest.mass(bursts_left()) == s.mass(bursts_left()) - p.bursts.len());
    assert(rest.crowd().insert(identity()(p)) =~= s.crowd());
    if !ran.burst_completed {
        lemma_with_last(next.level_two, ran, burst_keys(next.level_two.push(ran)));
        assert(t.mass(work()) == next.mass(work()) + ran.remaining());
        assert(t.mass(bursts_left()) == next.mass(bursts_left()) + ran.bursts.len());
        assert(t.crowd() =~= next.crowd().insert(identity()(ran)));
    }
}

/// Serving the head of the second level of the feedback queue.
pub proof fn lemma_serve_level_two(s: SchedulerView)
    requires
        s.sound(),
        s.policy is Mlfq,
        s.level_two.len() > 0,
    ensures
        s.serve_level_two().orderly(),
        s.serve_level_two().policy == s.policy,
        s.serve_level_two().global_clock >= s.global_clock,
        s.serve_level_two().wait_count == s.wait_count,
        s.serve_level_two().horizon() <= s.horizon(),
        s.serve_level_two().effort() < s.effort(),
        s.serve_level_two().population() == s.population(),
        s.serve_level_two().crowd() == s.crowd(),
{
    broadcast use group_multiset_axioms;

    let p = s.level_two[0];
    let quantum = LEVEL_TWO_QUANTUM as int;
    let rest = SchedulerView { level_two: s.level_two.skip(1), ..s };
    let ran = p.run(quantum, s.global_clock);
    let next = SchedulerView { global_clock: s.global_clock + p.consumed(quantum), ..rest };
    let t = s.serve_level_two();
    lemma_without_head(s.level_two);
    lemma_serve_quantum(rest, p, quantum);
    assert(rest.load() == s.load() - p.remaining());
    assert(rest.mass(bursts_left()) == s.mass(bursts_left()) - p.bursts.len());
    assert(rest.crowd().insert(identity()(p)) =~= s.crowd());
    if !ran.burst_completed {
        if next.arrival_imminent() {
            lemma_with_last(next.level_two, ran, burst_keys(next.level_two.push(ran)));
        } else {
            lemma_with_last(next.level_three, ran, burst_keys(next.level_three.push(ran)));
        }
        assert(t.mass(work()) == next.mass(work()) + ran.remaining());
        assert(t.mass(bursts_left()) == next.mass(bursts_left()) + ran.bursts.len());
        assert(t.crowd() =~= next.crowd().insert(identity()(ran)));
    }
}

/// Serving the head of the third level of the feedback queue.
pub proof fn lemma_serve_level_three(s: SchedulerView)
    requires
        s.sound(),
        s.policy is Mlfq,
        s.level_three.len() > 0,
    ensures
        s.serve_level_three().orderly(),
        s.serve_level_three().policy == s.policy,
        s.serve_level_three().global_clock >= s.global_clock,
        s.serve_level_three().wait_count == s.wait_count,
        s.serve_level_three().horizon() <= s.horizon(),
        s.serve_level_three().effort() < s.effort(),
        s.serve_level_three().population() == s.population(),
        s.serve_level_three().crowd() == s.crowd(),
{
    broadcast use group_multiset_axioms;

    let rest = SchedulerView { level_three: s.level_three.skip(1), ..s };
    let p = s.level_three[0];
    lemma_without_head(s.level_three);
    lemma_serve_whole(rest, p);
    assert(rest.load() == s.load() - p.remaining());
    assert(rest.mass(bursts_left()) == s.mass(bursts_left()) - p.bursts.len());
    assert(rest.crowd().insert(identity()(p)) =~= s.crowd());
}

/// Serving one process, or letting one idle tick pass, in a run that is
/// not over: the clock does not go back, the horizon does not move out,
/// the effort gets smaller, and the processes in the system stay the same.
pub proof fn lemma_serve(s: SchedulerView)
    requires
        s.sound(),
        !s.finished(),
    ensures
        s.serve().orderly(),
        s.serve().policy == s.policy,
        s.serve().global_clock >= s.global_clock,
        s.serve().wait_count >= s.wait_count,
        s.serve().busy_time() >= s.busy_time(),
        s.serve().horizon() <= s.horizon(),
        s.serve().effort() < s.effort(),
        s.serve().population() == s.population(),
        s.serve().crowd() == s.crowd(),
{
    match s.policy {
        Policy::Fcfs => lemma_serve_ready(s),
        Policy::Sjf => lemma_serve_ready(s),
        Policy::Mlfq => {
            if s.ready.len() > 0 {
                lemma_serve_level_one(s);
            } else if s.level_two.len() > 0 {
                lemma_serve_level_two(s);
            } else if s.level_three.len() > 0 {
                lemma_serve_level_three(s);
            } else {
                lemma_tick(s);
            }
        },
    }
}

/// The effort of a sound state is not negative, and its clock is not past
/// its horizon.
pub proof fn lemma_effort_bounds(s: SchedulerView)
    requires
        s.orderly(),
    ensures
        s.effort() >= 0,
        s.load() >= 0,
        0 <= s.global_clock <= s.horizon(),
{
    lemma_queue_bounds(s.ready);
    lemma_queue_bounds(s.level_two);
    lemma_queue_bounds(s.level_three);
    lemma_queue_bounds(s.io_queue);
    lemma_total_bounds(s.io_queue, slack(s.global_clock));
}

/// One step of a scheduler, taken from a sound state.
///
/// The state stays sound and the policy stays the same.  The clock, the
/// count of idle ticks and the busy time do not go back.  The horizon does
/// not move out.  Unless the run is over, the effort gets smaller.  The
/// number of processes in the system, completed ones included, stays the
/// same, and so do their names and total times.
pub proof fn lemma_step(s: SchedulerView)
    requires
        s.sound(),
    ensures
        s.step().sound(),
        s.step().policy == s.policy,
        s.step().global_clock >= s.global_clock,
        s.step().wait_count >= s.wait_count,
        s.step().busy_time() >= s.busy_time(),
        s.step().horizon() <= s.horizon(),
        !s.finished() ==> 0 <= s.step().effort() < s.effort(),
        s.step().population() == s.population(),
        s.step().crowd() == s.crowd(),
{
    if !s.finished() {
        lemma_serve(s);
        lemma_release(s.serve());
        lemma_effort_bounds(s.step());
    }
}

/// The state from which a run starts is sound.  It holds the processes
/// that were handed in and no others, and its horizon is the sum of all
/// their bursts.
pub proof fn lemma_start(processes: Seq<ProcessView>, policy: Policy)
    requires
        all_runnable(processes),
    ensures
        SchedulerView::start(processes, policy).sound(),
        SchedulerView::start(processes, policy).policy == policy,
        SchedulerView::start(processes, policy).horizon() == total(processes, work()),
        SchedulerView::start(processes, policy).population() == processes.len(),
        SchedulerView::start(processes, policy).crowd() == census(processes, identity()),
        SchedulerView::start(processes, policy).busy_time() == 0,
{
    broadcast use group_multiset_axioms;

    let s = SchedulerView::start(processes, policy);
    let none = Seq::<ProcessView>::empty();
    lemma_arranged_queue(processes, burst_keys(processes));
    lemma_census_empty::<ProcessView, (Seq<char>, int)>(identity());
    assert(total(none, work()) == 0);
    assert(total(none, bursts_left()) == 0);
    assert(total(none, slack(0)) == 0);
    assert(s.crowd() =~= census(processes, identity()));
}

/// A run from a sound state comes to an end, in a sound state.
///
/// On the way the clock, the count of idle ticks and the busy time never go
/// back, and the clock never passes the horizon of the state from which the
/// run went on.  At the end every process is in the graveyard: as many as
/// were in the system, with the names and total times that they had.
pub proof fn lemma_run_outcome(s: SchedulerView)
    requires
        s.sound(),
    ensures
        run(s).finished(),
        run(s).sound(),
        run(s).policy == s.policy,
        s.global_clock <= run(s).global_clock <= s.horizon(),
        s.wait_count <= run(s).wait_count,
        s.busy_time() <= run(s).busy_time(),
        run(s).graveyard.len() == s.population(),
        census(run(s).graveyard, identity()) == s.crowd(),
    decreases s.effort(),
{
    broadcast use group_multiset_axioms;

    lemma_effort_bounds(s);
    if s.finished() {
        let none = Seq::<ProcessView>::empty();
        lemma_census_empty::<ProcessView, (Seq<char>, int)>(identity());
        assert(s.ready =~= none);
        assert(s.level_two =~= none);
        assert(s.level_three =~= none);
        assert(s.io_queue =~= none);
        assert(s.crowd() =~= census(s.graveyard, identity()));
    } else {
        lemma_step(s);
        lemma_run_outcome(s.step());
    }
}

/// A run of a workload that is in order ends with every process in the
/// graveyard, none lost and none added, each with the name and the total
/// time that it came with.  The final clock is not past the sum of all
/// bursts, and the idle ticks are part of the clock.
pub proof fn lemma_run_of_workload(processes: Seq<ProcessView>, policy: Policy)
    requires
        all_runnable(processes),
    ensures
        ({
            let end = run(SchedulerView::start(processes, policy));
            &&& end.finished()
            &&& end.sound()
            &&& end.policy == policy
            &&& end.graveyard.len() == processes.len()
            &&& census(end.graveyard, identity()) == census(processes, identity())
            &&& 0 <= end.wait_count <= end.global_clock <= total(processes, work())
            &&& 0 <= end.busy_time() <= end.global_clock
        }),
{
    lemma_start(processes, policy);
    lemma_run_outcome(SchedulerView::start(processes, policy));
}

/// First come, first served, keeps the order of submission: of two
/// processes that have one CPU burst each and no I/O, the one submitted
/// first completes first, at the end of its own burst, and the second at
/// the end of both.  Where the bursts are longer than zero the first
/// completion is strictly the earlier one.
pub proof fn lemma_fcfs_keeps_order(a: ProcessView, b: ProcessView)
    requires
        a.bursts.len() == 1,
        b.bursts.len() == 1,
        a.bursts[0] >= 0,
        b.bursts[0] >= 0,
    ensures
        ({
            let end = run(SchedulerView::start(seq![a, b], Policy::Fcfs));
            &&& end.finished()
            &&& end.graveyard.len() == 2
            &&& end.graveyard[0].name == a.name
            &&& end.graveyard[1].name == b.name
            &&& end.graveyard[0].last_accessed == a.bursts[0]
            &&& end.graveyard[1].last_accessed == a.bursts[0] + b.bursts[0]
            &&& end.global_clock == a.bursts[0] + b.bursts[0]
            &&& end.wait_count == 0
            &&& b.bursts[0] > 0 ==> end.graveyard[0].last_accessed
                < end.graveyard[1].last_accessed
        }),
{
    reveal(Seq::filter);
    let none = Seq::<ProcessView>::empty();
    let s0 = SchedulerView::start(seq![a, b], Policy::Fcfs);
    assert(runnable(a) && runnable(b));
    lemma_start(seq![a, b], Policy::Fcfs);

    let a_done = a.run(a.front(), 0).pop_burst();
    let served_a = s0.serve();
    assert(s0.ready.skip(1) =~= seq![b]);
    assert(served_a.graveyard =~= seq![a_done]);
    assert(served_a.io_queue =~= none);
    let s1 = s0.step();
    assert(none.filter(due(served_a.global_clock)) =~= none);
    assert(none.filter(negated(due(served_a.global_clock))) =~= none);
    assert(s1.ready =~= seq![b]);
    assert(s1.io_queue =~= none);
    assert(s1.graveyard =~= seq![a_done]);
    lemma_step(s0);

    let b_done = b.run(b.front(), s1.global_clock).pop_burst();
    let served_b = s1.serve();
    assert(s1.ready.skip(1) =~= none);
    assert(served_b.graveyard =~= seq![a_done, b_done]);
    assert(served_b.io_queue =~= none);
    let s2 = s1.step();
    assert(none.filter(due(served_b.global_clock)) =~= none);
    assert(none.filter(negated(due(served_b.global_clock))) =~= none);
    assert(s2.ready =~= none);
    assert(s2.io_queue =~= none);
    assert(s2.graveyard =~= seq![a_done, b_done]);
    lemma_step(s1);

    assert(s2.finished());
    assert(run(s2) == s2);
    assert(run(s1) == run(s2));
    assert(run(s0) == run(s1));
}

/// Settling a process leaves the I/O-wait queue of the feedback policy in
/// order of return time.
pub proof fn lemma_settle_keeps_order(s: SchedulerView, ran: ProcessView)
    requires
        s.policy is Mlfq,
        s.ordered(),
    ensures
        s.settle(ran).ordered(),
{
    if ran.bursts.len() > 1 {
        lemma_sorted_ascends(
            QueueOrder::SoonestReturn,
            s.io_queue.push(ran.into_wait(s.global_clock)),
        );
    }
}

/// Every step keeps in order the queues that the policy keeps in order.
/// So shortest-job-first always serves a process whose current burst is
/// the shortest of those that are ready, and under the feedback policy the
/// head of the I/O-wait queue is always the process that returns soonest.
pub proof fn lemma_step_keeps_order(s: SchedulerView)
    requires
        s.ordered(),
    ensures
        s.step().ordered(),
        s.step().policy == s.policy,
{
    if !s.finished() {
        let served = s.serve();
        let clock = served.global_clock;
        match s.policy {
            Policy::Fcfs => {},
            Policy::Sjf => {
                lemma_sorted_ascends(
                    QueueOrder::ShortestBurst,
                    served.ready + served.io_queue.filter(due(clock)),
                );
            },
            Policy::Mlfq => {
                if s.ready.len() > 0 {
                    let p = s.ready[0];
                    let quantum = LEVEL_ONE_QUANTUM as int;
                    let next = SchedulerView {
                        ready: s.ready.skip(1),
                        global_clock: s.global_clock + p.consumed(quantum),
                        ..s
                    };
                    lemma_settle_keeps_order(next, p.run(quantum, s.global_clock));
                } else if s.level_two.len() > 0 {
                    let p = s.level_two[0];
                    let quantum = LEVEL_TWO_QUANTUM as int;
                    let ran = p.run(quantum, s.global_clock);
                    let next = SchedulerView {
                        level_two: s.level_two.skip(1),
                        global_clock: s.global_clock + p.consumed(quantum),
                        ..s
                    };
                    lemma_settle_keeps_order(next, ran);
                    lemma_sorted_ascends(QueueOrder::ShortestBurst, next.level_three.push(ran));
                } else if s.level_three.len() > 0 {
                    let p = s.level_three[0];
                    let rest = SchedulerView { level_three: s.level_three.skip(1), ..s };
                    lemma_tail_keeps_order(QueueOrder::ShortestBurst, s.level_three);
                    let later = SchedulerView {
                        global_clock: rest.global_clock + p.front(),
                        ..rest
                    };
                    lemma_settle_keeps_order(later, p.run(p.front(), rest.global_clock));
                }
                assert(served.ordered());
                lemma_filter_keeps_order(
                    QueueOrder::SoonestReturn,
                    served.io_queue,
                    negated(due(clock)),
                );
            },
        }
    }
}

/// A run starts with its queues in order.
pub proof fn lemma_start_in_order(processes: Seq<ProcessView>, policy: Policy)
    ensures
        SchedulerView::start(processes, policy).ordered(),
{
    lemma_sorted_ascends(QueueOrder::ShortestBurst, processes);
    let none = Seq::<ProcessView>::empty();
    assert(burst_keys(none) =~= Seq::<int>::empty());
    assert(return_keys(none) =~= Seq::<int>::empty());
}

/// The total time of a process is conserved: where every process comes with
/// the sum of its bursts as its total time, every completed process still
/// has the name and the total time of one of them, which is the sum of the
/// bursts that this one came with.
pub proof fn lemma_total_time_conserved(processes: Seq<ProcessView>, policy: Policy)
    requires
        all_runnable(processes),
        forall|i: int|
            0 <= i < processes.len() ==> (#[trigger] processes[i]).total_process_time
                == processes[i].remaining(),
    ensures
        ({
            let end = run(SchedulerView::start(processes, policy));
            forall|j: int|
                0 <= j < end.graveyard.len() ==> exists|i: int|
                    0 <= i < processes.len() && (#[trigger] processes[i]).name == (
                    #[trigger] end.graveyard[j]).name && end.graveyard[j].total_process_time
                        == processes[i].remaining()
        }),
{
    broadcast use group_to_multiset_ensures;

    let end = run(SchedulerView::start(processes, policy));
    lemma_run_of_workload(processes, policy);
    let before = processes.map_values(identity());
    let after = end.graveyard.map_values(identity());
    assert forall|j: int| 0 <= j < end.graveyard.len() implies exists|i: int|
        0 <= i < processes.len() && (#[trigger] processes[i]).name == (
        #[trigger] end.graveyard[j]).name && end.graveyard[j].total_process_time
            == processes[i].remaining() by {
        let who = identity()(end.graveyard[j]);
        assert(after[j] == who);
        assert(after.contains(who));
        assert(before.to_multiset().count(who) > 0);
        assert(before.contains(who));
        let i = choose|i: int| 0 <= i < before.len() && before[i] == who;
        assert(identity()(processes[i]) == who);
    }
}

} // verus!
