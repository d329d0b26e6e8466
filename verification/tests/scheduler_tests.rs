use sched_sim::metrics::summarize;
use sched_sim::model::Policy;
use sched_sim::process::Process;
use sched_sim::scheduler::{
    check_workload, fcfs_scheduler, mlfq_scheduler, run_workload, sjf_scheduler, Scheduler,
};
use std::collections::VecDeque;

fn job(name: &str, bursts: Vec<i32>) -> Process {
    Process::new(name.to_string(), VecDeque::from(bursts)).expect("valid")
}

fn names(queue: &VecDeque<Process>) -> Vec<String> {
    queue.iter().map(|p| p.name.clone()).collect()
}

fn eight_processes() -> VecDeque<Process> {
    VecDeque::from(vec![
        job("P1", vec![5, 27, 3, 31, 5, 43, 4, 18, 6, 22, 4, 26, 3, 24, 5]),
        job("P2", vec![4, 48, 5, 44, 7, 42, 12, 37, 9, 76, 4, 41, 9, 31, 7, 43, 8]),
        job("P3", vec![8, 33, 12, 41, 18, 65, 14, 21, 4, 61, 15, 18, 14, 26, 5, 31, 6]),
        job("P4", vec![3, 35, 4, 41, 5, 45, 3, 51, 4, 61, 5, 54, 6, 82, 5, 77, 3]),
        job("P5", vec![16, 24, 17, 21, 5, 36, 16, 26, 7, 31, 13, 28, 11, 21, 6, 13, 3, 11, 4]),
        job("P6", vec![11, 22, 4, 8, 5, 10, 6, 12, 7, 14, 9, 18, 12, 24, 15, 30, 8]),
        job("P7", vec![14, 46, 17, 41, 11, 42, 15, 21, 4, 32, 7, 19, 16, 33, 10]),
        job("P8", vec![4, 14, 5, 33, 6, 51, 14, 73, 16, 87, 6]),
    ])
}

/// (name, first dispatch, completion, total) of each completed process, by name.
fn outcome(done: &Scheduler) -> Vec<(String, Option<i32>, i32, i32)> {
    let mut rows: Vec<(String, Option<i32>, i32, i32)> = done
        .graveyard
        .iter()
        .map(|p| (p.name.clone(), p.first_accessed, p.last_accessed, p.total_process_time))
        .collect();
    rows.sort();
    rows
}

fn row(name: &str, first: i32, last: i32, total: i32) -> (String, Option<i32>, i32, i32) {
    (name.to_string(), Some(first), last, total)
}

#[test]
fn fcfs_two_processes_complete_in_submission_order() {
    let done = fcfs_scheduler(VecDeque::from(vec![job("A", vec![3]), job("B", vec![4])]));
    assert_eq!(names(&done.graveyard), vec!["A", "B"]);
    assert_eq!(done.graveyard[0].last_accessed, 3);
    assert_eq!(done.graveyard[1].last_accessed, 7);
    assert!(done.graveyard[0].last_accessed < done.graveyard[1].last_accessed);
    assert_eq!(done.graveyard[0].first_accessed, Some(0));
    assert_eq!(done.graveyard[1].first_accessed, Some(3));
    assert_eq!(done.global_clock, 7);
    assert_eq!(done.wait_count, 0);
    assert!(done.is_finished());
}

#[test]
fn fcfs_never_leaves_a_burst_unfinished() {
    let mut scheduler = Scheduler::new(
        VecDeque::from(vec![job("A", vec![30, 2, 40]), job("B", vec![25])]),
        Policy::Fcfs,
    );
    while !scheduler.is_finished() {
        scheduler.step();
        for p in scheduler.io_queue.iter().chain(scheduler.graveyard.iter()) {
            assert!(p.burst_completed);
        }
        assert!(scheduler.level_two.is_empty());
        assert!(scheduler.level_three.is_empty());
    }
    assert_eq!(scheduler.global_clock, 95);
}

#[test]
fn fcfs_idles_while_every_process_waits_for_io() {
    let done = fcfs_scheduler(VecDeque::from(vec![job("A", vec![2, 5, 3])]));
    assert_eq!(done.global_clock, 10);
    assert_eq!(done.wait_count, 5);
    assert_eq!(done.busy_time(), 5);
    assert_eq!(outcome(&done), vec![row("A", 0, 10, 10)]);
    assert_eq!(done.graveyard[0].waiting_time(), Some(0));
}

#[test]
fn fcfs_queues_step_by_step() {
    let mut s = Scheduler::new(
        VecDeque::from(vec![job("A", vec![3, 4, 2]), job("B", vec![1, 1, 1]), job("C", vec![5])]),
        Policy::Fcfs,
    );
    s.step();
    assert_eq!((s.global_clock, names(&s.ready), names(&s.io_queue)), (3, vec!["B".to_string(), "C".to_string()], vec!["A".to_string()]));
    assert_eq!(s.io_queue[0].return_from_io_time, 7);
    assert_eq!(s.io_queue[0].process_bursts, VecDeque::from(vec![2]));
    s.step();
    assert_eq!((s.global_clock, names(&s.ready), names(&s.io_queue)), (4, vec!["C".to_string()], vec!["A".to_string(), "B".to_string()]));
    s.step();
    assert_eq!((s.global_clock, names(&s.ready), names(&s.graveyard)), (9, vec!["A".to_string(), "B".to_string()], vec!["C".to_string()]));
    assert!(s.io_queue.is_empty());
    s.step();
    s.step();
    assert!(s.is_finished());
    assert_eq!(names(&s.graveyard), vec!["C", "A", "B"]);
    assert_eq!(outcome(&s), vec![row("A", 0, 11, 9), row("B", 3, 12, 3), row("C", 4, 9, 5)]);
    assert_eq!((s.global_clock, s.wait_count), (12, 0));
}

#[test]
fn sjf_dispatches_the_shortest_burst_first() {
    let done = sjf_scheduler(VecDeque::from(vec![
        job("six", vec![6]),
        job("two", vec![2]),
        job("one", vec![1]),
    ]));
    assert_eq!(names(&done.graveyard), vec!["one", "two", "six"]);
    assert_eq!(outcome(&done), vec![row("one", 0, 1, 1), row("six", 3, 9, 6), row("two", 1, 3, 2)]);
    assert_eq!(done.global_clock, 9);
}

#[test]
fn sjf_breaks_ties_by_submission_order() {
    let done = sjf_scheduler(VecDeque::from(vec![
        job("a", vec![2]),
        job("b", vec![2]),
        job("c", vec![1]),
    ]));
    assert_eq!(names(&done.graveyard), vec!["c", "a", "b"]);
    assert_eq!(done.graveyard[1].last_accessed, 3);
    assert_eq!(done.graveyard[2].last_accessed, 5);
}

#[test]
fn sjf_sorts_the_ready_queue_at_the_start_and_after_each_return() {
    let mut s = Scheduler::new(
        VecDeque::from(vec![job("A", vec![3, 4, 2]), job("B", vec![1, 1, 1]), job("C", vec![5])]),
        Policy::Sjf,
    );
    assert_eq!(names(&s.ready), vec!["B", "A", "C"]);
    s.step();
    assert_eq!((s.global_clock, names(&s.ready), names(&s.io_queue)), (1, vec!["A".to_string(), "C".to_string()], vec!["B".to_string()]));
    s.step();
    assert_eq!((s.global_clock, names(&s.ready), names(&s.io_queue)), (4, vec!["B".to_string(), "C".to_string()], vec!["A".to_string()]));
    s.run();
    assert_eq!(names(&s.graveyard), vec!["B", "C", "A"]);
    assert_eq!(outcome(&s), vec![row("A", 1, 12, 9), row("B", 0, 5, 3), row("C", 5, 10, 5)]);
    assert_eq!((s.global_clock, s.wait_count), (12, 0));
}

#[test]
fn mlfq_demotes_after_the_first_quantum_and_completes_in_level_two() {
    let mut s = Scheduler::new(VecDeque::from(vec![job("A", vec![12])]), Policy::Mlfq);
    assert_eq!(names(&s.ready), vec!["A"]);
    s.step();
    assert!(s.ready.is_empty());
    assert_eq!(names(&s.level_two), vec!["A"]);
    assert!(!s.level_two[0].burst_completed);
    assert_eq!(s.level_two[0].process_bursts[0], 7);
    assert_eq!(s.global_clock, 5);
    s.step();
    assert!(s.level_two.is_empty());
    assert!(s.level_three.is_empty());
    assert_eq!(names(&s.graveyard), vec!["A"]);
    assert!(s.graveyard[0].burst_completed);
    assert_eq!(s.graveyard[0].last_accessed, 12);
    assert_eq!(s.global_clock, 12);
    assert!(s.is_finished());
}

#[test]
fn mlfq_demotes_to_level_three_when_no_arrival_is_due() {
    let mut s = Scheduler::new(VecDeque::from(vec![job("A", vec![20])]), Policy::Mlfq);
    s.step();
    assert_eq!((s.global_clock, names(&s.level_two)), (5, vec!["A".to_string()]));
    s.step();
    assert_eq!((s.global_clock, names(&s.level_three)), (15, vec!["A".to_string()]));
    assert!(s.level_two.is_empty());
    assert_eq!(s.level_three[0].process_bursts[0], 5);
    s.step();
    assert_eq!((s.global_clock, names(&s.graveyard)), (20, vec!["A".to_string()]));
    assert!(s.is_finished());
}

#[test]
fn mlfq_keeps_a_process_in_level_two_when_an_arrival_is_due() {
    let mut s = Scheduler::new(
        VecDeque::from(vec![job("A", vec![20]), job("B", vec![1, 3, 1])]),
        Policy::Mlfq,
    );
    s.step();
    assert_eq!((s.global_clock, names(&s.ready), names(&s.level_two)), (5, vec!["B".to_string()], vec!["A".to_string()]));
    s.step();
    assert_eq!((s.global_clock, names(&s.io_queue)), (6, vec!["B".to_string()]));
    assert_eq!(s.io_queue[0].return_from_io_time, 9);
    s.step();
    assert_eq!(s.global_clock, 16);
    assert_eq!(names(&s.level_two), vec!["A"]);
    assert!(s.level_three.is_empty());
    assert_eq!(names(&s.ready), vec!["B"]);
    assert_eq!(s.level_two[0].process_bursts[0], 5);
    s.step();
    assert_eq!((s.global_clock, names(&s.graveyard)), (17, vec!["B".to_string()]));
    s.step();
    assert!(s.is_finished());
    assert_eq!(names(&s.graveyard), vec!["B", "A"]);
    assert_eq!(outcome(&s), vec![row("A", 0, 22, 20), row("B", 5, 17, 5)]);
    assert_eq!((s.global_clock, s.wait_count), (22, 0));
}

#[test]
fn mlfq_keeps_the_io_queue_in_order_of_return() {
    let workload = || VecDeque::from(vec![job("A", vec![1, 10, 1]), job("B", vec![1, 2, 1])]);
    let mut feedback = Scheduler::new(workload(), Policy::Mlfq);
    feedback.step();
    feedback.step();
    assert_eq!(feedback.global_clock, 2);
    assert_eq!(names(&feedback.io_queue), vec!["B", "A"]);
    assert_eq!(feedback.io_queue[0].return_from_io_time, 4);
    assert_eq!(feedback.io_queue[1].return_from_io_time, 11);
    let mut plain = Scheduler::new(workload(), Policy::Fcfs);
    plain.step();
    plain.step();
    assert_eq!(names(&plain.io_queue), vec!["A", "B"]);
    feedback.run();
    plain.run();
    assert_eq!(outcome(&feedback), vec![row("A", 0, 12, 12), row("B", 1, 5, 4)]);
    assert_eq!(outcome(&plain), outcome(&feedback));
    assert_eq!((feedback.global_clock, feedback.wait_count), (12, 8));
    assert_eq!(names(&feedback.graveyard), vec!["B", "A"]);
}

#[test]
fn returning_processes_enter_the_first_level() {
    let mut s = Scheduler::new(
        VecDeque::from(vec![job("A", vec![7, 1, 3])]),
        Policy::Mlfq,
    );
    s.step();
    assert_eq!(names(&s.level_two), vec!["A"]);
    s.step();
    assert_eq!((s.global_clock, names(&s.io_queue)), (7, vec!["A".to_string()]));
    s.step();
    assert_eq!((s.global_clock, s.wait_count), (8, 1));
    assert_eq!(names(&s.ready), vec!["A"]);
    assert!(s.level_two.is_empty());
}

#[test]
fn fcfs_eight_processes() {
    let done = fcfs_scheduler(eight_processes());
    assert_eq!((done.global_clock, done.wait_count), (672, 118));
    assert_eq!(names(&done.graveyard), vec!["P1", "P6", "P8", "P7", "P5", "P3", "P2", "P4"]);
    assert_eq!(
        outcome(&done),
        vec![
            row("P1", 0, 440, 226),
            row("P2", 5, 573, 427),
            row("P3", 9, 564, 392),
            row("P4", 17, 672, 484),
            row("P5", 20, 545, 309),
            row("P6", 36, 473, 215),
            row("P7", 47, 515, 328),
            row("P8", 61, 499, 309),
        ]
    );
    let summary = summarize(&done.graveyard).expect("eight processes");
    assert_eq!(summary.processes, 8);
    assert_eq!(summary.response_sum, 195);
    assert_eq!(summary.waiting_sum, 1591);
    assert_eq!(summary.turnaround_sum, 4281);
    assert_eq!(done.busy_time(), 554);
}

#[test]
fn sjf_eight_processes() {
    let done = sjf_scheduler(eight_processes());
    assert_eq!((done.global_clock, done.wait_count), (673, 119));
    assert_eq!(names(&done.graveyard), vec!["P1", "P6", "P8", "P7", "P2", "P4", "P5", "P3"]);
    assert_eq!(
        outcome(&done),
        vec![
            row("P1", 11, 289, 226),
            row("P2", 3, 505, 427),
            row("P3", 16, 673, 392),
            row("P4", 0, 514, 484),
            row("P5", 109, 551, 309),
            row("P6", 24, 317, 215),
            row("P7", 47, 478, 328),
            row("P8", 7, 429, 309),
        ]
    );
    let summary = summarize(&done.graveyard).expect("eight processes");
    assert_eq!((summary.response_sum, summary.waiting_sum, summary.turnaround_sum), (217, 1066, 3756));
}

#[test]
fn mlfq_eight_processes() {
    let done = mlfq_scheduler(eight_processes());
    assert_eq!((done.global_clock, done.wait_count), (609, 55));
    assert_eq!(names(&done.graveyard), vec!["P1", "P6", "P8", "P4", "P2", "P7", "P3", "P5"]);
    assert_eq!(
        outcome(&done),
        vec![
            row("P1", 0, 281, 226),
            row("P2", 5, 552, 427),
            row("P3", 9, 579, 392),
            row("P4", 14, 549, 484),
            row("P5", 17, 609, 309),
            row("P6", 22, 433, 215),
            row("P7", 27, 567, 328),
            row("P8", 32, 507, 309),
        ]
    );
    let summary = summarize(&done.graveyard).expect("eight processes");
    assert_eq!((summary.response_sum, summary.waiting_sum, summary.turnaround_sum), (126, 1387, 4077));
}

#[test]
fn total_time_is_conserved_by_every_policy() {
    for policy in [Policy::Fcfs, Policy::Sjf, Policy::Mlfq] {
        let mut s = Scheduler::new(eight_processes(), policy);
        s.run();
        let originals = eight_processes();
        assert_eq!(s.graveyard.len(), originals.len());
        for original in originals.iter() {
            let sum: i32 = original.process_bursts.iter().sum();
            assert_eq!(original.total_process_time, sum);
            let completed: Vec<&Process> =
                s.graveyard.iter().filter(|p| p.name == original.name).collect();
            assert_eq!(completed.len(), 1);
            assert_eq!(completed[0].total_process_time, sum);
            assert!(completed[0].is_complete());
        }
    }
}

#[test]
fn clock_never_goes_back_and_no_process_is_lost() {
    for policy in [Policy::Fcfs, Policy::Sjf, Policy::Mlfq] {
        let mut s = Scheduler::new(eight_processes(), policy);
        let mut clock = s.global_clock;
        let mut idle = s.wait_count;
        let mut steps = 0;
        while !s.is_finished() {
            s.step();
            steps += 1;
            assert!(s.global_clock >= clock);
            assert!(s.wait_count >= idle);
            clock = s.global_clock;
            idle = s.wait_count;
            let everyone = s.ready.len()
                + s.level_two.len()
                + s.level_three.len()
                + s.io_queue.len()
                + s.graveyard.len();
            assert_eq!(everyone, 8);
            for p in s.io_queue.iter() {
                assert!(p.return_from_io_time > s.global_clock);
            }
        }
        assert!(steps > 8);
        assert!(clock <= 2690);
    }
}

#[test]
fn busy_time_is_between_zero_and_the_clock() {
    for policy in [Policy::Fcfs, Policy::Sjf, Policy::Mlfq] {
        let mut s = Scheduler::new(eight_processes(), policy);
        while !s.is_finished() {
            s.step();
            let busy = s.busy_time();
            assert!(0 <= busy && busy <= s.global_clock);
        }
        assert_eq!(s.busy_time(), 554);
        let utilisation = s.busy_time() as f64 / s.global_clock as f64;
        assert!(0.0 <= utilisation && utilisation <= 1.0);
    }
}

#[test]
fn step_on_a_finished_scheduler_changes_nothing() {
    let mut s = Scheduler::new(VecDeque::from(vec![job("A", vec![2])]), Policy::Sjf);
    s.run();
    assert_eq!((s.global_clock, s.wait_count, s.graveyard.len()), (2, 0, 1));
    s.step();
    s.run();
    assert_eq!((s.global_clock, s.wait_count, s.graveyard.len()), (2, 0, 1));
}

#[test]
fn empty_workload_ends_at_once() {
    for policy in [Policy::Fcfs, Policy::Sjf, Policy::Mlfq] {
        let mut s = Scheduler::new(VecDeque::new(), policy);
        assert!(s.is_finished());
        s.run();
        assert_eq!((s.global_clock, s.wait_count), (0, 0));
        assert!(s.graveyard.is_empty());
        assert_eq!(s.busy_time(), 0);
        assert!(summarize(&s.graveyard).is_none());
    }
}

#[test]
fn bursts_of_length_zero_take_no_time() {
    let done = fcfs_scheduler(VecDeque::from(vec![job("Z", vec![0, 0, 0])]));
    assert_eq!((done.global_clock, done.wait_count), (0, 0));
    assert_eq!(outcome(&done), vec![row("Z", 0, 0, 0)]);
    let done = mlfq_scheduler(VecDeque::from(vec![job("Z", vec![0, 0, 0])]));
    assert_eq!((done.global_clock, done.wait_count), (0, 0));
    assert_eq!(outcome(&done), vec![row("Z", 0, 0, 0)]);
}

#[test]
fn workload_check_accepts_what_can_run() {
    assert!(check_workload(&eight_processes()));
    assert!(check_workload(&VecDeque::new()));
    assert!(check_workload(&VecDeque::from(vec![job("Z", vec![0])])));
    let at_the_limit = VecDeque::from(vec![job("A", vec![i32::MAX - 5]), job("B", vec![2, 2, 1])]);
    assert!(check_workload(&at_the_limit));
}

#[test]
fn workload_check_rejects_an_even_number_of_bursts() {
    assert!(!check_workload(&VecDeque::from(vec![job("A", vec![3]), job("B", vec![5, 4])])));
    assert!(!check_workload(&VecDeque::from(vec![job("E", vec![])])));
}

#[test]
fn workload_check_rejects_negative_bursts() {
    let negative = Process {
        process_bursts: VecDeque::from(vec![3, -1, 2]),
        ..Default::default()
    };
    assert!(!check_workload(&VecDeque::from(vec![job("A", vec![3]), negative])));
}

#[test]
fn workload_check_rejects_a_sum_beyond_the_integer_range() {
    let too_much = VecDeque::from(vec![job("A", vec![i32::MAX - 5]), job("B", vec![2, 2, 2])]);
    assert!(!check_workload(&too_much));
}

#[test]
fn summary_adds_up_the_reporting_times() {
    let done = fcfs_scheduler(VecDeque::from(vec![
        job("A", vec![3, 4, 2]),
        job("B", vec![1, 1, 1]),
        job("C", vec![5]),
    ]));
    let summary = summarize(&done.graveyard).expect("three processes");
    assert_eq!(summary.processes, 3);
    assert_eq!(summary.response_sum, 0 + 3 + 4);
    assert_eq!(summary.turnaround_sum, 11 + 12 + 9);
    assert_eq!(summary.waiting_sum, (11 - 9) + (12 - 3) + (9 - 5));
}

#[test]
fn run_workload_runs_what_can_run_and_nothing_else() {
    let done = run_workload(eight_processes(), Policy::Mlfq).expect("a valid workload");
    assert_eq!((done.global_clock, done.wait_count, done.graveyard.len()), (609, 55, 8));
    let with_io_at_the_end = VecDeque::from(vec![job("A", vec![3, 2])]);
    assert!(run_workload(with_io_at_the_end, Policy::Fcfs).is_none());
    let empty = run_workload(VecDeque::new(), Policy::Sjf).expect("nothing to run");
    assert_eq!(empty.global_clock, 0);
}
