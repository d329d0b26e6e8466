use sched_sim::process::Process;
use std::collections::VecDeque;

#[test]
fn run_process() {
    let mut process_1 = Process {
        process_bursts: VecDeque::from(vec![5, 4, 3, 2, 1]),
        total_process_time: 15,
        name: "P1".to_string(),
        ..Default::default()
    };

    // Time quanta < Current CPU burst, no time is left over
    let left_over = process_1.run(4, 10);
    assert_eq!(left_over, 0);

    // Time quanta > current CPU burst, 1 unit is left over
    process_1.process_bursts.rotate_left(1);
    let left_over = process_1.run(5, 15);
    assert_eq!(left_over, 1)
}

#[test]
fn run_return_calc() {
    let mut process = Process {
        process_bursts: VecDeque::from(vec![5, 4, 3]),
        total_process_time: 12,
        name: "P2".to_string(),
        ..Default::default()
    };

    // Calculate remaining time and access
    process.calc_return_time(10);
    assert_eq!(process.return_from_io_time, 15);

    // Rotate and calculate anew
    process.process_bursts.rotate_left(1);
    process.calc_return_time(15);
    assert_eq!(process.return_from_io_time, 19);
}

#[test]
fn run_get_next() {
    let mut process = Process {
        process_bursts: VecDeque::from(vec![6, 2, 1]),
        total_process_time: 6 + 2 + 1,
        name: "P3".to_string(),
        ..Default::default()
    };

    process.run(6, 10);
    process.process_bursts.pop_front();
    process.calc_return_time(10);
    process.process_bursts.pop_front();
}

#[test]
fn check_ordering() {
    let process = Process {
        process_bursts: VecDeque::from(vec![6, 2, 1]),
        total_process_time: 6 + 2 + 1,
        name: "P3".to_string(),
        ..Default::default()
    };

    let process_2 = Process {
        process_bursts: VecDeque::from(vec![7, 2, 1]),
        total_process_time: 6 + 2 + 1,
        name: "P3".to_string(),
        ..Default::default()
    };

    assert!(process < process_2);
}

fn process_of(name: &str, bursts: Vec<i32>) -> Process {
    Process::new(name.to_string(), VecDeque::from(bursts)).expect("a valid process")
}

#[test]
fn new_records_the_sum_of_the_bursts() {
    let process = process_of("P1", vec![5, 27, 3, 31, 5]);
    assert_eq!(process.total_process_time, 71);
    assert_eq!(process.name, "P1");
    assert_eq!(process.first_accessed, None);
    assert_eq!(process.last_accessed, 0);
    assert_eq!(process.return_from_io_time, 0);
    assert!(!process.burst_completed);
    assert_eq!(process.process_bursts, VecDeque::from(vec![5, 27, 3, 31, 5]));
}

#[test]
fn new_accepts_no_bursts_and_zero_bursts() {
    let empty = process_of("E", vec![]);
    assert_eq!(empty.total_process_time, 0);
    assert!(empty.is_complete());
    let zeros = process_of("Z", vec![0, 0, 0]);
    assert_eq!(zeros.total_process_time, 0);
    assert!(!zeros.is_complete());
}

#[test]
fn new_rejects_a_negative_burst() {
    assert!(Process::new("N".to_string(), VecDeque::from(vec![3, -1, 2])).is_none());
}

#[test]
fn new_rejects_a_sum_beyond_the_integer_range() {
    assert!(Process::new("B".to_string(), VecDeque::from(vec![i32::MAX, 1])).is_none());
    let at_the_limit = Process::new("L".to_string(), VecDeque::from(vec![i32::MAX - 1, 1]));
    assert_eq!(at_the_limit.expect("fits").total_process_time, i32::MAX);
}

#[test]
fn default_process_is_empty() {
    let process = Process::default();
    assert!(process.process_bursts.is_empty());
    assert_eq!(process.first_accessed, None);
    assert_eq!(process.last_accessed, 0);
    assert_eq!(process.name, "");
    assert_eq!(process.return_from_io_time, 0);
    assert_eq!(process.total_process_time, 0);
    assert!(!process.burst_completed);
}

#[test]
fn run_cut_short_by_the_quantum() {
    let mut process = process_of("P", vec![12]);
    let left_over = process.run(5, 3);
    assert_eq!(left_over, 0);
    assert!(!process.burst_completed);
    assert_eq!(process.process_bursts[0], 7);
    assert_eq!(process.first_accessed, Some(3));
    assert_eq!(process.last_accessed, 8);
    assert_eq!(process.total_process_time, 12);
}

#[test]
fn run_that_uses_up_the_burst_hands_back_the_rest() {
    let mut process = process_of("P", vec![7, 2, 4]);
    let left_over = process.run(10, 5);
    assert_eq!(left_over, 3);
    assert!(process.burst_completed);
    assert_eq!(process.process_bursts[0], 0);
    assert_eq!(process.last_accessed, 12);
    assert_eq!(process.process_bursts.len(), 3);
}

#[test]
fn run_with_exactly_the_burst() {
    let mut process = process_of("P", vec![6, 2, 1]);
    let left_over = process.run(6, 10);
    assert_eq!(left_over, 0);
    assert!(process.burst_completed);
    assert_eq!(process.process_bursts[0], 0);
    assert_eq!(process.last_accessed, 16);
}

#[test]
fn run_with_a_quantum_of_zero() {
    let mut process = process_of("P", vec![4]);
    assert_eq!(process.run(0, 9), 0);
    assert!(!process.burst_completed);
    assert_eq!(process.process_bursts[0], 4);
    assert_eq!(process.last_accessed, 9);
    let mut nothing_to_do = process_of("Q", vec![0]);
    assert_eq!(nothing_to_do.run(0, 9), 0);
    assert!(nothing_to_do.burst_completed);
}

#[test]
fn first_dispatch_time_is_set_once() {
    let mut process = process_of("P", vec![12]);
    process.run(5, 3);
    process.run(5, 20);
    assert_eq!(process.first_accessed, Some(3));
    assert_eq!(process.last_accessed, 25);
    assert_eq!(process.process_bursts[0], 2);
}

#[test]
fn bursts_advance_from_cpu_to_io_and_back() {
    let mut process = process_of("P", vec![6, 2, 1]);
    process.run(6, 10);
    process.ready_next_io();
    assert_eq!(process.process_bursts, VecDeque::from(vec![2, 1]));
    assert!(!process.is_complete());
    process.calc_return_time(16);
    assert_eq!(process.return_from_io_time, 18);
    assert_eq!(process.process_bursts, VecDeque::from(vec![2, 1]));
    process.ready_next_cpu();
    assert_eq!(process.process_bursts, VecDeque::from(vec![1]));
    process.run(1, 18);
    process.ready_next_io();
    assert!(process.is_complete());
    process.ready_next_cpu();
    assert!(process.is_complete());
}

#[test]
fn reporting_times_of_a_process() {
    let mut process = process_of("P", vec![5, 4, 3]);
    assert_eq!(process.response_time(), None);
    process.run(5, 7);
    assert_eq!(process.response_time(), Some(7));
    assert_eq!(process.turnaround_time(), 12);
    process.last_accessed = 30;
    assert_eq!(process.waiting_time(), Some(18));
}

#[test]
fn waiting_time_out_of_range_is_none() {
    let process = Process {
        last_accessed: i32::MAX,
        total_process_time: -1,
        ..Default::default()
    };
    assert_eq!(process.waiting_time(), None);
}

#[test]
fn processes_compare_by_current_burst() {
    let short = process_of("a", vec![2, 9, 9]);
    let long = process_of("b", vec![3]);
    let also_short = process_of("c", vec![2]);
    assert!(short < long);
    assert!(long > short);
    assert!(short == also_short);
    assert!(short <= also_short);
    assert!(short != long);
    let empty = process_of("e", vec![]);
    assert!(empty.partial_cmp(&short).is_none());
    assert!(!(empty == empty));
}
