use sched_sim::ordering::{sort_queue, QueueOrder};
use sched_sim::process::Process;
use std::collections::VecDeque;

fn queued(name: &str, bursts: Vec<i32>, return_time: i32) -> Process {
    let mut process = Process::new(name.to_string(), VecDeque::from(bursts)).expect("valid");
    process.return_from_io_time = return_time;
    process
}

fn names_of(queue: &VecDeque<Process>) -> Vec<String> {
    queue.iter().map(|p| p.name.clone()).collect()
}

#[test]
fn sort_by_burst_puts_the_shortest_first() {
    let mut queue = VecDeque::from(vec![
        queued("six", vec![6], 0),
        queued("two", vec![2], 0),
        queued("one", vec![1], 0),
    ]);
    sort_queue(&mut queue, QueueOrder::ShortestBurst);
    assert_eq!(names_of(&queue), vec!["one", "two", "six"]);
    assert_eq!(queue[0].process_bursts[0], 1);
    assert_eq!(queue[2].process_bursts[0], 6);
}

#[test]
fn sort_keeps_equal_bursts_in_their_order() {
    let mut queue = VecDeque::from(vec![
        queued("a", vec![3], 0),
        queued("b", vec![1], 0),
        queued("c", vec![3], 0),
        queued("d", vec![1], 0),
        queued("e", vec![3], 0),
        queued("f", vec![2], 0),
    ]);
    sort_queue(&mut queue, QueueOrder::ShortestBurst);
    assert_eq!(names_of(&queue), vec!["b", "d", "f", "a", "c", "e"]);
}

#[test]
fn sorting_a_sorted_queue_changes_nothing() {
    let mut queue = VecDeque::from(vec![
        queued("a", vec![1], 0),
        queued("b", vec![2, 5, 1], 0),
        queued("c", vec![2], 0),
        queued("d", vec![2, 1, 1], 0),
        queued("e", vec![9], 0),
    ]);
    sort_queue(&mut queue, QueueOrder::ShortestBurst);
    assert_eq!(names_of(&queue), vec!["a", "b", "c", "d", "e"]);
    assert_eq!(queue.len(), 5);
    sort_queue(&mut queue, QueueOrder::ShortestBurst);
    assert_eq!(names_of(&queue), vec!["a", "b", "c", "d", "e"]);
    assert_eq!(queue[1].process_bursts, VecDeque::from(vec![2, 5, 1]));
}

#[test]
fn sort_by_return_time_ignores_the_bursts() {
    let mut queue = VecDeque::from(vec![
        queued("late", vec![1], 30),
        queued("soon", vec![9], 4),
        queued("tie_first", vec![5], 12),
        queued("tie_second", vec![2], 12),
    ]);
    sort_queue(&mut queue, QueueOrder::SoonestReturn);
    assert_eq!(names_of(&queue), vec!["soon", "tie_first", "tie_second", "late"]);
}

#[test]
fn sort_by_return_time_takes_processes_without_bursts() {
    let mut queue = VecDeque::from(vec![queued("x", vec![], 2), queued("y", vec![], 1)]);
    sort_queue(&mut queue, QueueOrder::SoonestReturn);
    assert_eq!(names_of(&queue), vec!["y", "x"]);
}

#[test]
fn sort_of_an_empty_and_of_a_single_queue() {
    let mut empty: VecDeque<Process> = VecDeque::new();
    sort_queue(&mut empty, QueueOrder::ShortestBurst);
    assert!(empty.is_empty());
    let mut single = VecDeque::from(vec![queued("only", vec![4], 0)]);
    sort_queue(&mut single, QueueOrder::ShortestBurst);
    assert_eq!(names_of(&single), vec!["only"]);
}

#[test]
fn sort_handles_negative_keys_and_reversed_input() {
    let mut queue = VecDeque::from(vec![
        queued("p5", vec![1], 5),
        queued("p3", vec![1], 3),
        queued("m2", vec![1], -2),
        queued("m7", vec![1], -7),
    ]);
    sort_queue(&mut queue, QueueOrder::SoonestReturn);
    assert_eq!(names_of(&queue), vec!["m7", "m2", "p3", "p5"]);
}
