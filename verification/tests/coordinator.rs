use captain_crunch::coordinator::{conclude, partition, Action, Slice, Worker};
use captain_crunch::error::GenError;

fn bounds(slices: &[Slice]) -> Vec<(u128, u128)> {
    slices.iter().map(|s| (s.start(), s.end())).collect()
}

#[test]
fn shares_differ_by_one_at_most() {
    assert_eq!(bounds(&partition(10, 3)), vec![(0, 4), (4, 7), (7, 10)]);
    assert_eq!(bounds(&partition(9, 3)), vec![(0, 3), (3, 6), (6, 9)]);
    assert_eq!(bounds(&partition(11, 3)), vec![(0, 4), (4, 8), (8, 11)]);
    assert_eq!(bounds(&partition(6, 1)), vec![(0, 6)]);
}

#[test]
fn more_workers_than_indices_leave_some_idle() {
    assert_eq!(bounds(&partition(2, 4)), vec![(0, 1), (1, 2), (2, 2), (2, 2)]);
    assert_eq!(bounds(&partition(0, 3)), vec![(0, 0), (0, 0), (0, 0)]);
}

#[test]
fn no_worker_counts_as_one() {
    assert_eq!(bounds(&partition(5, 0)), vec![(0, 5)]);
}

#[test]
fn the_whole_range_of_the_counter_can_be_shared() {
    let slices = partition(u128::MAX, 2);
    assert_eq!(bounds(&slices), vec![(0, (u128::MAX / 2) + 1), ((u128::MAX / 2) + 1, u128::MAX)]);
}

#[test]
fn every_index_lies_in_exactly_one_share() {
    for total in 0..40u128 {
        for workers in 1..9usize {
            let slices = partition(total, workers);
            assert_eq!(slices.len(), workers);
            for index in 0..total {
                let owners =
                    slices.iter().filter(|s| s.start() <= index && index < s.end()).count();
                assert_eq!(owners, 1);
            }
            assert_eq!(slices[0].start(), 0);
            assert_eq!(slices[workers - 1].end(), total);
        }
    }
}

#[test]
fn a_worker_walks_its_slice_in_order() {
    let slices = partition(10, 3);
    let mut worker = Worker::new(slices[1]);
    assert_eq!(worker.written(), 0);
    assert!(!worker.is_complete());
    assert_eq!(worker.next_action(false), Action::Emit(4));
    assert_eq!(worker.next_action(false), Action::Emit(4));
    worker.record(true);
    assert_eq!(worker.next_action(false), Action::Emit(5));
    worker.record(true);
    assert_eq!(worker.next_action(false), Action::Emit(6));
    worker.record(true);
    assert_eq!(worker.next_action(false), Action::Stop);
    assert!(worker.is_complete());
    assert!(!worker.has_failed());
    assert_eq!(worker.written(), 3);
}

#[test]
fn a_worker_with_an_empty_slice_stops_at_once() {
    let slices = partition(2, 4);
    let worker = Worker::new(slices[3]);
    assert_eq!(worker.next_action(false), Action::Stop);
    assert!(worker.is_complete());
    assert_eq!(worker.written(), 0);
}

#[test]
fn a_failed_write_stops_the_worker_for_good() {
    let slices = partition(10, 1);
    let mut worker = Worker::new(slices[0]);
    worker.record(true);
    worker.record(true);
    assert_eq!(worker.next_action(false), Action::Emit(2));
    worker.record(false);
    assert!(worker.has_failed());
    assert_eq!(worker.next_action(false), Action::Stop);
    worker.record(true);
    assert_eq!(worker.written(), 2);
    assert_eq!(worker.next_action(false), Action::Stop);
    assert!(!worker.is_complete());
}

#[test]
fn a_stop_request_stops_a_worker_before_its_next_write() {
    let slices = partition(10, 2);
    let mut worker = Worker::new(slices[0]);
    worker.record(true);
    assert_eq!(worker.next_action(true), Action::Stop);
    assert_eq!(worker.next_action(false), Action::Emit(1));
    assert!(!worker.has_failed());
}

#[test]
fn reports_past_the_end_change_nothing() {
    let slices = partition(2, 1);
    let mut worker = Worker::new(slices[0]);
    worker.record(true);
    worker.record(true);
    worker.record(true);
    worker.record(false);
    assert_eq!(worker.written(), 2);
    assert!(worker.is_complete());
    assert!(!worker.has_failed());
}

#[test]
fn a_run_ends_well_unless_a_worker_failed() {
    let slices = partition(4, 2);
    let mut workers: Vec<Worker> = slices.iter().map(|s| Worker::new(*s)).collect();
    assert_eq!(conclude(&workers), Ok(()));
    workers[1].record(false);
    assert_eq!(conclude(&workers), Err(GenError::SinkWriteFailed));
    assert_eq!(conclude(&Vec::new()), Ok(()));
}
