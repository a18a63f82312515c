use incsync::engine::{
    commit_value, dispatch_continue, tally_copied, update_running_max, worker_step, WorkerAction,
    QUEUE_CAPACITY, WORKER_COUNT,
};
use incsync::scan::Candidate;

#[test]
fn running_max_only_advances() {
    assert_eq!(update_running_max(5, 3), 5);
    assert_eq!(update_running_max(5, 9), 9);
    assert_eq!(update_running_max(5, 5), 5);
    assert_eq!(update_running_max(0, 0), 0);
}

#[test]
fn tally_is_order_independent() {
    assert_eq!(tally_copied(0, &vec![3, 9, 7]), 9);
    assert_eq!(tally_copied(0, &vec![9, 3, 7]), 9);
    assert_eq!(tally_copied(0, &vec![7, 9, 3]), 9);
    assert_eq!(tally_copied(11, &vec![3, 9, 7]), 11);
    assert_eq!(tally_copied(4, &Vec::new()), 4);
}

#[test]
fn commit_only_on_strict_advance() {
    assert_eq!(commit_value(5, 5), None);
    assert_eq!(commit_value(4, 5), None);
    assert_eq!(commit_value(6, 5), Some(6));
    assert_eq!(commit_value(0, 0), None);
}

#[test]
fn worker_processes_unless_cancelled() {
    let c = Candidate { id: 7, name: "img_7.raw".to_string() };
    match worker_step(false, Some(c)) {
        WorkerAction::Process(got) => {
            assert_eq!(got.id, 7);
            assert_eq!(got.name, "img_7.raw");
        }
        WorkerAction::Halt => panic!("worker halted without cause"),
    }
}

#[test]
fn worker_halts_on_cancellation_or_closed_queue() {
    let c = Candidate { id: 7, name: "img_7.raw".to_string() };
    assert!(matches!(worker_step(true, Some(c)), WorkerAction::Halt));
    assert!(matches!(worker_step(false, None), WorkerAction::Halt));
    assert!(matches!(worker_step(true, None), WorkerAction::Halt));
}

#[test]
fn dispatcher_stops_exactly_on_cancellation() {
    assert!(dispatch_continue(false));
    assert!(!dispatch_continue(true));
}

#[test]
fn run_constants() {
    assert_eq!(WORKER_COUNT, 4);
    assert_eq!(QUEUE_CAPACITY, 32);
}

#[test]
fn cancellation_never_commits_past_the_copies() {
    // Dispatch stopped after two of three candidates; only the second copy
    // finished. The commit carries the largest copied identifier only.
    let copied = vec![9u32];
    let running_max = tally_copied(5, &copied);
    assert_eq!(running_max, 9);
    assert_eq!(commit_value(running_max, 5), Some(9));
    // Nothing copied at all: no commit.
    assert_eq!(commit_value(tally_copied(5, &Vec::new()), 5), None);
}
