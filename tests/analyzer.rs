use trace_verifier::analyzer::{analyze, analyze_trace, Breach, TraceError};
use trace_verifier::parser::{Event, Expected, Operation};
use trace_verifier::token::Location;

fn ev(line: i64, thread: i64, operation: Operation) -> Event {
    Event { source_line: line, thread, operation }
}

fn v(n: i64) -> Location {
    Location { variable: n, qualifier: None }
}

#[test]
fn lock_protected_writes_are_clean() {
    let report = analyze_trace(
        "T1|acq(L1)|1 T1|w(V1)|2 T1|rel(L1)|3 T2|acq(L1)|4 T2|w(V1)|5 T2|rel(L1)|6".to_string(),
        false,
        false,
    )
    .unwrap();
    assert!(report.is_clean());
}

#[test]
fn unsynchronized_writes_race_once() {
    let input = "T1|w(V1)|1; T2|w(V1)|2".replace(';', "");
    let report = analyze_trace(input.to_string(), false, false).unwrap();
    assert_eq!(report.races, vec![(0, 1)]);
    assert!(report.breaches.is_empty());
    assert!(report.deadlocks.is_empty());
    assert!(!report.is_clean());
}

#[test]
fn two_reads_do_not_race() {
    let tr = vec![ev(1, 1, Operation::Read(v(1))), ev(2, 2, Operation::Read(v(1)))];
    assert!(analyze(&tr, false).is_clean());
}

#[test]
fn different_locations_do_not_race() {
    let tr = vec![ev(1, 1, Operation::Write(v(1))), ev(2, 2, Operation::Write(v(2)))];
    assert!(analyze(&tr, false).is_clean());
}

#[test]
fn fork_and_join_order_accesses() {
    let tr = vec![
        ev(1, 1, Operation::Write(v(1))),
        ev(2, 1, Operation::Fork(2)),
        ev(3, 2, Operation::Write(v(1))),
        ev(4, 1, Operation::Join(2)),
        ev(5, 1, Operation::Write(v(1))),
    ];
    assert!(analyze(&tr, false).is_clean());
}

#[test]
fn access_before_join_races_with_parent_after_fork() {
    let tr = vec![
        ev(1, 1, Operation::Fork(2)),
        ev(2, 1, Operation::Write(v(1))),
        ev(3, 2, Operation::Read(v(1))),
        ev(4, 1, Operation::Join(2)),
    ];
    let report = analyze(&tr, false);
    assert_eq!(report.races, vec![(1, 2)]);
}

#[test]
fn common_lock_suppresses_race_without_order() {
    // T2 holds L1 from before T1 writes, so the release edge does not order them.
    let tr = vec![
        ev(1, 1, Operation::Acquire(1)),
        ev(2, 1, Operation::Write(v(1))),
        ev(3, 2, Operation::Acquire(1)),
        ev(4, 2, Operation::Write(v(1))),
    ];
    let report = analyze(&tr, false);
    assert!(report.races.is_empty());
    assert!(report.breaches.is_empty());
}

#[test]
fn crossed_lock_requests_deadlock() {
    let report = analyze_trace(
        "T1|acq(L1)|1 T2|acq(L2)|2 T1|req(L2)|3 T2|req(L1)|4".to_string(),
        false,
        false,
    )
    .unwrap();
    assert_eq!(report.deadlocks, vec![2, 3]);
    assert!(report.races.is_empty());
}

#[test]
fn granted_request_is_no_deadlock() {
    let report = analyze_trace(
        "T1|acq(L1)|1 T2|acq(L2)|2 T1|req(L2)|3 T1|acq(L2)|4 T2|req(L1)|5".to_string(),
        false,
        false,
    )
    .unwrap();
    assert!(report.deadlocks.is_empty());
}

#[test]
fn breaches_are_all_reported() {
    let tr = vec![
        ev(1, 1, Operation::Acquire(1)),
        ev(2, 1, Operation::Acquire(1)),
        ev(3, 2, Operation::Release(1)),
        ev(4, 1, Operation::Join(9)),
        ev(5, 1, Operation::Fork(2)),
        ev(6, 1, Operation::Fork(3)),
        ev(7, 1, Operation::Join(3)),
        ev(8, 1, Operation::Join(3)),
    ];
    let report = analyze(&tr, false);
    assert_eq!(
        report.breaches,
        vec![
            (1, Breach::DoubleAcquire),
            (2, Breach::ReleaseWithoutHold),
            (3, Breach::InvalidJoin),
            (4, Breach::InvalidFork),
            (7, Breach::InvalidJoin),
        ]
    );
}

#[test]
fn front_end_errors_stop_the_analysis() {
    match analyze_trace("T1|w(V1)|1 ?".to_string(), false, false) {
        Err(TraceError::Lexical(_)) => {}
        other => panic!("unexpected {:?}", other),
    }
    match analyze_trace("T1|w(V1)".to_string(), false, false) {
        Err(TraceError::Syntax(e)) => assert_eq!(e.expected, Expected::Pipe),
        other => panic!("unexpected {:?}", other),
    }
}

#[test]
fn analysis_is_repeatable() {
    let input = "T1|w(V1)|1 T2|r(V1)|2 T3|w(V1)|3";
    let a = analyze_trace(input.to_string(), false, false).unwrap();
    let b = analyze_trace(input.to_string(), false, false).unwrap();
    assert_eq!(a.races, b.races);
    assert_eq!(a.races, vec![(0, 1), (0, 2), (1, 2)]);
}

#[test]
fn three_thread_wait_cycle_deadlocks() {
    let report = analyze_trace(
        "T1|acq(L1)|1 T2|acq(L2)|2 T3|acq(L3)|3 T1|req(L2)|4 T2|req(L3)|5 T3|req(L1)|6".to_string(),
        false,
        false,
    )
    .unwrap();
    assert_eq!(report.deadlocks, vec![3, 4, 5]);
}

#[test]
fn wait_chain_without_cycle_is_no_deadlock() {
    let report = analyze_trace(
        "T1|acq(L1)|1 T2|acq(L2)|2 T1|req(L2)|3 T2|req(L3)|4".to_string(),
        false,
        false,
    )
    .unwrap();
    assert!(report.deadlocks.is_empty());
    assert!(report.is_clean());
}

#[test]
fn strict_mode_reports_unreleased_locks_and_unjoined_threads() {
    let tr = vec![
        ev(1, 1, Operation::Fork(2)),
        ev(2, 2, Operation::Acquire(1)),
        ev(3, 1, Operation::Fork(3)),
        ev(4, 1, Operation::Join(3)),
    ];
    assert!(analyze(&tr, false).is_clean());
    let report = analyze(&tr, true);
    assert_eq!(report.breaches, vec![(0, Breach::UnjoinedThread), (1, Breach::UnreleasedLock)]);
}

#[test]
fn strict_mode_accepts_a_complete_trace() {
    let report = analyze_trace(
        "T1|fork(T2)|1 T2|acq(L1)|2 T2|w(V1)|3 T2|rel(L1)|4 T1|join(T2)|5".to_string(),
        false,
        true,
    )
    .unwrap();
    assert!(report.is_clean());
}

#[test]
fn release_orders_only_the_next_acquire_by_another_thread() {
    // T2 takes L1 after T1 and never releases it; T3's later acquire is not
    // ordered after T1's write through T1's release.
    let tr = vec![
        ev(1, 1, Operation::Acquire(1)),
        ev(2, 1, Operation::Write(v(1))),
        ev(3, 1, Operation::Release(1)),
        ev(4, 2, Operation::Acquire(1)),
        ev(5, 3, Operation::Acquire(1)),
        ev(6, 3, Operation::Release(1)),
        ev(7, 3, Operation::Read(v(1))),
    ];
    let report = analyze(&tr, false);
    assert_eq!(report.races, vec![(1, 6)]);
}
