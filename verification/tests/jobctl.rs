//! Wait statuses.

use rsh::jobctl::{
    exit_status, try_reap, wait_blocking, wait_foreground, wait_stage, FgOutcome, Waited,
};

#[test]
fn test_wait_foreground_exit_code() {
    // What waitpid reports for a child that ran `exit 3`.
    match wait_foreground(1234, false, 3 << 8) {
        Waited::Over(FgOutcome::Exited(code)) => assert_eq!(code, 3),
        other => panic!("expected exit 3, got {:?}", other),
    }
}

#[test]
fn test_wait_foreground_stopped_then_resumed() {
    // A child that stopped itself must be reported as stopped, its
    // resumption waited out, and its exit reported in the end.
    match wait_foreground(1234, false, (19 << 8) | 0x7f) {
        Waited::Over(FgOutcome::Stopped) => {}
        other => panic!("expected Stopped, got {:?}", other),
    }
    assert_eq!(wait_foreground(1234, false, 0xffff), Waited::Again);
    match wait_foreground(1234, false, 7 << 8) {
        Waited::Over(FgOutcome::Exited(code)) => assert_eq!(code, 7),
        other => panic!("expected exit 7, got {:?}", other),
    }
}

#[test]
fn exits_and_signals() {
    assert_eq!(exit_status(0), 0);
    assert_eq!(exit_status(255 << 8), 255);
    assert_eq!(exit_status(9), 137);
    assert_eq!(exit_status(0x80 | 11), 139);
    assert_eq!(exit_status(0x7f), 1);
    assert_eq!(
        wait_foreground(-1, false, 0),
        Waited::Over(FgOutcome::Exited(1))
    );
    assert_eq!(
        wait_foreground(5, false, 2),
        Waited::Over(FgOutcome::Exited(130))
    );
}

#[test]
fn reaping_and_waiting() {
    assert_eq!(try_reap(10, 10, 2 << 8), Some(2));
    assert_eq!(try_reap(10, 0, 2 << 8), None);
    assert_eq!(try_reap(10, -1, 0), None);
    assert_eq!(wait_blocking(10, 10, false, 15), Waited::Over(Some(143)));
    assert_eq!(wait_blocking(10, -1, false, 0), Waited::Over(None));
    assert_eq!(wait_blocking(10, 0, false, 0), Waited::Again);
    assert_eq!(wait_stage(10, 10, false, 5 << 8), Waited::Over(Some(5)));
    assert_eq!(wait_stage(10, 10, false, 9), Waited::Over(None));
    assert_eq!(wait_stage(10, -1, false, 0), Waited::Over(None));
}

#[test]
fn an_interrupted_wait_goes_on() {
    assert_eq!(wait_blocking(10, -1, true, 0), Waited::Again);
    assert_eq!(wait_blocking(10, 10, false, 3 << 8), Waited::Over(Some(3)));
    assert_eq!(wait_foreground(-1, true, 0), Waited::Again);
    assert_eq!(wait_stage(10, -1, true, 0), Waited::Again);
}
