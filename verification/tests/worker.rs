use mega_dl::limits::raise_fd_limit;
use mega_dl::worker::{is_quota_error, Verdict, Worker};

#[test]
fn two_statuses_speak_of_a_quota() {
    assert!(is_quota_error(Some(429)));
    assert!(is_quota_error(Some(509)));
    for status in [None, Some(200), Some(403), Some(404), Some(428), Some(500), Some(508)] {
        assert!(!is_quota_error(status));
    }
}

#[test]
fn three_failures_in_a_row_end_a_worker() {
    let mut w = Worker::new();
    assert_eq!(w.on_failure(None), Verdict::GoOn);
    assert_eq!(w.on_failure(Some(500)), Verdict::GoOn);
    assert_eq!(w.on_failure(None), Verdict::RetireErrors(3));
}

#[test]
fn a_chunk_that_comes_forgives_the_failures() {
    let mut w = Worker::new();
    for _ in 0..10 {
        assert_eq!(w.on_failure(None), Verdict::GoOn);
        assert_eq!(w.on_failure(None), Verdict::GoOn);
        w.on_success();
    }
    assert_eq!(w.consec, 0);
}

#[test]
fn a_used_up_quota_ends_a_worker_at_once() {
    let mut w = Worker::new();
    assert_eq!(w.on_failure(Some(509)), Verdict::RetireQuota);
    let mut w = Worker::new();
    assert_eq!(w.on_failure(None), Verdict::GoOn);
    assert_eq!(w.on_failure(Some(429)), Verdict::RetireQuota);
    assert_eq!(w.consec, 1);
}

#[test]
fn the_limit_on_open_files_is_raised_as_far_as_allowed() {
    assert_eq!(raise_fd_limit(1024, 1048576), Some(8192));
    assert_eq!(raise_fd_limit(1024, 4096), Some(4096));
    assert_eq!(raise_fd_limit(4096, 4096), None);
    assert_eq!(raise_fd_limit(8192, 1048576), None);
    assert_eq!(raise_fd_limit(100000, 1048576), None);
    assert_eq!(raise_fd_limit(8191, u64::MAX), Some(8192));
    assert_eq!(raise_fd_limit(0, 0), None);
}
