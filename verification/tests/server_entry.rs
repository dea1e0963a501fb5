use dev_manager_mcp::log_buffer::LogBuffer;
use dev_manager_mcp::server_entry::{ServerEntry, StopOutcome, STOP_TIMEOUT_MS};

#[test]
fn stop_timeout_is_five_seconds() {
    assert_eq!(STOP_TIMEOUT_MS, 5_000);
}

#[test]
fn new_entry_runs_and_holds_its_port() {
    let entry = ServerEntry::new(3010, 42);
    assert!(entry.is_running());
    assert_eq!(entry.exited_at(), None);
    assert_eq!(entry.port(), 3010);
    assert_eq!(entry.last_activity(), 42);
}

#[test]
fn poll_exit_turns_running_into_exited_once() {
    let mut entry = ServerEntry::new(3010, 0);
    assert!(!entry.poll_exit(false, 10));
    assert!(entry.is_running());
    assert!(entry.poll_exit(true, 20));
    assert!(!entry.is_running());
    assert_eq!(entry.exited_at(), Some(20));
    // a later look changes nothing
    assert!(!entry.poll_exit(true, 30));
    assert_eq!(entry.exited_at(), Some(20));
    assert_eq!(entry.port(), 3010);
}

#[test]
fn stop_success_marks_exited() {
    let mut entry = ServerEntry::new(3010, 0);
    assert_eq!(entry.stop(StopOutcome::Exited, 77), Ok(()));
    assert_eq!(entry.exited_at(), Some(77));
    assert_eq!(entry.port(), 3010);
}

#[test]
fn stop_timeout_leaves_entry_running() {
    let mut entry = ServerEntry::new(3010, 0);
    assert_eq!(
        entry.stop(StopOutcome::TimedOut, 77),
        Err("Timeout waiting for process to exit".to_string())
    );
    assert!(entry.is_running());
}

#[test]
fn stop_kill_and_wait_failures_carry_their_reason() {
    let mut entry = ServerEntry::new(3010, 0);
    assert_eq!(
        entry.stop(StopOutcome::KillFailed("no such process".to_string()), 1),
        Err("no such process".to_string())
    );
    assert_eq!(
        entry.stop(StopOutcome::WaitFailed("interrupted".to_string()), 2),
        Err("interrupted".to_string())
    );
    assert!(entry.is_running());
}

#[test]
fn stop_is_idempotent_on_exited() {
    let mut entry = ServerEntry::new(3010, 0);
    entry.poll_exit(true, 5);
    assert_eq!(entry.stop(StopOutcome::TimedOut, 9), Ok(()));
    assert_eq!(entry.stop(StopOutcome::Exited, 9), Ok(()));
    assert_eq!(entry.exited_at(), Some(5));
}

#[test]
fn touch_and_release_port() {
    let mut entry = ServerEntry::new(3010, 0);
    entry.touch(9);
    assert_eq!(entry.last_activity(), 9);
    entry.release_port();
    assert_eq!(entry.port(), 0);
    assert!(entry.is_running());
}

#[test]
fn get_logs_shows_tails_and_empty_for_missing_buffer() {
    let entry = ServerEntry::new(3010, 0);
    let mut out = LogBuffer::new();
    out.push("a\n".to_string());
    out.push("b\n".to_string());
    let mut err = LogBuffer::new();
    err.push("oops\n".to_string());
    assert_eq!(
        entry.get_logs(Some(&out), Some(&err)),
        ("a\nb\n".to_string(), "oops\n".to_string())
    );
    assert_eq!(
        entry.get_logs(None, Some(&err)),
        (String::new(), "oops\n".to_string())
    );
    assert_eq!(entry.get_logs(Some(&out), None), ("a\nb\n".to_string(), String::new()));
    assert_eq!(entry.get_logs(None, None), (String::new(), String::new()));
}

#[test]
fn get_logs_shows_at_most_the_last_hundred_lines() {
    let entry = ServerEntry::new(3010, 0);
    let mut out = LogBuffer::new();
    let mut expected = String::new();
    for i in 0..150 {
        let line = format!("line {}\n", i);
        if i >= 50 {
            expected.push_str(&line);
        }
        out.push(line);
    }
    assert_eq!(entry.get_logs(Some(&out), None).0, expected);
}
