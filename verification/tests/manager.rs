use dev_manager_mcp::json::{Json, Number};
use dev_manager_mcp::log_buffer::LogBuffer;
use dev_manager_mcp::manager::{
    contains_text, longer_than, LaunchOutcome, Manager, IDLE_MS, KEY_ATTEMPTS, RETENTION_MS,
    SWEEP_INTERVAL_MS,
};
use dev_manager_mcp::response::lock_error;
use dev_manager_mcp::server_entry::{capture_line, StopOutcome};

fn obj(members: Vec<(&str, Json)>) -> Json {
    Json::Object(
        members
            .into_iter()
            .map(|(key, value)| (key.to_string(), value))
            .collect(),
    )
}

fn text(s: &str) -> Json {
    Json::Text(s.to_string())
}

fn num(n: u64) -> Json {
    Json::Number(Number::PosInt(n))
}

fn error(message: &str) -> Json {
    obj(vec![("error", text(message))])
}

fn launch(manager: &mut Manager, key: &str, now: u64) -> u16 {
    let ticket = manager
        .start_with_key(Some(key.to_string()), |_| true)
        .unwrap();
    let port = ticket.port();
    manager.finish_start(ticket, LaunchOutcome::Spawned, now);
    port
}

#[test]
fn sweep_constants() {
    assert_eq!(IDLE_MS, 60_000);
    assert_eq!(RETENTION_MS, 600_000);
    assert_eq!(SWEEP_INTERVAL_MS, 5_000);
    assert!(KEY_ATTEMPTS > 0);
}

#[test]
fn new_manager_is_empty() {
    let mut manager = Manager::new();
    assert_eq!(manager.session_count(), 0);
    assert!(!manager.port_in_use(3010));
    assert_eq!(manager.status(None, 0), obj(vec![("sessions", Json::List(vec![]))]));
}

#[test]
fn lifecycle_start_status_stop_status() {
    let mut manager = Manager::new();
    let ticket = manager.start(|_| true).unwrap();
    let key = ticket.session_key().clone();
    assert_eq!(key.chars().count(), 4);
    assert!(key
        .chars()
        .all(|c| c.is_ascii_uppercase() || c.is_ascii_digit()));
    assert_eq!(ticket.port(), 3010);
    // the session is not in the table before the process runs
    assert!(!manager.contains(&key));
    assert!(manager.port_in_use(3010));

    let started = manager.finish_start(ticket, LaunchOutcome::Spawned, 1_000);
    assert_eq!(
        started,
        obj(vec![
            ("status", text("started")),
            ("port", num(3010)),
            ("session_key", text(&key)),
        ])
    );
    assert_eq!(
        manager.status(Some(key.clone()), 2_000),
        obj(vec![
            ("session_key", text(&key)),
            ("running", Json::Bool(true)),
            ("port", num(3010)),
        ])
    );
    assert_eq!(manager.get(&key).unwrap().last_activity(), 2_000);

    let ticket = manager.stop(key.clone(), 3_000).unwrap();
    assert!(ticket.is_running());
    assert_eq!(ticket.entry().last_activity(), 3_000);
    // while the stop is under way the table does not know the session
    assert_eq!(manager.status(Some(key.clone()), 3_001), error("Session not found"));
    let stopped = manager.finish_stop(ticket, StopOutcome::Exited, 3_500);
    assert_eq!(
        stopped,
        obj(vec![("status", text("stopped")), ("session_key", text(&key))])
    );
    assert_eq!(
        manager.status(Some(key.clone()), 4_000),
        obj(vec![("session_key", text(&key)), ("running", Json::Bool(false))])
    );
    let entry = manager.get(&key).unwrap();
    assert_eq!(entry.exited_at(), Some(3_500));
    assert_eq!(entry.port(), 0);
    assert!(!manager.port_in_use(3010));
}

#[test]
fn running_sessions_hold_ports_that_are_in_use() {
    let mut manager = Manager::new();
    for key in ["AAAA", "BBBB", "CCCC"] {
        launch(&mut manager, key, 0);
    }
    let ticket = manager.stop("BBBB".to_string(), 1).unwrap();
    manager.finish_stop(ticket, StopOutcome::Exited, 2);
    let mut seen = Vec::new();
    for key in ["AAAA", "BBBB", "CCCC"] {
        let entry = manager.get(key).unwrap();
        if entry.is_running() {
            assert_ne!(entry.port(), 0);
            assert!(manager.port_in_use(entry.port()));
            assert!(!seen.contains(&entry.port()));
            seen.push(entry.port());
        }
    }
    assert_eq!(seen, vec![3010, 3012]);
}

#[test]
fn log_capture_is_shown_by_tail() {
    let mut manager = Manager::new();
    launch(&mut manager, "LOGS", 0);
    let mut stdout = LogBuffer::new();
    for line in ["a", "b", "c"] {
        capture_line(&mut stdout, line.to_string());
    }
    let stderr = LogBuffer::new();
    manager.sweep(&vec!["LOGS".to_string()], 10);
    assert_eq!(
        manager.tail("LOGS".to_string(), 20, Some(&stdout), Some(&stderr)),
        obj(vec![
            ("session_key", text("LOGS")),
            ("stdout", text("a\nb\nc\n")),
            ("stderr", text("")),
        ])
    );
    assert_eq!(manager.get("LOGS").unwrap().last_activity(), 20);
}

#[test]
fn tail_with_missing_buffers_shows_empty_text() {
    let mut manager = Manager::new();
    launch(&mut manager, "LOGS", 0);
    assert_eq!(
        manager.tail("LOGS".to_string(), 20, None, None),
        obj(vec![
            ("session_key", text("LOGS")),
            ("stdout", text("")),
            ("stderr", text("")),
        ])
    );
}

#[test]
fn tail_of_unknown_session_is_an_error() {
    let mut manager = Manager::new();
    let buffer = LogBuffer::new();
    assert_eq!(
        manager.tail("NONE".to_string(), 0, Some(&buffer), None),
        error("Session not found")
    );
}

#[test]
fn stop_of_unknown_session_is_an_error() {
    let mut manager = Manager::new();
    launch(&mut manager, "AAAA", 0);
    assert_eq!(manager.stop("ZZZZ".to_string(), 1).unwrap_err(), error("Session not found"));
    assert_eq!(manager.session_count(), 1);
}

#[test]
fn status_of_unknown_session_is_an_error() {
    let mut manager = Manager::new();
    assert_eq!(manager.status(Some("ZZZZ".to_string()), 1), error("Session not found"));
}

#[test]
fn status_of_all_sessions_lists_them_and_touches_them() {
    let mut manager = Manager::new();
    launch(&mut manager, "AAAA", 0);
    launch(&mut manager, "BBBB", 0);
    manager.sweep(&vec!["AAAA".to_string()], 5);
    assert_eq!(
        manager.status(None, 9),
        obj(vec![(
            "sessions",
            Json::List(vec![
                obj(vec![("session_key", text("AAAA")), ("running", Json::Bool(false))]),
                obj(vec![
                    ("session_key", text("BBBB")),
                    ("running", Json::Bool(true)),
                    ("port", num(3011)),
                ]),
            ])
        )])
    );
    assert_eq!(manager.get("AAAA").unwrap().last_activity(), 9);
    assert_eq!(manager.get("BBBB").unwrap().last_activity(), 9);
}

#[test]
fn idle_session_is_stopped_by_the_sweeper() {
    let mut manager = Manager::new();
    let port = launch(&mut manager, "IDLE", 0);
    assert_eq!(manager.running_sessions(), vec!["IDLE".to_string()]);
    let plan = manager.sweep(&vec![], 61_000);
    assert_eq!(plan.to_stop, vec!["IDLE".to_string()]);
    assert!(plan.to_prune.is_empty());
    let ticket = manager.begin_idle_stop("IDLE".to_string()).unwrap();
    assert!(ticket.is_running());
    assert!(!manager.contains("IDLE"));
    manager.finish_idle_stop(ticket, StopOutcome::Exited, 61_200);
    let entry = manager.get("IDLE").unwrap();
    assert!(!entry.is_running());
    assert_eq!(entry.exited_at(), Some(61_200));
    assert_eq!(entry.port(), 0);
    assert!(!manager.port_in_use(port));
    // the idle stop is not a client's touch
    assert_eq!(entry.last_activity(), 0);
}

#[test]
fn idle_threshold_is_strict() {
    let mut manager = Manager::new();
    launch(&mut manager, "AAAA", 1_000);
    assert!(manager.sweep(&vec![], 61_000).to_stop.is_empty());
    assert_eq!(manager.sweep(&vec![], 61_001).to_stop, vec!["AAAA".to_string()]);
    // a touch starts the time anew
    manager.status(Some("AAAA".to_string()), 61_002);
    assert!(manager.sweep(&vec![], 100_000).to_stop.is_empty());
}

#[test]
fn failed_idle_stop_leaves_the_session_as_it_was() {
    let mut manager = Manager::new();
    let port = launch(&mut manager, "IDLE", 0);
    launch(&mut manager, "BUSY", 69_000);
    assert_eq!(manager.sweep(&vec![], 70_000).to_stop, vec!["IDLE".to_string()]);
    let ticket = manager.begin_idle_stop("IDLE".to_string()).unwrap();
    manager.finish_idle_stop(ticket, StopOutcome::TimedOut, 75_000);
    // the record is back, running, and keeps its port
    let entry = manager.get("IDLE").unwrap();
    assert!(entry.is_running());
    assert_eq!(entry.exited_at(), None);
    assert_eq!(entry.port(), port);
    assert_eq!(entry.last_activity(), 0);
    assert!(manager.port_in_use(port));
    // no running session is without a port in use
    for key in manager.running_sessions() {
        let entry = manager.get(&key).unwrap();
        assert_ne!(entry.port(), 0);
        assert!(manager.port_in_use(entry.port()));
    }
    // the port is not handed out to another session
    assert_eq!(launch(&mut manager, "NEXT", 76_000), 3012);
    // the next sweep finds the session idle again, and a stop that
    // succeeds then settles it
    assert_eq!(manager.sweep(&vec![], 80_000).to_stop, vec!["IDLE".to_string()]);
    let ticket = manager.begin_idle_stop("IDLE".to_string()).unwrap();
    manager.finish_idle_stop(ticket, StopOutcome::Exited, 81_000);
    let entry = manager.get("IDLE").unwrap();
    assert_eq!(entry.exited_at(), Some(81_000));
    assert_eq!(entry.port(), 0);
    assert!(!manager.port_in_use(port));
}

#[test]
fn failed_idle_stop_with_kill_or_wait_error_keeps_the_port() {
    for outcome in [
        StopOutcome::KillFailed("no such process".to_string()),
        StopOutcome::WaitFailed("interrupted".to_string()),
    ] {
        let mut manager = Manager::new();
        let port = launch(&mut manager, "IDLE", 0);
        manager.sweep(&vec![], 70_000);
        let ticket = manager.begin_idle_stop("IDLE".to_string()).unwrap();
        manager.finish_idle_stop(ticket, outcome, 75_000);
        let entry = manager.get("IDLE").unwrap();
        assert!(entry.is_running());
        assert_eq!(entry.port(), port);
        assert!(manager.port_in_use(port));
    }
}

#[test]
fn idle_stop_of_a_record_that_exited_meanwhile_settles_it() {
    let mut manager = Manager::new();
    let port = launch(&mut manager, "IDLE", 0);
    let mut ticket = manager.begin_idle_stop("IDLE".to_string()).unwrap();
    assert!(ticket.is_running());
    manager.finish_idle_stop(ticket, StopOutcome::Exited, 10);
    ticket = manager.begin_idle_stop("IDLE".to_string()).unwrap();
    assert!(!ticket.is_running());
    // nothing runs, so whatever is reported the record stays exited
    manager.finish_idle_stop(ticket, StopOutcome::TimedOut, 20);
    let entry = manager.get("IDLE").unwrap();
    assert_eq!(entry.exited_at(), Some(10));
    assert_eq!(entry.port(), 0);
    assert!(!manager.port_in_use(port));
}

#[test]
fn begin_idle_stop_of_unknown_session_is_nothing() {
    let mut manager = Manager::new();
    assert!(manager.begin_idle_stop("NONE".to_string()).is_none());
}

#[test]
fn exited_session_is_pruned_after_retention() {
    let mut manager = Manager::new();
    launch(&mut manager, "DONE", 0);
    let plan = manager.sweep(&vec!["DONE".to_string()], 1_000);
    assert!(plan.to_stop.is_empty());
    assert!(plan.to_prune.is_empty());
    assert_eq!(manager.get("DONE").unwrap().exited_at(), Some(1_000));
    // exited for exactly the retention time: kept
    assert!(manager.sweep(&vec![], 601_000).to_prune.is_empty());
    // exited for 601 s
    let plan = manager.sweep(&vec![], 602_000);
    assert_eq!(plan.to_prune, vec!["DONE".to_string()]);
    manager.prune("DONE");
    assert!(!manager.contains("DONE"));
    assert_eq!(manager.session_count(), 0);
}

#[test]
fn sweep_releases_ports_of_exited_sessions() {
    let mut manager = Manager::new();
    launch(&mut manager, "AAAA", 0);
    launch(&mut manager, "BBBB", 0);
    launch(&mut manager, "CCCC", 0);
    let plan = manager.sweep(&vec!["CCCC".to_string(), "AAAA".to_string()], 10);
    assert!(plan.to_stop.is_empty());
    assert_eq!(manager.get("AAAA").unwrap().port(), 0);
    assert_eq!(manager.get("BBBB").unwrap().port(), 3011);
    assert_eq!(manager.get("CCCC").unwrap().port(), 0);
    assert!(!manager.port_in_use(3010));
    assert!(manager.port_in_use(3011));
    assert!(!manager.port_in_use(3012));
    assert_eq!(manager.running_sessions(), vec!["BBBB".to_string()]);
    // released ports come back in the order of the table
    assert_eq!(launch(&mut manager, "DDDD", 20), 3010);
    assert_eq!(launch(&mut manager, "EEEE", 20), 3012);
}

#[test]
fn sweep_ignores_names_of_unknown_or_exited_sessions() {
    let mut manager = Manager::new();
    launch(&mut manager, "AAAA", 0);
    manager.sweep(&vec!["AAAA".to_string()], 10);
    manager.sweep(&vec!["AAAA".to_string(), "NONE".to_string()], 20);
    assert_eq!(manager.get("AAAA").unwrap().exited_at(), Some(10));
}

#[test]
fn prune_releases_a_port_that_is_still_held() {
    let mut manager = Manager::new();
    let port = launch(&mut manager, "AAAA", 0);
    manager.prune("AAAA");
    assert!(!manager.contains("AAAA"));
    assert!(!manager.port_in_use(port));
    manager.prune("AAAA");
    assert_eq!(manager.session_count(), 0);
}

#[test]
fn port_is_reused_after_stop() {
    let mut manager = Manager::new();
    let first = launch(&mut manager, "AAAA", 0);
    let ticket = manager.stop("AAAA".to_string(), 1).unwrap();
    manager.finish_stop(ticket, StopOutcome::Exited, 2);
    let second = launch(&mut manager, "BBBB", 3);
    assert_eq!(first, 3010);
    assert_eq!(second, first);
}

#[test]
fn port_is_not_reused_when_the_probe_turns_it_down() {
    let mut manager = Manager::new();
    launch(&mut manager, "AAAA", 0);
    let ticket = manager.stop("AAAA".to_string(), 1).unwrap();
    manager.finish_stop(ticket, StopOutcome::Exited, 2);
    let ticket = manager
        .start_with_key(Some("BBBB".to_string()), |p| p != 3010)
        .unwrap();
    assert_eq!(ticket.port(), 3011);
}

#[test]
fn invalid_cwd_creates_no_entry_and_leaks_no_port() {
    let mut manager = Manager::new();
    let ticket = manager.start(|_| true).unwrap();
    let key = ticket.session_key().clone();
    let port = ticket.port();
    let answer = manager.finish_start(
        ticket,
        LaunchOutcome::InvalidCwd("/no/such/dir".to_string()),
        5,
    );
    assert_eq!(answer, error("Invalid cwd: /no/such/dir"));
    assert!(!manager.contains(&key));
    assert_eq!(manager.session_count(), 0);
    assert!(!manager.port_in_use(port));
    // the port is handed out again
    assert_eq!(launch(&mut manager, "NEXT", 6), port);
}

#[test]
fn spawn_failure_creates_no_entry_and_leaks_no_port() {
    let mut manager = Manager::new();
    let ticket = manager.start(|_| true).unwrap();
    let port = ticket.port();
    let answer = manager.finish_start(
        ticket,
        LaunchOutcome::SpawnFailed("No such file or directory (os error 2)".to_string()),
        5,
    );
    assert_eq!(
        answer,
        error("Failed to spawn process: No such file or directory (os error 2)")
    );
    assert_eq!(manager.session_count(), 0);
    assert!(!manager.port_in_use(port));
}

#[test]
fn start_without_a_free_port_is_an_error() {
    let mut manager = Manager::new();
    let answer = manager.start(|_| false).unwrap_err();
    assert_eq!(
        answer,
        error("Port allocation failed: Port allocation overflow - no more ports available")
    );
    assert_eq!(manager.session_count(), 0);
}

#[test]
fn start_without_a_key_is_an_error_and_takes_no_port() {
    let mut manager = Manager::new();
    let answer = manager.start_with_key(None, |_| true).unwrap_err();
    assert_eq!(
        answer,
        error("Session key allocation failed: no unused key found")
    );
    assert!(!manager.port_in_use(3010));
}

#[test]
fn picked_key_is_unused() {
    let mut manager = Manager::new();
    launch(&mut manager, "AAAA", 0);
    for _ in 0..100 {
        let key = manager.pick_session_key().unwrap();
        assert_eq!(key.len(), 4);
        assert!(!manager.contains(&key));
    }
}

#[test]
fn failed_stop_drops_the_entry_and_keeps_the_port() {
    let mut manager = Manager::new();
    let port = launch(&mut manager, "AAAA", 0);
    let ticket = manager.stop("AAAA".to_string(), 1).unwrap();
    let answer = manager.finish_stop(ticket, StopOutcome::TimedOut, 6_000);
    assert_eq!(
        answer,
        error("Failed to stop server: Timeout waiting for process to exit")
    );
    assert!(!manager.contains("AAAA"));
    assert!(manager.port_in_use(port));
}

#[test]
fn failed_kill_is_reported_with_its_reason() {
    let mut manager = Manager::new();
    launch(&mut manager, "AAAA", 0);
    let ticket = manager.stop("AAAA".to_string(), 1).unwrap();
    let answer = manager.finish_stop(
        ticket,
        StopOutcome::KillFailed("operation not permitted".to_string()),
        2,
    );
    assert_eq!(answer, error("Failed to stop server: operation not permitted"));
    let mut manager = Manager::new();
    launch(&mut manager, "AAAA", 0);
    let ticket = manager.stop("AAAA".to_string(), 1).unwrap();
    let answer = manager.finish_stop(ticket, StopOutcome::WaitFailed("interrupted".to_string()), 2);
    assert_eq!(answer, error("Failed to stop server: interrupted"));
}

#[test]
fn stop_of_exited_session_succeeds_without_killing() {
    let mut manager = Manager::new();
    launch(&mut manager, "AAAA", 0);
    manager.sweep(&vec!["AAAA".to_string()], 10);
    let ticket = manager.stop("AAAA".to_string(), 20).unwrap();
    assert!(!ticket.is_running());
    let answer = manager.finish_stop(ticket, StopOutcome::TimedOut, 30);
    assert_eq!(
        answer,
        obj(vec![("status", text("stopped")), ("session_key", text("AAAA"))])
    );
    let entry = manager.get("AAAA").unwrap();
    assert_eq!(entry.exited_at(), Some(10));
    assert_eq!(entry.last_activity(), 20);
}

#[test]
fn start_under_a_key_that_is_taken_replaces_the_record() {
    let mut manager = Manager::new();
    launch(&mut manager, "AAAA", 0);
    launch(&mut manager, "BBBB", 0);
    launch(&mut manager, "AAAA", 5);
    assert_eq!(manager.session_count(), 2);
    assert_eq!(manager.get("AAAA").unwrap().port(), 3012);
    assert_eq!(manager.running_sessions(), vec!["AAAA".to_string(), "BBBB".to_string()]);
}

#[test]
fn lock_error_answer() {
    assert_eq!(
        lock_error("poisoned lock: another task failed inside"),
        error("Lock error: poisoned lock: another task failed inside")
    );
}

#[test]
fn longer_than_never_goes_negative() {
    assert!(longer_than(100, 39, 60));
    assert!(!longer_than(100, 40, 60));
    assert!(!longer_than(10, 40, 0));
    assert!(!longer_than(40, 40, 0));
    assert!(longer_than(u64::MAX, 0, u64::MAX - 1));
}

#[test]
fn contains_text_finds_exact_matches() {
    let list = vec!["AB".to_string(), "CD".to_string()];
    assert!(contains_text(&list, &"CD".to_string()));
    assert!(!contains_text(&list, &"C".to_string()));
    assert!(!contains_text(&vec![], &"".to_string()));
}

#[test]
fn first_unused_key_follows_the_character_set() {
    let mut manager = Manager::new();
    assert_eq!(manager.first_unused_key(), Some("AAAA".to_string()));
    launch(&mut manager, "AAAA", 0);
    launch(&mut manager, "AAAB", 0);
    assert_eq!(manager.first_unused_key(), Some("AAAC".to_string()));
    launch(&mut manager, "AAAD", 0);
    assert_eq!(manager.first_unused_key(), Some("AAAC".to_string()));
}

#[test]
fn first_unused_key_carries_into_the_next_position() {
    let mut manager = Manager::new();
    let letters = "ABCDEFGHIJKLMNOPQRSTUVWXYZ0123456789";
    for last in letters.chars() {
        launch(&mut manager, &format!("AAA{}", last), 0);
    }
    assert_eq!(manager.first_unused_key(), Some("AABA".to_string()));
    assert_eq!(manager.session_count(), 36);
}

#[test]
fn sessions_keep_distinct_ports_through_a_busy_run() {
    let mut manager = Manager::new();
    let keys = ["AAAA", "BBBB", "CCCC", "DDDD", "EEEE"];
    for key in keys {
        launch(&mut manager, key, 0);
    }
    let ticket = manager.stop("BBBB".to_string(), 10).unwrap();
    manager.finish_stop(ticket, StopOutcome::Exited, 11);
    manager.sweep(&vec!["DDDD".to_string()], 20);
    launch(&mut manager, "FFFF", 30);
    launch(&mut manager, "GGGG", 30);
    launch(&mut manager, "HHHH", 30);
    manager.prune("AAAA");
    launch(&mut manager, "IIII", 40);
    let mut held = Vec::new();
    for key in manager.running_sessions() {
        let entry = manager.get(&key).unwrap();
        assert_ne!(entry.port(), 0);
        assert!(manager.port_in_use(entry.port()));
        assert!(!held.contains(&entry.port()));
        held.push(entry.port());
    }
    assert_eq!(held.len(), 6);
    for key in ["BBBB", "DDDD"] {
        let entry = manager.get(key).unwrap();
        assert!(!entry.is_running());
        assert_eq!(entry.port(), 0);
    }
}

#[test]
fn stopped_session_returns_at_the_end_of_the_table() {
    let mut manager = Manager::new();
    launch(&mut manager, "AAAA", 0);
    launch(&mut manager, "BBBB", 0);
    let ticket = manager.stop("AAAA".to_string(), 1).unwrap();
    manager.finish_stop(ticket, StopOutcome::Exited, 2);
    assert_eq!(
        manager.status(None, 3),
        obj(vec![(
            "sessions",
            Json::List(vec![
                obj(vec![
                    ("session_key", text("BBBB")),
                    ("running", Json::Bool(true)),
                    ("port", num(3011)),
                ]),
                obj(vec![("session_key", text("AAAA")), ("running", Json::Bool(false))]),
            ])
        )])
    );
}

#[test]
fn touching_one_session_leaves_the_others() {
    let mut manager = Manager::new();
    launch(&mut manager, "AAAA", 10);
    launch(&mut manager, "BBBB", 10);
    manager.status(Some("BBBB".to_string()), 50);
    manager.tail("AAAA".to_string(), 70, None, None);
    assert_eq!(manager.get("AAAA").unwrap().last_activity(), 70);
    assert_eq!(manager.get("BBBB").unwrap().last_activity(), 50);
    // a call that names no session touches nothing
    manager.status(Some("NONE".to_string()), 90);
    manager.tail("NONE".to_string(), 90, None, None);
    assert_eq!(manager.get("AAAA").unwrap().last_activity(), 70);
    assert_eq!(manager.get("BBBB").unwrap().last_activity(), 50);
}
