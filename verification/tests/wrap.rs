use ssh_done::wrap::{summarize_command, wrap_report, WrapError};

#[test]
fn short_command_unchanged() {
    let cmd: Vec<String> = vec!["ssh".into(), "host".into(), "uptime".into()];
    assert_eq!(summarize_command(&cmd), "ssh host uptime");
}

#[test]
fn long_command_truncated() {
    let cmd = vec!["ssh".into(), "x".repeat(200)];
    let s = summarize_command(&cmd);
    assert!(s.chars().count() <= 80);
    assert!(s.ends_with("..."));
}

#[test]
fn summary_boundary_and_multibyte() {
    let exactly: Vec<String> = vec!["a".repeat(80)];
    assert_eq!(summarize_command(&exactly), "a".repeat(80));
    let over: Vec<String> = vec!["é".repeat(81)];
    let s = summarize_command(&over);
    assert_eq!(s, format!("{}...", "é".repeat(77)));
    assert_eq!(s.chars().count(), 80);
    let none: Vec<String> = vec![];
    assert_eq!(summarize_command(&none), "");
}

fn cmd(parts: &[&str]) -> Vec<String> {
    parts.iter().map(|s| s.to_string()).collect()
}

#[test]
fn wrap_success_notifies() {
    let r = wrap_report(&cmd(&["make", "release"]), Some(0), 185, None).unwrap();
    assert_eq!(r.exit_code, 0);
    let n = r.notification.unwrap();
    assert_eq!(n.title, "\u{2713} make finished");
    assert_eq!(n.body, "make release after 3m 5s");
}

#[test]
fn wrap_failure_reports_exit_code() {
    let r = wrap_report(&cmd(&["ssh", "host", "false"]), Some(3), 2, None).unwrap();
    assert_eq!(r.exit_code, 3);
    let n = r.notification.unwrap();
    assert_eq!(n.title, "\u{2717} ssh failed (exit 3)");
    assert_eq!(n.body, "ssh host false after 2s");
    let r = wrap_report(&cmd(&["x"]), Some(i32::MIN), 0, None).unwrap();
    assert_eq!(r.exit_code, i32::MIN);
    assert_eq!(r.notification.unwrap().title, "\u{2717} x failed (exit -2147483648)");
}

#[test]
fn wrap_signal_exit_is_one() {
    let r = wrap_report(&cmd(&["sleep", "100"]), None, 61, Some(60)).unwrap();
    assert_eq!(r.exit_code, 1);
    assert_eq!(r.notification.unwrap().title, "\u{2717} sleep failed (terminated by signal)");
}

#[test]
fn wrap_fast_run_skips_notification() {
    let r = wrap_report(&cmd(&["ls"]), Some(2), 59, Some(60)).unwrap();
    assert_eq!(r.exit_code, 2);
    assert!(r.notification.is_none());
    let r = wrap_report(&cmd(&["ls"]), Some(0), 60, Some(60)).unwrap();
    assert!(r.notification.is_some());
}

#[test]
fn wrap_requires_a_command() {
    assert_eq!(wrap_report(&[], Some(0), 1, None).err(), Some(WrapError::NoCommand));
}
