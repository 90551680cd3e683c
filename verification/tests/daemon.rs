use ssh_done::daemon::{
    cmdline_tail, effective_poll_interval, is_ssh_process, session_end_notification, ssh_snapshot,
    ProcessInfo, SshEvent, SshTracker, NANOS_PER_SEC,
};

fn snap(pids: &[(u32, &str)]) -> Vec<(u32, String)> {
    pids.iter().map(|(pid, cmd)| (*pid, cmd.to_string())).collect()
}

fn secs(s: u64) -> u64 {
    s * NANOS_PER_SEC
}

#[test]
fn new_sessions_registered() {
    let mut t = SshTracker::new(10);
    let now = secs(1000);
    let events = t.observe(now, &snap(&[(101, "ssh host deploy")]));
    assert!(events.is_empty());
    assert_eq!(t.tracked_count(), 1);
}

#[test]
fn below_threshold_dropped_silently() {
    let mut t = SshTracker::new(10);
    let now = secs(1000);
    t.observe(now, &snap(&[(101, "ssh host")]));
    // Session vanishes immediately -> lived 0s < 10s -> no event.
    let events = t.observe(now, &snap(&[]));
    assert!(events.is_empty());
    assert_eq!(t.tracked_count(), 0);
}

#[test]
fn at_threshold_notifies() {
    let min = 10u64;
    let mut t = SshTracker::new(min);
    let now = secs(1000);
    // A session that started `min` seconds ago.
    t.observe(now - secs(min), &snap(&[(202, "ssh backup@srv1 restic backup /")]));
    let events = t.observe(now, &snap(&[]));
    assert_eq!(events.len(), 1);
    assert_eq!(events[0].pid, 202);
    assert!(events[0].duration_secs >= min);
}

#[test]
fn pid_reuse_treated_as_new_session() {
    let mut t = SshTracker::new(0);
    let now = secs(1000);
    t.observe(now, &snap(&[(303, "ssh old-host")]));
    let events = t.observe(now, &snap(&[]));
    assert_eq!(events.len(), 1); // min 0 -> immediate event
    // Same PID reappears with a different command -> fresh session.
    let events = t.observe(now, &snap(&[(303, "ssh new-host")]));
    assert!(events.is_empty());
    assert_eq!(t.tracked_count(), 1);
    let events = t.observe(now, &snap(&[]));
    assert_eq!(events.len(), 1);
    assert_eq!(events[0].cmdline, "ssh new-host");
}

#[test]
fn long_running_session_reports_real_duration() {
    let mut t = SshTracker::new(1);
    let now = secs(1000);
    let start = now - secs(65);
    t.observe(start, &snap(&[(404, "ssh prod migrate")]));
    let events = t.observe(now, &snap(&[]));
    assert_eq!(events.len(), 1);
    assert!(events[0].duration_secs >= 65);
}

#[test]
fn ssh_exe_detection() {
    assert!(is_ssh_process(Some("/usr/bin/ssh")));
    assert!(is_ssh_process(Some("C:\\Windows\\System32\\OpenSSH\\ssh.exe")));
    assert!(is_ssh_process(Some("/usr/bin/SSH")));
    assert!(!is_ssh_process(Some("/usr/bin/bash")));
    assert!(!is_ssh_process(Some("/usr/bin/sshd")));
    assert!(!is_ssh_process(None));
}

#[test]
fn cmdline_tail_keeps_last_args() {
    assert_eq!(
        cmdline_tail("/usr/bin/ssh user@host deploy.sh --slow"),
        "user@host deploy.sh --slow"
    );
    assert_eq!(cmdline_tail(""), "ssh");
    assert_eq!(cmdline_tail("ssh"), "ssh");
}

#[test]
fn cmdline_tail_drops_program() {
    assert_eq!(cmdline_tail("/usr/bin/ssh prod"), "prod");
    assert_eq!(cmdline_tail("ssh a b c d e"), "c d e");
    assert_eq!(cmdline_tail("ssh a b c"), "a b c");
    assert_eq!(cmdline_tail("ssh prod 'run 40-minute migration'"), "prod 'run 40-minute migration'");
    assert_eq!(cmdline_tail("ssh h \"it's late\" 'x y' z"), "\"it's late\" 'x y' z");
    assert_eq!(cmdline_tail("'/opt/my tools/ssh' host"), "host");
    assert_eq!(cmdline_tail("ssh 'open quote and more"), "quote and more");
    assert_eq!(cmdline_tail("ssh 'a "), "'a");
    assert_eq!(cmdline_tail("ssh a b it's c d"), "it's c d");
    assert_eq!(cmdline_tail("ssh 'a b'c d"), "'a b'c d");
}

#[test]
fn readme_session_example() {
    // An ssh client first seen at t0, gone 2472 s later (README example).
    let procs = vec![ProcessInfo {
        pid: 4242,
        exe: Some("/usr/bin/ssh".to_string()),
        cmd: vec!["ssh".to_string(), "prod".to_string(), "run 40-minute migration".to_string()],
    }];
    let mut t = SshTracker::new(10);
    let t0 = secs(100);
    assert!(t.observe(t0, &ssh_snapshot(&procs)).is_empty());
    let events = t.observe(t0 + secs(2472), &ssh_snapshot(&[]));
    assert_eq!(events.len(), 1);
    let n = session_end_notification(&events[0]);
    assert_eq!(n.title, "SSH session ended");
    assert_eq!(n.body, "prod 'run 40-minute migration' after 41m 12s");
}

#[test]
fn exe_detection_windows_prefixes() {
    assert!(is_ssh_process(Some("C:ssh.exe")));
    assert!(is_ssh_process(Some("c:\\Tools\\SSH")));
    assert!(is_ssh_process(Some("\\\\server\\share\\bin\\ssh.exe")));
    assert!(!is_ssh_process(Some("\\\\server\\ssh")));
    assert!(!is_ssh_process(Some("\\\\?\\UNC\\server\\ssh")));
    assert!(is_ssh_process(Some("\\\\?\\UNC\\server\\share\\ssh")));
    assert!(is_ssh_process(Some("\\\\?\\C:\\bin\\ssh.exe")));
    assert!(!is_ssh_process(Some("\\\\.\\ssh")));
    assert!(is_ssh_process(Some("\\\\.\\dev\\ssh")));
    assert!(!is_ssh_process(Some("C:")));
    assert!(!is_ssh_process(Some("1:ssh")));
    assert!(!is_ssh_process(Some("\\\\?\\C:\\ssh\\.")));
    assert!(!is_ssh_process(Some("\\\\?\\C:\\ssh\\..")));
    assert!(!is_ssh_process(Some("\\\\?\\C:\\bin/ssh")));
    assert!(is_ssh_process(Some("\\\\?\\ssh.exe\\ssh.exe")));
    assert!(!is_ssh_process(Some("\\\\?\\ssh.exe")));
    assert!(is_ssh_process(Some("//?/C:/bin/ssh")));
}

#[test]
fn exe_detection_file_name_edges() {
    assert!(is_ssh_process(Some("ssh")));
    assert!(is_ssh_process(Some("/usr/bin/ssh/")));
    assert!(is_ssh_process(Some("/usr/bin/ssh/.")));
    assert!(is_ssh_process(Some("/usr/bin/Ssh.EXE")));
    assert!(!is_ssh_process(Some("/usr/bin/ssh/..")));
    assert!(!is_ssh_process(Some("")));
    assert!(!is_ssh_process(Some("/")));
    assert!(!is_ssh_process(Some("/usr/bin/ssh.ex")));
    assert!(!is_ssh_process(Some("/usr/bin/ssh-agent")));
}

#[test]
fn cmdline_tail_white_space() {
    assert_eq!(cmdline_tail("   \t  "), "ssh");
    assert_eq!(cmdline_tail("  ssh   -t  host\tuptime \n"), "-t host uptime");
    assert_eq!(cmdline_tail("a b"), "b");
    assert_eq!(cmdline_tail("a\u{3000}b\u{a0}c d"), "b c d");
}

#[test]
fn observe_keeps_first_seen_while_running() {
    let mut t = SshTracker::new(5);
    t.observe(secs(100), &snap(&[(7, "ssh a")]));
    // Still running: the session keeps its first observation and command line.
    t.observe(secs(103), &snap(&[(7, "ssh changed")]));
    let events = t.observe(secs(110), &snap(&[]));
    assert_eq!(events.len(), 1);
    assert_eq!(events[0].pid, 7);
    assert_eq!(events[0].cmdline, "ssh a");
    assert_eq!(events[0].duration_secs, 10);
}

#[test]
fn observe_duplicate_pid_in_snapshot_keeps_first_entry() {
    let mut t = SshTracker::new(0);
    t.observe(secs(1), &snap(&[(9, "first"), (9, "second")]));
    assert_eq!(t.tracked_count(), 1);
    let events = t.observe(secs(2), &snap(&[]));
    assert_eq!(events, vec![SshEvent { pid: 9, cmdline: "first".to_string(), duration_secs: 1 }]);
}

#[test]
fn observe_clock_going_back_counts_zero() {
    let mut t = SshTracker::new(0);
    t.observe(secs(50), &snap(&[(1, "ssh x")]));
    let events = t.observe(secs(10), &snap(&[]));
    assert_eq!(events.len(), 1);
    assert_eq!(events[0].duration_secs, 0);
}

#[test]
fn observe_reports_only_gone_sessions() {
    let mut t = SshTracker::new(3);
    t.observe(secs(0), &snap(&[(1, "one"), (2, "two"), (3, "three")]));
    t.observe(secs(2), &snap(&[(1, "one"), (2, "two"), (3, "three"), (4, "four")]));
    let mut events = t.observe(secs(5) + 999_999_999, &snap(&[(2, "two")]));
    events.sort_by_key(|e| e.pid);
    // 1 and 3 lived 5.99s, 4 lived 3.99s: all reported with whole seconds.
    assert_eq!(events.len(), 3);
    assert_eq!((events[0].pid, events[0].duration_secs), (1, 5));
    assert_eq!((events[1].pid, events[1].duration_secs), (3, 5));
    assert_eq!((events[2].pid, events[2].duration_secs), (4, 3));
    assert_eq!(t.tracked_count(), 1);
}

#[test]
fn observe_same_snapshot_is_stable() {
    let mut t = SshTracker::new(0);
    let s = snap(&[(5, "ssh a"), (6, "ssh b")]);
    assert!(t.observe(secs(1), &s).is_empty());
    assert!(t.observe(secs(100), &s).is_empty());
    assert_eq!(t.tracked_count(), 2);
}

#[test]
fn ssh_snapshot_filters_and_joins() {
    let procs = vec![
        ProcessInfo {
            pid: 10,
            exe: Some("/usr/bin/ssh".to_string()),
            cmd: vec!["ssh".to_string(), "-p".to_string(), "22".to_string(), "host".to_string()],
        },
        ProcessInfo { pid: 11, exe: Some("/usr/bin/bash".to_string()), cmd: vec!["bash".to_string()] },
        ProcessInfo { pid: 12, exe: None, cmd: vec!["ssh".to_string()] },
        ProcessInfo { pid: 13, exe: Some("/opt/SSH".to_string()), cmd: vec![] },
    ];
    let s = ssh_snapshot(&procs);
    assert_eq!(s, vec![(10, "ssh -p 22 host".to_string()), (13, String::new())]);
    let quoting = vec![ProcessInfo {
        pid: 20,
        exe: Some("ssh".to_string()),
        cmd: vec![
            "ssh".to_string(),
            "host".to_string(),
            "echo it's".to_string(),
            "a\"b".to_string(),
            "x\ty".to_string(),
        ],
    }];
    assert_eq!(
        ssh_snapshot(&quoting),
        vec![(20, "ssh host \"echo it's\" a\"b 'x\ty'".to_string())]
    );
    let apostrophe = vec![ProcessInfo {
        pid: 21,
        exe: Some("ssh".to_string()),
        cmd: vec!["ssh".to_string(), "it's".to_string()],
    }];
    assert_eq!(ssh_snapshot(&apostrophe), vec![(21, "ssh it's".to_string())]);
}

#[test]
fn session_end_notification_text() {
    let e = SshEvent {
        pid: 1,
        cmdline: "/usr/bin/ssh prod 'run migration'".to_string(),
        duration_secs: 2472,
    };
    let n = session_end_notification(&e);
    assert_eq!(n.title, "SSH session ended");
    assert_eq!(n.body, "prod 'run migration' after 41m 12s");
    let e = SshEvent { pid: 2, cmdline: "  ".to_string(), duration_secs: 3600 };
    assert_eq!(session_end_notification(&e).body, "ssh after 1h 0m 0s");
}

#[test]
fn poll_interval_at_least_one_second() {
    assert_eq!(effective_poll_interval(0), 1);
    assert_eq!(effective_poll_interval(1), 1);
    assert_eq!(effective_poll_interval(5), 5);
}
