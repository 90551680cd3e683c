//! Tracking SSH client sessions across snapshots of the process table.

use std::collections::HashMap;
use std::collections::HashSet;

use vstd::prelude::*;

use crate::notify::{Notification, NotificationView};
use crate::text::{is_white_space, lemma_arguments_trimmed, lemma_blank_has_no_arguments, lemma_joined_ends};
use crate::text::{
    arguments, chars_of, command_line, command_line_of, join_words_from, joined, push_char,
    split_arguments, views_of,
};
use crate::util::{duration_text, format_duration};
use vstd::string::StringExecFns;

verus! {

broadcast use vstd::std_specs::hash::group_hash_axioms;

/// Nanoseconds in one second: timestamps are nanoseconds on a monotonic clock.
pub const NANOS_PER_SEC: u64 = 1_000_000_000;

/// A session that ended after living at least `min_duration`.
#[derive(Debug, Clone, PartialEq, Eq)]
pub struct SshEvent {
    pub pid: u32,
    pub cmdline: String,
    pub duration_secs: u64,
}

/// What a tracked session is: when it was first seen, and its command line.
pub struct SessionView {
    pub first_seen: u64,
    pub cmdline: Seq<char>,
}

/// What an end event says: the pid, the command line, and whole seconds lived.
pub struct EventView {
    pub pid: u32,
    pub cmdline: Seq<char>,
    pub duration_secs: u64,
}

impl View for SshEvent {
    type V = EventView;

    open spec fn view(&self) -> EventView {
        EventView { pid: self.pid, cmdline: self.cmdline@, duration_secs: self.duration_secs }
    }
}

/// The state of a tracker: its sessions by pid, and its threshold.
pub struct TrackerView {
    pub sessions: Map<u32, SessionView>,
    pub min_duration_secs: u64,
}

/// A snapshot `(pid, cmdline)` with each command line taken by its characters.
pub open spec fn snapshot_view(running: Seq<(u32, String)>) -> Seq<(u32, Seq<char>)> {
    running.map_values(|e: (u32, String)| (e.0, e.1@))
}

/// The pids that occur in a snapshot.
pub open spec fn snapshot_pids(snap: Seq<(u32, Seq<char>)>) -> Set<u32> {
    Set::new(|p: u32| exists|i: int| 0 <= i < snap.len() && #[trigger] snap[i].0 == p)
}

/// Registration of a snapshot, entry by entry from the first: a pid that has
/// no session yet gets one, first seen at `now`, with that entry's command line;
/// a pid that has one keeps it.
pub open spec fn register(
    sessions: Map<u32, SessionView>,
    now: u64,
    snap: Seq<(u32, Seq<char>)>,
) -> Map<u32, SessionView>
    decreases snap.len(),
{
    if snap.len() == 0 {
        sessions
    } else {
        let before = register(sessions, now, snap.drop_last());
        let (pid, cmdline) = snap.last();
        if before.contains_key(pid) {
            before
        } else {
            before.insert(pid, SessionView { first_seen: now, cmdline })
        }
    }
}

/// The sessions after observing `snap` at `now`: those registered, kept only
/// for the pids that are running.
pub open spec fn observed_sessions(
    sessions: Map<u32, SessionView>,
    now: u64,
    snap: Seq<(u32, Seq<char>)>,
) -> Map<u32, SessionView> {
    register(sessions, now, snap).restrict(snapshot_pids(snap))
}

/// Whole seconds from `first_seen` to `now`, zero when `now` is earlier.
pub open spec fn lived_secs(first_seen: u64, now: u64) -> u64 {
    if now >= first_seen {
        ((now - first_seen) / (NANOS_PER_SEC as int)) as u64
    } else {
        0
    }
}

/// A tracked session that is gone from `snap` and lived at least `min` seconds:
/// it is reported.
pub open spec fn is_reported(
    sessions: Map<u32, SessionView>,
    now: u64,
    snap: Seq<(u32, Seq<char>)>,
    min: u64,
    pid: u32,
) -> bool {
    &&& sessions.contains_key(pid)
    &&& !snapshot_pids(snap).contains(pid)
    &&& lived_secs(sessions[pid].first_seen, now) >= min
}

/// The end event of the session of `pid` at `now`.
pub open spec fn end_event(sessions: Map<u32, SessionView>, now: u64, pid: u32) -> EventView {
    EventView {
        pid,
        cmdline: sessions[pid].cmdline,
        duration_secs: lived_secs(sessions[pid].first_seen, now),
    }
}

/// `events` reports each session that `is_reported` picks out, once, and nothing else.
pub open spec fn reports_exactly(
    events: Seq<EventView>,
    sessions: Map<u32, SessionView>,
    now: u64,
    snap: Seq<(u32, Seq<char>)>,
    min: u64,
) -> bool {
    &&& forall|i: int|
        0 <= i < events.len() ==> is_reported(sessions, now, snap, min, #[trigger] events[i].pid)
            && events[i] == end_event(sessions, now, events[i].pid)
    &&& forall|i: int, j: int|
        0 <= i < events.len() && 0 <= j < events.len() && i != j ==> #[trigger] events[i].pid
            != #[trigger] events[j].pid
    &&& forall|pid: u32|
        is_reported(sessions, now, snap, min, pid) ==> exists|i: int|
            0 <= i < events.len() && #[trigger] events[i].pid == pid
}

/// A tracked SSH client process: when it was first observed and its command line.
struct Session {
    first_seen: u64,
    cmdline: String,
}

/// Pure state machine tracking SSH sessions across poll snapshots.
pub struct SshTracker {
    sessions: HashMap<u32, Session>,
    min_duration_secs: u64,
}

spec fn session_view(s: Session) -> SessionView {
    SessionView { first_seen: s.first_seen, cmdline: s.cmdline@ }
}

spec fn sessions_view(m: Map<u32, Session>) -> Map<u32, SessionView> {
    m.map_values(|s: Session| session_view(s))
}

impl View for SshTracker {
    type V = TrackerView;

    closed spec fn view(&self) -> TrackerView {
        TrackerView {
            sessions: sessions_view(self.sessions@),
            min_duration_secs: self.min_duration_secs,
        }
    }
}

/// What registration keeps and adds: the pids tracked before and those of the
/// snapshot, with the sessions tracked before unchanged.
pub proof fn lemma_register(sessions: Map<u32, SessionView>, now: u64, snap: Seq<(u32, Seq<char>)>)
    ensures
        forall|p: u32|
            #[trigger] register(sessions, now, snap).contains_key(p) <==> (sessions.contains_key(p)
                || snapshot_pids(snap).contains(p)),
        forall|p: u32|
            sessions.contains_key(p) ==> #[trigger] register(sessions, now, snap)[p] == sessions[p],
    decreases snap.len(),
{
    if snap.len() == 0 {
        assert forall|p: u32| !#[trigger] snapshot_pids(snap).contains(p) by {}
    } else {
        let init = snap.drop_last();
        lemma_register(sessions, now, init);
        let before = register(sessions, now, init);
        let (pid, cmdline) = snap.last();
        assert forall|p: u32| #[trigger]
            snapshot_pids(snap).contains(p) <==> (snapshot_pids(init).contains(p) || pid == p) by {
            if snapshot_pids(snap).contains(p) {
                let i = choose|i: int| 0 <= i < snap.len() && #[trigger] snap[i].0 == p;
                if i < snap.len() - 1 {
                    assert(init[i].0 == p);
                }
            }
            if snapshot_pids(init).contains(p) {
                let i = choose|i: int| 0 <= i < init.len() && #[trigger] init[i].0 == p;
                assert(snap[i].0 == p);
            }
            if pid == p {
                assert(snap[snap.len() - 1].0 == p);
            }
        }
        if before.contains_key(pid) {
            assert(register(sessions, now, snap) == before);
        } else {
            assert(register(sessions, now, snap) == before.insert(
                pid,
                SessionView { first_seen: now, cmdline },
            ));
        }
    }
}

/// A pid of the snapshot that had no session gets one first seen at `now`,
/// with the command line of its first entry in the snapshot.
pub proof fn lemma_register_new(
    sessions: Map<u32, SessionView>,
    now: u64,
    snap: Seq<(u32, Seq<char>)>,
    pid: u32,
    i: int,
)
    requires
        !sessions.contains_key(pid),
        0 <= i < snap.len(),
        snap[i].0 == pid,
        forall|k: int| 0 <= k < i ==> snap[k].0 != pid,
    ensures
        register(sessions, now, snap).contains_key(pid),
        register(sessions, now, snap)[pid] == (SessionView { first_seen: now, cmdline: snap[i].1 }),
    decreases snap.len(),
{
    let init = snap.drop_last();
    if i < snap.len() - 1 {
        lemma_register_new(sessions, now, init, pid, i);
        assert(init[i] == snap[i]);
    } else {
        lemma_register(sessions, now, init);
        assert forall|p: u32| snapshot_pids(init).contains(p) implies p != pid by {
            let k = choose|k: int| 0 <= k < init.len() && #[trigger] init[k].0 == p;
            assert(snap[k].0 == p);
        }
        assert(!register(sessions, now, init).contains_key(pid));
    }
}

/// Law: after an observation the tracked pids are exactly the pids of the
/// snapshot: new pids are registered and gone pids are removed.
pub proof fn law_tracks_running_pids(
    sessions: Map<u32, SessionView>,
    now: u64,
    snap: Seq<(u32, Seq<char>)>,
)
    ensures
        observed_sessions(sessions, now, snap).dom() == snapshot_pids(snap),
{
    lemma_register(sessions, now, snap);
    assert(observed_sessions(sessions, now, snap).dom() =~= snapshot_pids(snap));
}

/// Law: a session whose pid is still running keeps its first observation, so
/// its duration is measured from the first snapshot that held it.
pub proof fn law_running_session_kept(
    sessions: Map<u32, SessionView>,
    now: u64,
    snap: Seq<(u32, Seq<char>)>,
    pid: u32,
)
    requires
        sessions.contains_key(pid),
        snapshot_pids(snap).contains(pid),
    ensures
        observed_sessions(sessions, now, snap).contains_key(pid),
        observed_sessions(sessions, now, snap)[pid] == sessions[pid],
{
    lemma_register(sessions, now, snap);
}

/// Law: a pid that appears without a session is registered as a new session
/// first seen now, with the command line of its first entry.
pub proof fn law_new_session_registered(
    sessions: Map<u32, SessionView>,
    now: u64,
    snap: Seq<(u32, Seq<char>)>,
    pid: u32,
    i: int,
)
    requires
        !sessions.contains_key(pid),
        0 <= i < snap.len(),
        snap[i].0 == pid,
        forall|k: int| 0 <= k < i ==> snap[k].0 != pid,
    ensures
        observed_sessions(sessions, now, snap).contains_key(pid),
        observed_sessions(sessions, now, snap)[pid] == (SessionView {
            first_seen: now,
            cmdline: snap[i].1,
        }),
{
    lemma_register_new(sessions, now, snap, pid, i);
    assert(snapshot_pids(snap).contains(pid));
}

/// Law (pid reuse): a pid that was gone from one snapshot and is back in the
/// next is a fresh session, first seen at the later observation and with its
/// new command line; nothing of the earlier session is kept.
pub proof fn law_pid_reuse_is_fresh(
    sessions: Map<u32, SessionView>,
    t1: u64,
    snap1: Seq<(u32, Seq<char>)>,
    t2: u64,
    snap2: Seq<(u32, Seq<char>)>,
    pid: u32,
    i: int,
)
    requires
        !snapshot_pids(snap1).contains(pid),
        0 <= i < snap2.len(),
        snap2[i].0 == pid,
        forall|k: int| 0 <= k < i ==> snap2[k].0 != pid,
    ensures
        observed_sessions(observed_sessions(sessions, t1, snap1), t2, snap2)[pid] == (SessionView {
            first_seen: t2,
            cmdline: snap2[i].1,
        }),
{
    law_tracks_running_pids(sessions, t1, snap1);
    law_new_session_registered(observed_sessions(sessions, t1, snap1), t2, snap2, pid, i);
}

/// Law: observing the same snapshot again changes nothing and reports nothing.
pub proof fn law_same_snapshot_is_stable(
    sessions: Map<u32, SessionView>,
    t1: u64,
    t2: u64,
    snap: Seq<(u32, Seq<char>)>,
    min: u64,
)
    ensures
        observed_sessions(observed_sessions(sessions, t1, snap), t2, snap) == observed_sessions(
            sessions,
            t1,
            snap,
        ),
        forall|pid: u32| !is_reported(observed_sessions(sessions, t1, snap), t2, snap, min, pid),
{
    let once = observed_sessions(sessions, t1, snap);
    law_tracks_running_pids(sessions, t1, snap);
    lemma_register(once, t2, snap);
    assert(observed_sessions(once, t2, snap) =~= once);
}

/// Law: a session that is gone is reported exactly when it lived at least the
/// threshold; shorter ones are dropped silently, one of exactly the threshold
/// is reported.
pub proof fn law_threshold(
    sessions: Map<u32, SessionView>,
    now: u64,
    snap: Seq<(u32, Seq<char>)>,
    min: u64,
    pid: u32,
)
    requires
        sessions.contains_key(pid),
        !snapshot_pids(snap).contains(pid),
    ensures
        is_reported(sessions, now, snap, min, pid) <==> lived_secs(sessions[pid].first_seen, now)
            >= min,
{
}

/// Law: the duration of a session is the whole number of seconds between its
/// first observation and now: `lived` seconds fit in the nanoseconds elapsed
/// and `lived + 1` do not (and it is zero when the clock went back).
pub proof fn law_lived_is_whole_seconds(first_seen: u64, now: u64)
    ensures
        now >= first_seen ==> lived_secs(first_seen, now) * NANOS_PER_SEC <= now - first_seen
            < (lived_secs(first_seen, now) + 1) * NANOS_PER_SEC,
        now < first_seen ==> lived_secs(first_seen, now) == 0,
{
    if now >= first_seen {
        let x: int = now - first_seen;
        let q: int = x / (NANOS_PER_SEC as int);
        assert(q * NANOS_PER_SEC <= x < (q + 1) * NANOS_PER_SEC) by (nonlinear_arith)
            requires
                q == x / (NANOS_PER_SEC as int),
                x >= 0,
                NANOS_PER_SEC > 0,
        ;
        assert(0 <= q <= x);
    }
}

/// Law: a session that is gone is reported exactly when at least `min` whole
/// seconds (`min` times a billion nanoseconds) passed since its first
/// observation, and its end event then carries the seconds that passed.
pub proof fn law_reported_when_threshold_elapsed(
    sessions: Map<u32, SessionView>,
    now: u64,
    snap: Seq<(u32, Seq<char>)>,
    min: u64,
    pid: u32,
)
    requires
        sessions.contains_key(pid),
        !snapshot_pids(snap).contains(pid),
        now >= sessions[pid].first_seen,
    ensures
        is_reported(sessions, now, snap, min, pid) <==> now - sessions[pid].first_seen >= min
            * NANOS_PER_SEC,
        end_event(sessions, now, pid).pid == pid,
        end_event(sessions, now, pid).cmdline == sessions[pid].cmdline,
        end_event(sessions, now, pid).duration_secs * NANOS_PER_SEC <= now
            - sessions[pid].first_seen < (end_event(sessions, now, pid).duration_secs + 1)
            * NANOS_PER_SEC,
{
    let f = sessions[pid].first_seen;
    law_lived_is_whole_seconds(f, now);
    let q: int = lived_secs(f, now) as int;
    let x: int = now - f;
    assert(q >= min <==> x >= min * NANOS_PER_SEC) by (nonlinear_arith)
        requires
            q * NANOS_PER_SEC <= x < (q + 1) * NANOS_PER_SEC,
            min >= 0,
            NANOS_PER_SEC > 0,
    ;
}

/// The sessions after a sequence of observations `(now, snapshot)`, starting
/// from `sessions`. The threshold plays no part in it.
pub open spec fn sessions_after(
    sessions: Map<u32, SessionView>,
    steps: Seq<(u64, Seq<(u32, Seq<char>)>)>,
) -> Map<u32, SessionView>
    decreases steps.len(),
{
    if steps.len() == 0 {
        sessions
    } else {
        let (now, snap) = steps.last();
        observed_sessions(sessions_after(sessions, steps.drop_last()), now, snap)
    }
}

/// Law: raising the threshold only drops events. Two trackers that start with
/// the same sessions and go through the same observations track the same
/// sessions after every call, whatever their thresholds (`sessions_after`
/// does not depend on one); and at every call, a session that the larger
/// threshold reports is reported by the smaller one too, with the same event.
pub proof fn law_raising_threshold_only_drops_events(
    sessions: Map<u32, SessionView>,
    steps: Seq<(u64, Seq<(u32, Seq<char>)>)>,
    i: int,
    a: u64,
    b: u64,
    pid: u32,
)
    requires
        0 <= i < steps.len(),
        a <= b,
        is_reported(sessions_after(sessions, steps.take(i)), steps[i].0, steps[i].1, b, pid),
    ensures
        is_reported(sessions_after(sessions, steps.take(i)), steps[i].0, steps[i].1, a, pid),
        sessions_after(sessions, steps.take(i + 1)) == observed_sessions(
            sessions_after(sessions, steps.take(i)),
            steps[i].0,
            steps[i].1,
        ),
{
    assert(steps.take(i + 1).drop_last() == steps.take(i));
}

/// The pids of the tracked sessions, each once.
fn keys_of(m: &HashMap<u32, Session>) -> (pids: Vec<u32>)
    ensures
        pids@.no_duplicates(),
        forall|p: u32| pids@.contains(p) <==> m@.contains_key(p),
{
    let mut pids: Vec<u32> = Vec::new();
    let ghost all = vstd::std_specs::iter::IteratorSpec::remaining(&vstd::std_specs::hash::spec_keys_iter(m)).unref();
    for k in it: m.keys()
        invariant
            it.seq().unref() == all,
            pids@ == it.seq().take(it.index()).unref(),
            it.seq().unref().no_duplicates(),
            forall|p: u32| it.seq().unref().contains(p) <==> m@.contains_key(p),
    {
        pids.push(*k);
    }
    proof {
        assert(pids@.len() == all.len());
        assert(pids@ =~= all);
        assert forall|p: u32| pids@.contains(p) <==> m@.contains_key(p) by {
            if m@.contains_key(p) {
                let i = choose|i: int| 0 <= i < all.len() && all[i] == p;
                assert(pids@[i] == p);
            }
        }
    }
    pids
}

/// A path separator: `/`, or `\` as on Windows.
pub open spec fn is_separator(c: char) -> bool {
    c == '/' || c == '\\'
}

/// An ASCII letter.
pub open spec fn is_ascii_letter(c: char) -> bool {
    ('a' <= c <= 'z') || ('A' <= c <= 'Z')
}

/// Reading a path from the left: its non-empty segments finished so far, and
/// the segment being read.
pub open spec fn segment_state(s: Seq<char>) -> (Seq<Seq<char>>, Seq<char>)
    decreases s.len(),
{
    if s.len() == 0 {
        (seq![], seq![])
    } else {
        let (done, cur) = segment_state(s.drop_last());
        let c = s.last();
        if is_separator(c) {
            if cur.len() > 0 {
                (done.push(cur), seq![])
            } else {
                (done, cur)
            }
        } else {
            (done, cur.push(c))
        }
    }
}

/// The non-empty pieces of a path between separators, in order.
pub open spec fn segments(s: Seq<char>) -> Seq<Seq<char>> {
    let (done, cur) = segment_state(s);
    if cur.len() > 0 {
        done.push(cur)
    } else {
        done
    }
}

/// Reading a verbatim path from the left, where only `\` separates: its
/// non-empty segments finished so far, and the segment being read.
pub open spec fn verbatim_state(s: Seq<char>) -> (Seq<Seq<char>>, Seq<char>)
    decreases s.len(),
{
    if s.len() == 0 {
        (seq![], seq![])
    } else {
        let (done, cur) = verbatim_state(s.drop_last());
        let c = s.last();
        if c == '\\' {
            if cur.len() > 0 {
                (done.push(cur), seq![])
            } else {
                (done, cur)
            }
        } else {
            (done, cur.push(c))
        }
    }
}

/// The non-empty pieces of a verbatim path between backslashes, in order.
pub open spec fn verbatim_segments(s: Seq<char>) -> Seq<Seq<char>> {
    let (done, cur) = verbatim_state(s);
    if cur.len() > 0 {
        done.push(cur)
    } else {
        done
    }
}

/// A verbatim path: one that starts with `\\?\` exactly.
pub open spec fn has_verbatim_prefix(s: Seq<char>) -> bool {
    s.len() >= 4 && s[0] == '\\' && s[1] == '\\' && s[2] == '?' && s[3] == '\\'
}

/// The components of a verbatim path after its prefix (`\\?\UNC\server\share`,
/// or `\\?\name`, a disk such as `\\?\C:` included).
pub open spec fn verbatim_components(s: Seq<char>) -> Seq<Seq<char>> {
    let segs = verbatim_segments(s.skip(4));
    let k: int = if segs.len() >= 1 && segs[0] == seq!['U', 'N', 'C'] {
        3
    } else {
        1
    };
    if segs.len() <= k {
        seq![]
    } else {
        segs.skip(k)
    }
}

/// A path that starts with a drive prefix such as `C:`.
pub open spec fn has_drive_prefix(s: Seq<char>) -> bool {
    s.len() >= 2 && is_ascii_letter(s[0]) && s[1] == ':'
}

/// A path that starts with two separators: a network or device path, whose
/// prefix is `\\server\share` or `\\.\name` (or, with a `\\?\` start, verbatim).
pub open spec fn has_network_prefix(s: Seq<char>) -> bool {
    s.len() >= 2 && is_separator(s[0]) && is_separator(s[1])
}

/// The segments of a path after its Windows prefix, if it has one.
pub open spec fn component_segments(s: Seq<char>) -> Seq<Seq<char>> {
    if has_network_prefix(s) {
        let segs = segments(s);
        if segs.len() <= 2 {
            seq![]
        } else {
            segs.skip(2)
        }
    } else if has_drive_prefix(s) {
        segments(s.skip(2))
    } else {
        segments(s)
    }
}

/// The last segment that is not `.`.
pub open spec fn last_named(segs: Seq<Seq<char>>) -> Option<Seq<char>>
    decreases segs.len(),
{
    if segs.len() == 0 {
        None
    } else if segs.last() == seq!['.'] {
        last_named(segs.drop_last())
    } else {
        Some(segs.last())
    }
}

/// The file name of a path, as `Path::file_name` gives it on Windows, read
/// the same on every platform.
/// - A verbatim path (`\\?\...`) is split at `\` only; after its prefix, its
///   last component is the name, unless it is `.` or `..` or there is none.
/// - Any other path is split at `/` and `\`; its Windows prefix (`C:`,
///   `\\server\share`, `\\.\name`) is no part of the name; the name is the
///   last segment after that which is not `.`, unless that is `..`.
/// (Within a verbatim prefix std also takes `UNC/` for `UNC\`; that case is
/// read here as a component named `UNC/...`.)
pub open spec fn file_name(s: Seq<char>) -> Option<Seq<char>> {
    if has_verbatim_prefix(s) {
        let comps = verbatim_components(s);
        if comps.len() == 0 || comps.last() == seq!['.'] || comps.last() == seq!['.', '.'] {
            None
        } else {
            Some(comps.last())
        }
    } else {
        match last_named(component_segments(s)) {
            Some(seg) => if seg == seq!['.', '.'] {
                None
            } else {
                Some(seg)
            },
            None => None,
        }
    }
}

/// `c` with ASCII upper-case letters made lower case.
pub open spec fn ascii_lower(c: char) -> char {
    if 'A' <= c <= 'Z' {
        ((c as u32) + 32) as char
    } else {
        c
    }
}

/// `c` with ASCII lower-case letters made upper case.
pub open spec fn ascii_upper(c: char) -> char {
    if 'a' <= c <= 'z' {
        ((c as u32) - 32) as char
    } else {
        c
    }
}

/// A file name that, ignoring ASCII case, is `ssh` or `ssh.exe`.
pub open spec fn is_ssh_name(name: Seq<char>) -> bool {
    let lower = name.map_values(|c: char| ascii_lower(c));
    lower == seq!['s', 's', 'h'] || lower == seq!['s', 's', 'h', '.', 'e', 'x', 'e']
}

/// An executable path that looks like an SSH client.
pub open spec fn is_ssh_path(exe: Option<Seq<char>>) -> bool {
    match exe {
        Some(path) => match file_name(path) {
            Some(name) => is_ssh_name(name),
            None => false,
        },
        None => false,
    }
}

/// Splitting at a separator finishes the segment being read.
proof fn lemma_segments_after_separator(a: Seq<char>, c: char)
    requires
        is_separator(c),
    ensures
        segment_state(a.push(c)) == (segments(a), Seq::<char>::empty()),
{
    assert(a.push(c).drop_last() == a);
}

/// Reading a piece without separators after a separator extends the segment
/// being read by that piece.
proof fn lemma_segment_piece(a: Seq<char>, c: char, n: Seq<char>, k: int)
    requires
        is_separator(c),
        0 <= k <= n.len(),
        forall|i: int| 0 <= i < n.len() ==> !is_separator(#[trigger] n[i]),
    ensures
        segment_state(a.push(c) + n.take(k)) == (segments(a), n.take(k)),
    decreases k,
{
    if k == 0 {
        assert(a.push(c) + n.take(0) == a.push(c));
        lemma_segments_after_separator(a, c);
    } else {
        lemma_segment_piece(a, c, n, k - 1);
        assert((a.push(c) + n.take(k)).drop_last() == a.push(c) + n.take(k - 1));
        assert(n.take(k - 1).push(n[k - 1]) == n.take(k));
    }
}

/// The segments of `a`, a separator, and a name without separators: those of
/// `a`, then the name.
pub proof fn lemma_segments_join(a: Seq<char>, c: char, n: Seq<char>)
    requires
        is_separator(c),
        n.len() > 0,
        forall|i: int| 0 <= i < n.len() ==> !is_separator(#[trigger] n[i]),
    ensures
        segments(a.push(c) + n) == segments(a).push(n),
{
    lemma_segment_piece(a, c, n, n.len() as int);
    assert(n.take(n.len() as int) == n);
}

/// A name that can be the last segment of a path: not empty, without
/// separators, neither `.` nor `..`, and not starting like a drive (`C:`).
pub open spec fn is_plain_name(n: Seq<char>) -> bool {
    &&& n.len() > 0
    &&& forall|i: int| 0 <= i < n.len() ==> !is_separator(#[trigger] n[i])
    &&& n != seq!['.']
    &&& n != seq!['.', '.']
    &&& !has_drive_prefix(n)
}

/// A piece without separators is a single segment.
proof fn lemma_single_segment(n: Seq<char>, k: int)
    requires
        0 <= k <= n.len(),
        forall|i: int| 0 <= i < n.len() ==> !is_separator(#[trigger] n[i]),
    ensures
        segment_state(n.take(k)) == (Seq::<Seq<char>>::empty(), n.take(k)),
    decreases k,
{
    if k > 0 {
        lemma_single_segment(n, k - 1);
        assert(n.take(k).drop_last() == n.take(k - 1));
        assert(n.take(k - 1).push(n[k - 1]) == n.take(k));
    }
}

/// A directory path `d` joined with the name `n` as `Path::join` joins them
/// on Windows: `n` alone when `d` is empty; `d` directly followed by `n` when
/// `d` is a bare drive (`C:`) or ends with a separator; otherwise `d`, the
/// separator `c`, then `n`.
pub open spec fn joined_path(d: Seq<char>, c: char, n: Seq<char>) -> Seq<char> {
    if d.len() == 0 {
        n
    } else if (d.len() == 2 && has_drive_prefix(d)) || is_separator(d.last()) {
        d + n
    } else {
        d.push(c) + n
    }
}

/// The file name of a directory path joined with a plain name is that name,
/// unless the whole is a network or device path.
pub proof fn lemma_file_name_of_join(d: Seq<char>, c: char, n: Seq<char>)
    requires
        is_separator(c),
        is_plain_name(n),
        !has_network_prefix(d.push(c) + n),
    ensures
        file_name(d.push(c) + n) == Some(n),
{
    let p = d.push(c) + n;
    if has_drive_prefix(p) {
        assert(d.len() >= 2) by {
            if d.len() == 1 {
                assert(p[1] == c);
            } else if d.len() == 0 {
                assert(p[0] == c);
            }
        }
        let body = d.skip(2);
        assert(p.skip(2) == body.push(c) + n);
        lemma_segments_join(body, c, n);
        assert(component_segments(p) == segments(body).push(n));
    } else {
        lemma_segments_join(d, c, n);
    }
}

/// The file name of a directory joined with a plain name is that name, for
/// every directory (empty, a bare drive, or any other), unless the whole is a
/// network, device or verbatim path.
pub proof fn lemma_file_name_of_joined_path(d: Seq<char>, c: char, n: Seq<char>)
    requires
        is_separator(c),
        is_plain_name(n),
        !has_network_prefix(joined_path(d, c, n)),
    ensures
        file_name(joined_path(d, c, n)) == Some(n),
{
    if d.len() == 0 {
        lemma_single_segment(n, n.len() as int);
        assert(n.take(n.len() as int) == n);
        assert(segments(n) == seq![n]);
        assert(seq![n].drop_last() =~= Seq::<Seq<char>>::empty());
    } else if d.len() == 2 && has_drive_prefix(d) {
        let p = d + n;
        assert(p.skip(2) == n);
        lemma_single_segment(n, n.len() as int);
        assert(n.take(n.len() as int) == n);
        assert(segments(n) == seq![n]);
    } else if is_separator(d.last()) {
        let d0 = d.drop_last();
        assert(d0.push(d.last()) + n == d + n);
        lemma_file_name_of_join(d0, d.last(), n);
    } else {
        lemma_file_name_of_join(d, c, n);
    }
}

/// Law: only the file name, with ASCII case folded, decides whether a path is
/// an SSH client: a name joined to any directory (that does not make a
/// network, device or verbatim path) gives the answer of the name alone, so
/// two names with the same case-folded letters give the same answer in any
/// directories.
pub proof fn law_folded_name_decides(
    d1: Seq<char>,
    c1: char,
    n1: Seq<char>,
    d2: Seq<char>,
    c2: char,
    n2: Seq<char>,
)
    requires
        is_separator(c1),
        is_separator(c2),
        is_plain_name(n1),
        is_plain_name(n2),
        !has_network_prefix(joined_path(d1, c1, n1)),
        !has_network_prefix(joined_path(d2, c2, n2)),
        n1.map_values(|c: char| ascii_lower(c)) == n2.map_values(|c: char| ascii_lower(c)),
    ensures
        is_ssh_path(Some(joined_path(d1, c1, n1))) == is_ssh_name(n1),
        is_ssh_path(Some(joined_path(d1, c1, n1))) == is_ssh_path(Some(joined_path(d2, c2, n2))),
{
    lemma_file_name_of_joined_path(d1, c1, n1);
    lemma_file_name_of_joined_path(d2, c2, n2);
}

/// `c` is the lower-case ASCII letter `l` in either case.
pub open spec fn is_letter_either_case(c: char, l: char) -> bool {
    c == l || (c as int) + 32 == (l as int)
}

/// Law: the SSH client names are exactly `ssh` and `ssh.exe`, each letter in
/// either case: three characters `s`, `s`, `h`, or seven characters `s`, `s`,
/// `h`, `.`, `e`, `x`, `e`; no name of any other length is one.
pub proof fn law_ssh_names_exactly(n: Seq<char>)
    ensures
        is_ssh_name(n) <==> (n.len() == 3 && is_letter_either_case(n[0], 's')
            && is_letter_either_case(n[1], 's') && is_letter_either_case(n[2], 'h')) || (n.len()
            == 7 && is_letter_either_case(n[0], 's') && is_letter_either_case(n[1], 's')
            && is_letter_either_case(n[2], 'h') && n[3] == '.' && is_letter_either_case(n[4], 'e')
            && is_letter_either_case(n[5], 'x') && is_letter_either_case(n[6], 'e')),
        is_ssh_name(n) ==> n.len() == 3 || n.len() == 7,
{
    let lower = n.map_values(|c: char| ascii_lower(c));
    assert forall|i: int, l: char|
        0 <= i < n.len() && 'a' <= l <= 'z' implies (lower[i] == l <==> is_letter_either_case(
        n[i],
        l,
    )) by {}
    assert forall|i: int| 0 <= i < n.len() implies (lower[i] == '.' <==> n[i] == '.') by {}
    let ssh = seq!['s', 's', 'h'];
    let ssh_exe = seq!['s', 's', 'h', '.', 'e', 'x', 'e'];
    if n.len() == 3 {
        if lower[0] == 's' && lower[1] == 's' && lower[2] == 'h' {
            assert(lower =~= ssh);
        }
        if lower == ssh {
            assert(lower[0] == 's' && lower[1] == 's' && lower[2] == 'h');
        }
    }
    if n.len() == 7 {
        if lower[0] == 's' && lower[1] == 's' && lower[2] == 'h' && lower[3] == '.' && lower[4]
            == 'e' && lower[5] == 'x' && lower[6] == 'e' {
            assert(lower =~= ssh_exe);
        }
        if lower == ssh_exe {
            assert(lower[0] == 's' && lower[1] == 's' && lower[2] == 'h' && lower[3] == '.'
                && lower[4] == 'e' && lower[5] == 'x' && lower[6] == 'e');
        }
    }
    if lower == ssh {
        assert(lower.len() == 3);
    }
    if lower == ssh_exe {
        assert(lower.len() == 7);
    }
}

/// Law: ASCII case does not matter: a name made upper case is an SSH client
/// name exactly when the name is.
pub proof fn law_ssh_name_ignores_case(n: Seq<char>)
    ensures
        is_ssh_name(n.map_values(|c: char| ascii_upper(c))) == is_ssh_name(n),
{
    let up = n.map_values(|c: char| ascii_upper(c));
    assert(up.map_values(|c: char| ascii_lower(c)) =~= n.map_values(|c: char| ascii_lower(c)));
}

fn is_sep_char(c: char) -> (b: bool)
    ensures
        b == is_separator(c),
{
    c == '/' || c == '\\'
}

/// The segments of the path `chars[from..]`, split at `\` only when
/// `verbatim`, at both separators otherwise.
fn split_segments_from(chars: &Vec<char>, from: usize, verbatim: bool) -> (out: Vec<Vec<char>>)
    requires
        from <= chars.len(),
    ensures
        out.deep_view() == if verbatim {
            verbatim_segments(chars@.skip(from as int))
        } else {
            segments(chars@.skip(from as int))
        },
{
    let mut done: Vec<Vec<char>> = Vec::new();
    let mut cur: Vec<char> = Vec::new();
    let n = chars.len();
    let mut i: usize = from;
    while i < n
        invariant
            n == chars.len(),
            from <= i <= n,
            (done.deep_view(), cur@) == if verbatim {
                verbatim_state(chars@.subrange(from as int, i as int))
            } else {
                segment_state(chars@.subrange(from as int, i as int))
            },
        decreases n - i,
    {
        let c = chars[i];
        assert(chars@.subrange(from as int, i + 1).drop_last() == chars@.subrange(
            from as int,
            i as int,
        ));
        let separates = if verbatim {
            c == '\\'
        } else {
            is_sep_char(c)
        };
        if separates {
            if cur.len() > 0 {
                let ghost d0 = done.deep_view();
                let ghost w = cur@;
                done.push(cur);
                assert(done@.last().deep_view() =~= w);
                assert(done.deep_view() =~= d0.push(w));
                cur = Vec::new();
            }
        } else {
            cur.push(c);
        }
        i = i + 1;
    }
    assert(chars@.subrange(from as int, n as int) == chars@.skip(from as int));
    if cur.len() > 0 {
        let ghost d0 = done.deep_view();
        let ghost w = cur@;
        done.push(cur);
        assert(done@.last().deep_view() =~= w);
        assert(done.deep_view() =~= d0.push(w));
    }
    done
}

/// Whether `seg` holds exactly the characters of `target`.
fn same_chars(seg: &Vec<char>, target: &Vec<char>) -> (b: bool)
    ensures
        b == (seg@ == target@),
{
    if seg.len() != target.len() {
        return false;
    }
    let n = seg.len();
    for i in 0..n
        invariant
            n == seg.len(),
            n == target.len(),
            forall|k: int| 0 <= k < i ==> seg@[k] == target@[k],
    {
        if seg[i] != target[i] {
            return false;
        }
    }
    assert(seg@ =~= target@);
    true
}

/// The index of the last segment of `segs[start..]` that is not `.`.
fn last_named_index(segs: &Vec<Vec<char>>, start: usize) -> (r: Option<usize>)
    requires
        start <= segs.len(),
    ensures
        match r {
            Some(i) => start <= i < segs.len() && last_named(segs.deep_view().skip(start as int))
                == Some(segs@[i as int]@),
            None => last_named(segs.deep_view().skip(start as int)) is None,
        },
{
    let dot = vec!['.'];
    assert(dot@ == seq!['.']);
    let mut j = segs.len();
    assert(segs.deep_view().subrange(start as int, j as int) == segs.deep_view().skip(
        start as int,
    ));
    while j > start
        invariant
            start <= j <= segs.len(),
            dot@ == seq!['.'],
            last_named(segs.deep_view().skip(start as int)) == last_named(
                segs.deep_view().subrange(start as int, j as int),
            ),
        decreases j,
    {
        let sub = Ghost(segs.deep_view().subrange(start as int, j as int));
        assert(sub@.last() == segs@[j - 1]@) by {
            assert(segs@[j - 1].deep_view() =~= segs@[j - 1]@);
        }
        if same_chars(&segs[j - 1], &dot) {
            assert(sub@.drop_last() == segs.deep_view().subrange(start as int, j - 1));
            j = j - 1;
        } else {
            return Some(j - 1);
        }
    }
    None
}

fn lower_char(c: char) -> (l: char)
    ensures
        l == ascii_lower(c),
{
    if 'A' <= c && c <= 'Z' {
        let n: u32 = (c as u32) + 32;
        assert(97 <= n <= 122);
        let b: u8 = n as u8;
        b as char
    } else {
        c
    }
}

fn matches_lower(name: &Vec<char>, target: &Vec<char>) -> (b: bool)
    ensures
        b == (name@.map_values(|c: char| ascii_lower(c)) == target@),
{
    if name.len() != target.len() {
        assert(name@.map_values(|c: char| ascii_lower(c)).len() != target@.len());
        return false;
    }
    let n = name.len();
    for i in 0..n
        invariant
            n == name.len(),
            n == target.len(),
            forall|k: int| 0 <= k < i ==> ascii_lower(name@[k]) == target@[k],
    {
        if lower_char(name[i]) != target[i] {
            assert(name@.map_values(|c: char| ascii_lower(c))[i as int] != target@[i as int]);
            return false;
        }
    }
    assert(name@.map_values(|c: char| ascii_lower(c)) =~= target@);
    true
}

/// The segments of a path that is not verbatim, and the index where those
/// after its Windows prefix start.
fn component_segments_of(chars: &Vec<char>) -> (r: (Vec<Vec<char>>, usize))
    ensures
        r.1 <= r.0.len(),
        r.0.deep_view().skip(r.1 as int) == component_segments(chars@),
{
    let n = chars.len();
    if n >= 2 && is_sep_char(chars[0]) && is_sep_char(chars[1]) {
        let segs = split_segments_from(&chars, 0, false);
        assert(chars@.skip(0) == chars@);
        if segs.len() <= 2 {
            let len = segs.len();
            assert(segs.deep_view().skip(len as int) =~= Seq::<Seq<char>>::empty());
            (segs, len)
        } else {
            (segs, 2)
        }
    } else if n >= 2 && (('a' <= chars[0] && chars[0] <= 'z') || ('A' <= chars[0] && chars[0]
        <= 'Z')) && chars[1] == ':' {
        let segs = split_segments_from(&chars, 2, false);
        assert(segs.deep_view().skip(0) == segs.deep_view());
        (segs, 0)
    } else {
        let segs = split_segments_from(&chars, 0, false);
        assert(chars@.skip(0) == chars@);
        assert(segs.deep_view().skip(0) == segs.deep_view());
        (segs, 0)
    }
}

/// The file name of a path: the segments it was split into, and the index of
/// the one that is the file name.
fn file_name_of(chars: &Vec<char>) -> (r: Option<(Vec<Vec<char>>, usize)>)
    ensures
        match r {
            Some((segs, i)) => i < segs.len() && file_name(chars@) == Some(segs@[i as int]@),
            None => file_name(chars@) is None,
        },
{
    let n = chars.len();
    let dot = vec!['.'];
    let dotdot = vec!['.', '.'];
    assert(dot@ == seq!['.']);
    assert(dotdot@ == seq!['.', '.']);
    if n >= 4 && chars[0] == '\\' && chars[1] == '\\' && chars[2] == '?' && chars[3] == '\\' {
        let segs = split_segments_from(&chars, 4, true);
        let unc = vec!['U', 'N', 'C'];
        assert(unc@ == seq!['U', 'N', 'C']);
        proof {
            if segs.len() >= 1 {
                assert(segs@[0].deep_view() =~= segs@[0]@);
            }
        }
        let k: usize = if segs.len() >= 1 && same_chars(&segs[0], &unc) {
            3
        } else {
            1
        };
        if segs.len() <= k {
            return None;
        }
        let last = segs.len() - 1;
        assert(verbatim_components(chars@).last() == segs@[last as int]@) by {
            assert(segs@[last as int].deep_view() =~= segs@[last as int]@);
        }
        if same_chars(&segs[last], &dot) || same_chars(&segs[last], &dotdot) {
            None
        } else {
            Some((segs, last))
        }
    } else {
        let (segs, start) = component_segments_of(chars);
        match last_named_index(&segs, start) {
            None => None,
            Some(i) => {
                if same_chars(&segs[i], &dotdot) {
                    None
                } else {
                    Some((segs, i))
                }
            },
        }
    }
}

/// True if the executable looks like an SSH client: its file name is `ssh` or
/// `ssh.exe`, ignoring ASCII case.
pub fn is_ssh_process(exe: Option<&str>) -> (b: bool)
    ensures
        b == is_ssh_path(
            match exe {
                Some(p) => Some(p@),
                None => None,
            },
        ),
{
    match exe {
        None => false,
        Some(p) => {
            let chars = chars_of(p);
            match file_name_of(&chars) {
                None => false,
                Some((segs, i)) => {
                    let ssh = vec!['s', 's', 'h'];
                    let ssh_exe = vec!['s', 's', 'h', '.', 'e', 'x', 'e'];
                    assert(ssh@ == seq!['s', 's', 'h']);
                    assert(ssh_exe@ == seq!['s', 's', 'h', '.', 'e', 'x', 'e']);
                    matches_lower(&segs[i], &ssh) || matches_lower(&segs[i], &ssh_exe)
                },
            }
        },
    }
}

/// The command line shortened for a notification: the program (its first
/// argument) is dropped, and the last three of the other arguments (all of
/// them when there are fewer) are kept, joined by single spaces; `ssh` when no
/// other argument remains.
pub open spec fn tail_text(cmdline: Seq<char>) -> Seq<char> {
    let args = arguments(cmdline);
    if args.len() <= 1 {
        seq!['s', 's', 'h']
    } else if args.len() > 4 {
        joined(args.skip(args.len() - 3))
    } else {
        joined(args.skip(1))
    }
}

/// Law: the tail keeps the last `k` arguments of the command line, joined by
/// single spaces, where `k` is three or, when fewer follow the program, all of
/// those that follow it; the program itself is kept only as `ssh` when
/// nothing follows it.
pub proof fn law_tail_keeps_last_three(cmdline: Seq<char>)
    ensures
        ({
            let args = arguments(cmdline);
            let k: int = if args.len() - 1 < 3 {
                args.len() - 1
            } else {
                3
            };
            &&& args.len() > 1 ==> tail_text(cmdline) == joined(
                args.subrange(args.len() - k, args.len() as int),
            )
            &&& args.len() > 1 ==> 1 <= k <= 3 && args.len() - k >= 1
            &&& args.len() <= 1 ==> tail_text(cmdline) == seq!['s', 's', 'h']
        }),
{
    let args = arguments(cmdline);
    if args.len() > 4 {
        assert(args.skip(args.len() - 3) == args.subrange(args.len() - 3, args.len() as int));
    } else if args.len() > 1 {
        assert(args.skip(1) == args.subrange(1, args.len() as int));
    }
}

/// Law: the tail of a command line is never empty and neither starts nor
/// ends with white space; a blank command line gives `ssh`.
pub proof fn law_tail_is_trimmed(cmdline: Seq<char>)
    ensures
        tail_text(cmdline).len() > 0,
        !is_white_space(tail_text(cmdline)[0]),
        !is_white_space(tail_text(cmdline).last()),
        (forall|k: int| 0 <= k < cmdline.len() ==> is_white_space(#[trigger] cmdline[k]))
            ==> tail_text(cmdline) == seq!['s', 's', 'h'],
{
    let args = arguments(cmdline);
    lemma_arguments_trimmed(cmdline, 0);
    if forall|k: int| 0 <= k < cmdline.len() ==> is_white_space(#[trigger] cmdline[k]) {
        lemma_blank_has_no_arguments(cmdline, 0);
    }
    if args.len() > 1 {
        let kept = if args.len() > 4 {
            args.skip(args.len() - 3)
        } else {
            args.skip(1)
        };
        assert forall|k: int| 0 <= k < kept.len() implies #[trigger] kept[k].len() > 0 && !is_white_space(kept[k][0]) && !is_white_space(kept[k].last()) by {
            if args.len() > 4 {
                assert(kept[k] == args[k + args.len() - 3]);
            } else {
                assert(kept[k] == args[k + 1]);
            }
        }
        lemma_joined_ends(kept);
        assert(kept[0].len() > 0 && !is_white_space(kept[0][0]));
        assert(tail_text(cmdline) == joined(kept));
    } else {
        assert(tail_text(cmdline) == seq!['s', 's', 'h']);
        assert(seq!['s', 's', 'h'][0] == 's');
    }
}

/// Trim the leading program path from a command line for notification text:
/// keeps the last three arguments after it at most.
pub fn cmdline_tail(cmdline: &str) -> (tail: String)
    ensures
        tail@ == tail_text(cmdline@),
{
    let chars = chars_of(cmdline);
    let args = split_arguments(&chars);
    if args.len() <= 1 {
        let mut tail = String::new();
        push_char(&mut tail, 's');
        push_char(&mut tail, 's');
        push_char(&mut tail, 'h');
        tail
    } else {
        let start: usize = if args.len() > 4 {
            args.len() - 3
        } else {
            1
        };
        join_words_from(&args, start)
    }
}

/// A process of the process table, as the snapshot needs it: its pid, the
/// path of its executable when known, and its command-line arguments.
pub struct ProcessInfo {
    pub pid: u32,
    pub exe: Option<String>,
    pub cmd: Vec<String>,
}

/// The executable path of a process, by its characters.
pub open spec fn exe_view(p: ProcessInfo) -> Option<Seq<char>> {
    match p.exe {
        Some(e) => Some(e@),
        None => None,
    }
}

/// The `(pid, cmdline)` snapshot of the SSH clients among `procs`, in their
/// order, each command line being its arguments quoted as needed and joined by
/// single spaces, so that the arguments can be read back.
pub open spec fn ssh_snapshot_of(procs: Seq<ProcessInfo>) -> Seq<(u32, Seq<char>)>
    decreases procs.len(),
{
    if procs.len() == 0 {
        seq![]
    } else {
        let p = procs.last();
        let init = ssh_snapshot_of(procs.drop_last());
        if is_ssh_path(exe_view(p)) {
            init.push((p.pid, command_line(views_of(p.cmd@))))
        } else {
            init
        }
    }
}

/// Collect the current `(pid, cmdline)` snapshot of SSH processes.
pub fn ssh_snapshot(procs: &[ProcessInfo]) -> (snap: Vec<(u32, String)>)
    ensures
        snapshot_view(snap@) == ssh_snapshot_of(procs@),
{
    let mut snap: Vec<(u32, String)> = Vec::new();
    let n = procs.len();
    for i in 0..n
        invariant
            n == procs@.len(),
            snapshot_view(snap@) == ssh_snapshot_of(procs@.take(i as int)),
    {
        let p = &procs[i];
        assert(procs@.take(i + 1).drop_last() == procs@.take(i as int));
        let exe: Option<&str> = match &p.exe {
            Some(e) => Some(e.as_str()),
            None => None,
        };
        if is_ssh_process(exe) {
            let cmdline = command_line_of(p.cmd.as_slice());
            let ghost s0 = snap@;
            snap.push((p.pid, cmdline));
            assert(snapshot_view(snap@) =~= snapshot_view(s0).push((p.pid, cmdline@)));
        }
    }
    assert(procs@.take(n as int) == procs@);
    snap
}

/// What a session end is announced with: the title `SSH session ended`, and
/// the body `<command line tail> after <duration>`.
pub open spec fn session_end_message(e: EventView) -> NotificationView {
    NotificationView {
        title: "SSH session ended"@,
        body: tail_text(e.cmdline) + " after "@ + duration_text(e.duration_secs as nat),
    }
}

/// The notification that announces an ended session.
pub fn session_end_notification(event: &SshEvent) -> (n: Notification)
    ensures
        n@ == session_end_message(event@),
{
    let title = String::from_str("SSH session ended");
    let mut body = cmdline_tail(event.cmdline.as_str());
    body.append(" after ");
    body.append(format_duration(event.duration_secs).as_str());
    Notification { title, body }
}

/// The poll period the daemon sleeps between snapshots: the configured number
/// of seconds, at least one.
pub fn effective_poll_interval(poll_interval_secs: u64) -> (secs: u64)
    ensures
        secs == if poll_interval_secs >= 1 {
            poll_interval_secs
        } else {
            1
        },
{
    if poll_interval_secs >= 1 {
        poll_interval_secs
    } else {
        1
    }
}

impl SshTracker {
    /// A tracker with no sessions that reports sessions of at least
    /// `min_duration_secs` seconds.
    pub fn new(min_duration_secs: u64) -> (t: Self)
        ensures
            t@.sessions == Map::<u32, SessionView>::empty(),
            t@.min_duration_secs == min_duration_secs,
    {
        let t = SshTracker { sessions: HashMap::new(), min_duration_secs };
        assert(t@.sessions =~= Map::<u32, SessionView>::empty());
        t
    }

    /// The number of tracked sessions.
    pub fn tracked_count(&self) -> (n: usize)
        ensures
            n == self@.sessions.len(),
    {
        proof {
            assert(self@.sessions.dom() =~= self.sessions@.dom());
        }
        self.sessions.len()
    }

    /// Update state with a new snapshot of `(pid, cmdline)` pairs taken at
    /// `now` (nanoseconds on a monotonic clock). Returns end events for the
    /// sessions that vanished this cycle after living at least the threshold;
    /// shorter ones are dropped silently. Each pid of the snapshot without a
    /// session gets a fresh one, so a pid that returns after its session ended
    /// starts a new session.
    pub fn observe(&mut self, now: u64, running: &[(u32, String)]) -> (events: Vec<SshEvent>)
        ensures
            final(self)@.min_duration_secs == old(self)@.min_duration_secs,
            final(self)@.sessions == observed_sessions(
                old(self)@.sessions,
                now,
                snapshot_view(running@),
            ),
            reports_exactly(
                events@.map_values(|e: SshEvent| e@),
                old(self)@.sessions,
                now,
                snapshot_view(running@),
                old(self)@.min_duration_secs,
            ),
    {
        let ghost snap = snapshot_view(running@);
        let ghost before = old(self)@.sessions;
        let n = running.len();

        // The pids seen in this snapshot.
        let mut seen: HashSet<u32> = HashSet::new();
        for i in 0..n
            invariant
                n == running@.len(),
                snap == snapshot_view(running@),
                forall|p: u32|
                    seen@.contains(p) <==> exists|k: int| 0 <= k < i && #[trigger] snap[k].0 == p,
        {
            seen.insert(running[i].0);
            proof {
                assert forall|p: u32|
                    seen@.contains(p) <==> exists|k: int| 0 <= k < i + 1 && #[trigger] snap[k].0
                        == p by {
                    if p == running@[i as int].0 {
                        assert(snap[i as int].0 == p);
                    }
                }
            }
        }
        assert(seen@ =~= snapshot_pids(snap));

        // Register new sessions.
        for i in 0..n
            invariant
                n == running@.len(),
                snap == snapshot_view(running@),
                sessions_view(self.sessions@) == register(before, now, snap.take(i as int)),
                self.min_duration_secs == old(self).min_duration_secs,
        {
            let pid = running[i].0;
            assert(snap.take(i + 1).drop_last() == snap.take(i as int));
            if !self.sessions.contains_key(&pid) {
                let cmdline = running[i].1.clone();
                let ghost m0 = self.sessions@;
                self.sessions.insert(pid, Session { first_seen: now, cmdline });
                assert(sessions_view(self.sessions@) =~= sessions_view(m0).insert(
                    pid,
                    SessionView { first_seen: now, cmdline: snap[i as int].1 },
                ));
            }
        }
        assert(snap.take(n as int) == snap);
        let ghost registered = sessions_view(self.sessions@);
        proof {
            lemma_register(before, now, snap);
        }

        // Detect ended sessions.
        let pids = keys_of(&self.sessions);
        let mut events: Vec<SshEvent> = Vec::new();
        let min = self.min_duration_secs;
        let m = pids.len();
        for j in 0..m
            invariant
                m == pids@.len(),
                pids@.no_duplicates(),
                forall|p: u32| pids@.contains(p) <==> registered.contains_key(p),
                forall|p: u32| seen@.contains(p) <==> snapshot_pids(snap).contains(p),
                min == old(self)@.min_duration_secs,
                self.min_duration_secs == min,
                registered == register(before, now, snap),
                forall|p: u32|
                    #[trigger] registered.contains_key(p) <==> (before.contains_key(p)
                        || snapshot_pids(snap).contains(p)),
                forall|p: u32| before.contains_key(p) ==> #[trigger] registered[p] == before[p],
                sessions_view(self.sessions@) == registered.remove_keys(
                    Set::new(
                        |p: u32| pids@.take(j as int).contains(p) && !snapshot_pids(snap).contains(p),
                    ),
                ),
                forall|i: int|
                    0 <= i < events@.len() ==> is_reported(
                        before,
                        now,
                        snap,
                        min,
                        #[trigger] events@[i].pid,
                    ) && events@[i]@ == end_event(before, now, events@[i].pid) && pids@.take(
                        j as int,
                    ).contains(events@[i].pid),
                forall|a: int, b: int|
                    0 <= a < events@.len() && 0 <= b < events@.len() && a != b
                        ==> #[trigger] events@[a].pid != #[trigger] events@[b].pid,
                forall|k: int|
                    0 <= k < j && is_reported(before, now, snap, min, #[trigger] pids@[k])
                        ==> exists|i: int| 0 <= i < events@.len() && events@[i].pid == pids@[k],
        {
            let pid = pids[j];
            assert(pids@.take(j + 1) == pids@.take(j as int).push(pid));
            assert forall|p: u32|
                pids@.take(j + 1).contains(p) <==> (pids@.take(j as int).contains(p) || p
                    == pid) by {
                if pids@.take(j + 1).contains(p) {
                    let i = choose|i: int| 0 <= i < j + 1 && #[trigger] pids@.take(j + 1)[i] == p;
                    if i < j {
                        assert(pids@.take(j as int)[i] == p);
                    }
                }
                if pids@.take(j as int).contains(p) {
                    let i = choose|i: int| 0 <= i < j && #[trigger] pids@.take(j as int)[i] == p;
                    assert(pids@.take(j + 1)[i] == p);
                }
                if p == pid {
                    assert(pids@.take(j + 1)[j as int] == p);
                }
            }
            if !seen.contains(&pid) {
                assert(!snapshot_pids(snap).contains(pid));
                assert(!pids@.take(j as int).contains(pid));
                assert(registered.contains_key(pid)) by {
                    assert(pids@.contains(pid));
                }
                let ghost m0 = self.sessions@;
                // The session of `pid` is still the one it had before this call.
                assert(sessions_view(m0).contains_key(pid));
                assert(sessions_view(m0)[pid] == registered[pid]);
                assert(sessions_view(m0)[pid] == session_view(m0[pid]));
                let removed = self.sessions.remove(&pid);
                assert(self.sessions@ == m0.remove(pid));
                assert(sessions_view(self.sessions@) =~= sessions_view(m0).remove(pid));
                assert(sessions_view(self.sessions@) =~= registered.remove_keys(
                    Set::new(
                        |p: u32|
                            pids@.take(j + 1).contains(p) && !snapshot_pids(snap).contains(p),
                    ),
                ));
                match removed {
                    Some(session) => {
                        assert(session == m0[pid]);
                        let lived = if now >= session.first_seen {
                            (now - session.first_seen) / NANOS_PER_SEC
                        } else {
                            0
                        };
                        if lived >= min {
                            let ghost e0 = events@;
                            events.push(
                                SshEvent { pid, cmdline: session.cmdline, duration_secs: lived },
                            );
                            assert(events@ == e0.push(events@.last()));
                            assert(events@.last()@ == end_event(before, now, pid));
                            assert forall|k: int|
                                0 <= k < j + 1 && is_reported(
                                    before,
                                    now,
                                    snap,
                                    min,
                                    #[trigger] pids@[k],
                                ) implies exists|i: int|
                                0 <= i < events@.len() && events@[i].pid == pids@[k] by {
                                if k < j {
                                    let i = choose|i: int|
                                        0 <= i < e0.len() && e0[i].pid == pids@[k];
                                    assert(events@[i].pid == pids@[k]);
                                } else {
                                    assert(events@[e0.len() as int].pid == pids@[k]);
                                }
                            }
                        }
                    },
                    None => {
                        assert(false);
                    },
                }
            } else {
                assert(sessions_view(self.sessions@) =~= registered.remove_keys(
                    Set::new(
                        |p: u32|
                            pids@.take(j + 1).contains(p) && !snapshot_pids(snap).contains(p),
                    ),
                ));
            }
        }
        proof {
            assert(pids@.take(m as int) == pids@);
            assert(sessions_view(self.sessions@) =~= observed_sessions(before, now, snap));
            let evs = events@.map_values(|e: SshEvent| e@);
            assert forall|pid: u32| is_reported(before, now, snap, min, pid) implies exists|i: int|
                0 <= i < evs.len() && #[trigger] evs[i].pid == pid by {
                assert(pids@.contains(pid));
                let k = choose|k: int| 0 <= k < pids@.len() && pids@[k] == pid;
                let i = choose|i: int| 0 <= i < events@.len() && events@[i].pid == pids@[k];
                assert(evs[i].pid == pid);
            }
        }
        events
    }
}

} // verus!
