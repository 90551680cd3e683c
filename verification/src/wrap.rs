//! Wrap mode: what to announce, and which exit code to pass on, once a
//! wrapped command has finished.

use vstd::prelude::*;
use vstd::string::{StrSliceExecFns, StringExecFns};

use crate::notify::{Notification, NotificationView};
use crate::text::{join_strings, joined, push_char, push_signed_decimal, signed_decimal, views_of};
use crate::util::{duration_text, format_duration};

verus! {

/// The command line for a notification body: the arguments joined by single
/// spaces; when that is longer than 80 characters, its first 77 followed by `...`.
pub open spec fn summary_text(command: Seq<String>) -> Seq<char> {
    let line = joined(views_of(command));
    if line.len() <= 80 {
        line
    } else {
        line.take(77) + seq!['.', '.', '.']
    }
}

/// Short human summary of the command line for notification bodies.
pub fn summarize_command(command: &[String]) -> (summary: String)
    ensures
        summary@ == summary_text(command@),
{
    let line = join_strings(command);
    if line.as_str().unicode_len() <= 80 {
        line
    } else {
        let mut cut = String::from_str(line.as_str().substring_char(0, 77));
        push_char(&mut cut, '.');
        push_char(&mut cut, '.');
        push_char(&mut cut, '.');
        cut
    }
}

/// Law: a summary never exceeds 80 characters; a command line that fits is
/// kept as it is, and one that does not is cut and ends with `...`.
pub proof fn law_summary_fits(command: Seq<String>)
    ensures
        summary_text(command).len() <= 80,
        joined(views_of(command)).len() <= 80 ==> summary_text(command) == joined(
            views_of(command),
        ),
        joined(views_of(command)).len() > 80 ==> {
            &&& summary_text(command).len() == 80
            &&& summary_text(command).subrange(77, 80) == seq!['.', '.', '.']
            &&& summary_text(command).take(77) == joined(views_of(command)).take(77)
        },
{
    let line = joined(views_of(command));
    if line.len() > 80 {
        assert(summary_text(command).subrange(77, 80) =~= seq!['.', '.', '.']);
        assert(summary_text(command).take(77) =~= line.take(77));
    }
}

/// Why a command cannot be wrapped.
#[derive(Debug, Clone, Copy, PartialEq, Eq)]
pub enum WrapError {
    /// No program was given.
    NoCommand,
}

/// What follows the end of a wrapped command: the exit code to pass on, and
/// the notification to show, if any.
pub struct WrapReport {
    pub exit_code: i32,
    pub notification: Option<Notification>,
}

/// How the command ended: `exit <code>`, or `terminated by signal` when it
/// has no exit code.
pub open spec fn status_text(code: Option<i32>) -> Seq<char> {
    match code {
        Some(c) => "exit "@ + signed_decimal(c as int),
        None => "terminated by signal"@,
    }
}

/// The title for `program` ending with `code`: `✓ <program> finished` on exit
/// code 0, `✗ <program> failed (<status>)` otherwise.
pub open spec fn wrap_title(program: Seq<char>, code: Option<i32>) -> Seq<char> {
    if code == Some(0i32) {
        "\u{2713} "@ + program + " finished"@
    } else {
        "\u{2717} "@ + program + " failed ("@ + status_text(code) + ")"@
    }
}

/// Whether a command that ran `elapsed_secs` seconds is announced: always,
/// unless a minimum is given and it finished faster.
pub open spec fn is_announced(elapsed_secs: u64, min_duration_secs: Option<u64>) -> bool {
    match min_duration_secs {
        Some(min) => elapsed_secs >= min,
        None => true,
    }
}

/// The exit code passed on: the command's own, or 1 when it has none.
pub open spec fn passed_exit_code(code: Option<i32>) -> i32 {
    match code {
        Some(c) => c,
        None => 1,
    }
}

/// Law: a run is announced unless a minimum is given and the run was shorter:
/// without a minimum every run is, with one exactly those lasting at least it,
/// so lasting longer never loses the announcement.
pub proof fn law_announced_when_long_enough(elapsed_secs: u64, min_duration_secs: Option<u64>, longer: u64)
    ensures
        min_duration_secs is None ==> is_announced(elapsed_secs, min_duration_secs),
        min_duration_secs matches Some(m) ==> (is_announced(elapsed_secs, min_duration_secs)
            <==> elapsed_secs >= m),
        longer >= elapsed_secs && is_announced(elapsed_secs, min_duration_secs) ==> is_announced(
            longer,
            min_duration_secs,
        ),
{
}

/// Law: the exit code passed on is the command's own, whatever it is, and 1
/// only when the command has none (a signal ended it).
pub proof fn law_exit_code_passed_on(code: Option<i32>)
    ensures
        code matches Some(c) ==> passed_exit_code(code) == c,
        code is None ==> passed_exit_code(code) == 1,
{
}

/// Decides the end of a wrapped run: `command` is the command line (program
/// first), `code` its exit code (none when a signal ended it), `elapsed_secs`
/// the whole seconds it ran.
pub fn wrap_report(
    command: &[String],
    code: Option<i32>,
    elapsed_secs: u64,
    min_duration_secs: Option<u64>,
) -> (r: Result<WrapReport, WrapError>)
    ensures
        r is Err <==> command@.len() == 0,
        r matches Err(e) ==> e == WrapError::NoCommand,
        r matches Ok(report) ==> {
            &&& report.exit_code == passed_exit_code(code)
            &&& code matches Some(c) ==> report.exit_code == c
            &&& code is None ==> report.exit_code == 1
            &&& report.notification is Some <==> is_announced(elapsed_secs, min_duration_secs)
            &&& report.notification matches Some(n) ==> n@ == (NotificationView {
                title: wrap_title(command@[0]@, code),
                body: summary_text(command@) + " after "@ + duration_text(elapsed_secs as nat),
            })
        },
{
    if command.len() == 0 {
        return Err(WrapError::NoCommand);
    }
    let program = &command[0];
    let exit_code = match code {
        Some(c) => c,
        None => 1,
    };
    if let Some(min) = min_duration_secs {
        if elapsed_secs < min {
            return Ok(WrapReport { exit_code, notification: None });
        }
    }
    let succeeded = match code {
        Some(c) => c == 0,
        None => false,
    };
    let mut title = String::new();
    if succeeded {
        title.append("\u{2713} ");
        title.append(program.as_str());
        title.append(" finished");
    } else {
        title.append("\u{2717} ");
        title.append(program.as_str());
        title.append(" failed (");
        match code {
            Some(c) => {
                let ghost t0 = title@;
                title.append("exit ");
                push_signed_decimal(&mut title, c);
                assert(title@ == t0 + ("exit "@ + signed_decimal(c as int)));
            },
            None => {
                title.append("terminated by signal");
            },
        }
        title.append(")");
        assert(title@ == "\u{2717} "@ + program@ + " failed ("@ + status_text(code) + ")"@);
    }
    assert(title@ == wrap_title(program@, code));
    let mut body = summarize_command(command);
    body.append(" after ");
    body.append(format_duration(elapsed_secs).as_str());
    Ok(WrapReport { exit_code, notification: Some(Notification { title, body }) })
}

} // verus!
