//! `/clear`: the session ends and a fresh one begins.

use vstd::prelude::*;

use crate::commands;
use crate::commands::SlashResult;
use crate::protocol;
use crate::text;

verus! {

pub const SUMMARY: &'static str = "start a new session with an empty conversation";

/// Asks the front-end for a fresh session.
pub fn run() -> (r: SlashResult)
    ensures
        r@ == (commands::SlashView { new_session: true, ..commands::shows(Seq::empty()) }),
{
    SlashResult::new_session()
}

/// The id of the session that a cleared one is followed by: without a sessions
/// directory nothing is saved, so it has none.
pub fn fresh_session_id(sessions_dir: &str, new_id: String) -> (r: String)
    ensures
        r@ == if sessions_dir@.len() == 0 {
            Seq::empty()
        } else {
            new_id@
        },
{
    if text::char_count(sessions_dir) == 0 {
        let none = String::new();
        proof {
            assert(none@ =~= Seq::<char>::empty());
        }
        none
    } else {
        new_id
    }
}

/// What the user hears when a session is retired, one line each.
pub open spec fn retirement(running: nat, missed: nat, note: Option<Seq<char>>) -> Seq<Seq<char>> {
    (if running > 0 {
        seq!["stopped "@ + text::decimal(running) + " background task(s)"@]
    } else {
        seq![]
    }) + (if missed > 0 {
        seq![text::decimal(missed) + " background task(s) missed the shutdown deadline"@]
    } else {
        seq![]
    }) + (match note {
        Some(n) => seq![n],
        None => seq![],
    })
}

/// The report of a retired session: the background work that was stopped, what
/// of it missed the deadline, and what became of the worktree.
pub fn retirement_report(running: u64, missed: u64, note: Option<String>) -> (r: Vec<String>)
    ensures
        text::texts(r@) == retirement(
            running as nat,
            missed as nat,
            protocol::opt(note),
        ),
{
    let mut report: Vec<String> = Vec::new();
    if running > 0 {
        let mut line = "stopped ".to_owned();
        line.append(text::decimal_text(running).as_str());
        line.append(" background task(s)");
        text::push_text(&mut report, line);
    }
    if missed > 0 {
        let mut line = text::decimal_text(missed);
        line.append(" background task(s) missed the shutdown deadline");
        text::push_text(&mut report, line);
    }
    let ghost said = protocol::opt(note);
    if let Some(n) = note {
        text::push_text(&mut report, n);
    }
    proof {
        assert(text::texts(report@) =~= retirement(running as nat, missed as nat, said));
    }
    report
}

// ---------------------------------------------------------------------------
// Laws
// ---------------------------------------------------------------------------

/// What is said of retired tasks: how many were stopped, how many did not stop in time,
/// and the note, in this order, each only where there is something to say.
pub proof fn law_what_is_said_of_retired_tasks(running: nat, missed: nat, note: Option<Seq<char>>)
    ensures
        ({
            let lines = retirement(running, missed, note);
            let a: int = if running > 0 {
                1
            } else {
                0
            };
            let b: int = if missed > 0 {
                1
            } else {
                0
            };
            let c: int = if note is Some {
                1
            } else {
                0
            };
            &&& lines.len() == a + b + c
            &&& a == 1 ==> lines[0] == "stopped "@ + text::decimal(running)
                + " background task(s)"@
            &&& b == 1 ==> lines[a] == text::decimal(missed)
                + " background task(s) missed the shutdown deadline"@
            &&& c == 1 ==> lines[a + b] == note->0
        }),
{
}

} // verus!
