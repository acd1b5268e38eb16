//! Changing the data folder from the window: refuse what can be refused
//! while the server still runs, stop the server, copy and verify (or switch
//! to the database already there), record the choice, restart. The old
//! folder is never deleted, and whatever fails once the server has stopped
//! brings the server back on the old folder.
//!
//! The shell performs each order and reports what happened; the decisions
//! are made here.
use vstd::prelude::*;
use vstd::string::*;
use crate::lang::{pick, Lang};

verus! {

/// Where a change of the data folder stands.
#[derive(Debug, Clone, Copy, PartialEq, Eq, Structural)]
pub enum ChangePhase {
    /// Nothing has been done yet.
    Checking,
    /// The server was asked to stop.
    Stopping,
    /// The data is being copied, or the choice switched.
    Moving,
    /// The replacement process is being started.
    Restarting,
    /// Over, one way or the other.
    Finished,
}

/// What the shell reports.
#[derive(Debug, Clone, PartialEq, Eq)]
pub enum ChangeEvent {
    /// The checks made while the server runs: another change in progress,
    /// a quit in progress, and why the action itself is refused, if it is
    /// (the blockers of a copy, or a missing database to switch to).
    Checked { already_changing: bool, quitting: bool, refusal: Option<String> },
    /// There was no server to stop.
    NoServer,
    /// The server stopped.
    Stopped,
    /// A job is running, so the server did not stop; it keeps running.
    Busy { job_kind: String },
    /// Stopping the server failed.
    StopFailed { reason: String },
    /// The copy was verified and recorded, or the switch recorded.
    Moved,
    MoveFailed { reason: String },
    /// The replacement process started.
    Restarted,
    /// It did not, and the previous choice was written back.
    RestartFailed { reason: String },
}

/// What the shell is told to do next.
#[derive(Debug, Clone, PartialEq, Eq)]
pub enum ChangeOrder {
    StopServer,
    /// Copy and verify, or switch; then record the choice.
    Move,
    /// Start the replacement process, restoring the bootstrap if it fails.
    Restart,
    /// Quit this process: the replacement takes over.
    Exit,
    /// Report `reason`. With `recover`, first start the server again on the
    /// old folder.
    Fail { reason: String, recover: bool },
}

/// [`ChangeEvent`] with its texts as characters.
pub enum ChangeEventView {
    Checked(bool, bool, Option<Seq<char>>),
    NoServer,
    Stopped,
    Busy(Seq<char>),
    StopFailed(Seq<char>),
    Moved,
    MoveFailed(Seq<char>),
    Restarted,
    RestartFailed(Seq<char>),
}

impl View for ChangeEvent {
    type V = ChangeEventView;

    open spec fn view(&self) -> ChangeEventView {
        match self {
            ChangeEvent::Checked { already_changing, quitting, refusal } => ChangeEventView::Checked(
                *already_changing,
                *quitting,
                match refusal {
                    Some(r) => Some(r@),
                    None => None,
                },
            ),
            ChangeEvent::NoServer => ChangeEventView::NoServer,
            ChangeEvent::Stopped => ChangeEventView::Stopped,
            ChangeEvent::Busy { job_kind } => ChangeEventView::Busy(job_kind@),
            ChangeEvent::StopFailed { reason } => ChangeEventView::StopFailed(reason@),
            ChangeEvent::Moved => ChangeEventView::Moved,
            ChangeEvent::MoveFailed { reason } => ChangeEventView::MoveFailed(reason@),
            ChangeEvent::Restarted => ChangeEventView::Restarted,
            ChangeEvent::RestartFailed { reason } => ChangeEventView::RestartFailed(reason@),
        }
    }
}

/// [`ChangeOrder`] with its texts as characters.
pub enum ChangeOrderView {
    StopServer,
    Move,
    Restart,
    Exit,
    Fail(Seq<char>, bool),
}

impl View for ChangeOrder {
    type V = ChangeOrderView;

    open spec fn view(&self) -> ChangeOrderView {
        match self {
            ChangeOrder::StopServer => ChangeOrderView::StopServer,
            ChangeOrder::Move => ChangeOrderView::Move,
            ChangeOrder::Restart => ChangeOrderView::Restart,
            ChangeOrder::Exit => ChangeOrderView::Exit,
            ChangeOrder::Fail { reason, recover } => ChangeOrderView::Fail(reason@, *recover),
        }
    }
}

pub open spec fn busy_text(kind: Seq<char>, lang: Lang) -> Seq<char> {
    pick(lang, "идёт задача «"@, "a job is running ("@) + kind + pick(
        lang,
        "»: дождитесь её конца или остановите её, затем повторите"@,
        "): wait for it or stop it, then try again"@,
    )
}

/// A failure that ends the change.
pub open spec fn fail(reason: Seq<char>, recover: bool) -> (ChangePhase, ChangeOrderView) {
    (ChangePhase::Finished, ChangeOrderView::Fail(reason, recover))
}

/// The next phase and order, for the event the shell reported in `phase`.
/// An event that does not belong to the phase ends the change, recovering
/// the server when it may have been stopped.
pub open spec fn next(phase: ChangePhase, e: ChangeEventView, lang: Lang) -> (ChangePhase, ChangeOrderView) {
    match (phase, e) {
        (ChangePhase::Checking, ChangeEventView::Checked(changing, quitting, refusal)) => {
            if changing {
                fail(
                    pick(
                        lang,
                        "смена папки данных уже идёт"@,
                        "the data folder is already being changed"@,
                    ),
                    false,
                )
            } else if quitting {
                fail(pick(lang, "приложение готовится к выходу"@, "the application is preparing to quit"@), false)
            } else {
                match refusal {
                    Some(r) => fail(r, false),
                    None => (ChangePhase::Stopping, ChangeOrderView::StopServer),
                }
            }
        },
        (ChangePhase::Stopping, ChangeEventView::NoServer) => fail(
            "the server is not running"@,
            false,
        ),
        (ChangePhase::Stopping, ChangeEventView::Stopped) => (
            ChangePhase::Moving,
            ChangeOrderView::Move,
        ),
        (ChangePhase::Stopping, ChangeEventView::Busy(kind)) => fail(busy_text(kind, lang), false),
        (ChangePhase::Stopping, ChangeEventView::StopFailed(r)) => fail(r, true),
        (ChangePhase::Moving, ChangeEventView::Moved) => (
            ChangePhase::Restarting,
            ChangeOrderView::Restart,
        ),
        (ChangePhase::Moving, ChangeEventView::MoveFailed(r)) => fail(r, true),
        (ChangePhase::Restarting, ChangeEventView::Restarted) => (
            ChangePhase::Finished,
            ChangeOrderView::Exit,
        ),
        (ChangePhase::Restarting, ChangeEventView::RestartFailed(r)) => fail(r, true),
        (ChangePhase::Checking, _) => fail("unexpected report"@, false),
        (ChangePhase::Finished, _) => fail("the change is over"@, false),
        _ => fail("unexpected report"@, true),
    }
}

fn failed(reason: String, recover: bool) -> (r: (ChangePhase, ChangeOrder))
    ensures
        r.0 == ChangePhase::Finished,
        r.1@ == ChangeOrderView::Fail(reason@, recover),
{
    (ChangePhase::Finished, ChangeOrder::Fail { reason, recover })
}

/// Decide what comes after `event` in `phase`; what the user is told is in
/// `lang`, but for the reasons the shell reports, which are passed on.
pub fn change_step(phase: ChangePhase, event: ChangeEvent, lang: Lang) -> (r: (ChangePhase, ChangeOrder))
    ensures
        (r.0, r.1@) == next(phase, event@, lang),
{
    match (phase, event) {
        (ChangePhase::Checking, ChangeEvent::Checked { already_changing, quitting, refusal }) => {
            if already_changing {
                failed(
                    String::from_str(
                        lang.say("смена папки данных уже идёт", "the data folder is already being changed"),
                    ),
                    false,
                )
            } else if quitting {
                failed(
                    String::from_str(
                        lang.say("приложение готовится к выходу", "the application is preparing to quit"),
                    ),
                    false,
                )
            } else {
                match refusal {
                    Some(r) => failed(r, false),
                    None => (ChangePhase::Stopping, ChangeOrder::StopServer),
                }
            }
        },
        (ChangePhase::Stopping, ChangeEvent::NoServer) => failed(
            String::from_str("the server is not running"),
            false,
        ),
        (ChangePhase::Stopping, ChangeEvent::Stopped) => (ChangePhase::Moving, ChangeOrder::Move),
        (ChangePhase::Stopping, ChangeEvent::Busy { job_kind }) => {
            let mut m = String::from_str(lang.say("идёт задача «", "a job is running ("));
            m.append(job_kind.as_str());
            m.append(
                lang.say(
                    "»: дождитесь её конца или остановите её, затем повторите",
                    "): wait for it or stop it, then try again",
                ),
            );
            failed(m, false)
        },
        (ChangePhase::Stopping, ChangeEvent::StopFailed { reason }) => failed(reason, true),
        (ChangePhase::Moving, ChangeEvent::Moved) => (ChangePhase::Restarting, ChangeOrder::Restart),
        (ChangePhase::Moving, ChangeEvent::MoveFailed { reason }) => failed(reason, true),
        (ChangePhase::Restarting, ChangeEvent::Restarted) => (ChangePhase::Finished, ChangeOrder::Exit),
        (ChangePhase::Restarting, ChangeEvent::RestartFailed { reason }) => failed(reason, true),
        (ChangePhase::Checking, _) => failed(String::from_str("unexpected report"), false),
        (ChangePhase::Finished, _) => failed(String::from_str("the change is over"), false),
        _ => failed(String::from_str("unexpected report"), true),
    }
}

/// The reason a copy is refused: its blockers in words, one after another.
pub open spec fn joined(reasons: Seq<Seq<char>>, m: int) -> Seq<char>
    decreases m,
{
    if m <= 0 {
        Seq::empty()
    } else if m == 1 {
        reasons[0]
    } else {
        joined(reasons, m - 1) + "; "@ + reasons[m - 1]
    }
}

/// The refusal a copy's blockers amount to: none when there are none,
/// otherwise their texts joined by "; ".
pub fn copy_refusal(reasons: &[String]) -> (r: Option<String>)
    ensures
        reasons@.len() == 0 ==> r is None,
        reasons@.len() > 0 ==> r is Some && r.unwrap()@ == joined(
            reasons@.map_values(|s: String| s@),
            reasons@.len() as int,
        ),
{
    if reasons.len() == 0 {
        return None;
    }
    let ghost texts = reasons@.map_values(|s: String| s@);
    let mut m = reasons[0].clone();
    let mut i: usize = 1;
    while i < reasons.len()
        invariant
            1 <= i <= reasons@.len(),
            texts == reasons@.map_values(|s: String| s@),
            m@ == joined(texts, i as int),
        decreases reasons@.len() - i,
    {
        m.append("; ");
        m.append(reasons[i].as_str());
        i = i + 1;
    }
    Some(m)
}

/// Nothing is moved before the server has stopped, and every failure after
/// that, whatever it is, brings the server back on the old folder.
pub proof fn law_a_failed_change_leaves_the_old_folder_served(
    phase: ChangePhase,
    e: ChangeEventView,
    lang: Lang,
)
    ensures
        next(phase, e, lang).1 == ChangeOrderView::Move ==> phase == ChangePhase::Stopping && e
            == ChangeEventView::Stopped,
        (phase == ChangePhase::Moving || phase == ChangePhase::Restarting) ==> match next(
            phase,
            e,
            lang,
        ).1 {
            ChangeOrderView::Fail(_, recover) => recover,
            _ => true,
        },
        next(phase, e, lang).1 == ChangeOrderView::Exit ==> phase == ChangePhase::Restarting && e
            == ChangeEventView::Restarted,
{
}

} // verus!
