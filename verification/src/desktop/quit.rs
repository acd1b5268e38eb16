//! Quitting while a job runs. A single quit attempt can be promoted by a
//! terminal signal while its confirmation dialog is open; cancelling and
//! promoting go through this one state, so a late "no" from the dialog
//! cannot discard a signal that already arrived.
use vstd::prelude::*;

verus! {

/// The quit attempt in progress, if any.
#[derive(Debug, Clone, Copy, Default, PartialEq, Eq, Structural)]
pub struct QuitRequests {
    /// `Some(confirmed)` while an attempt is pending; `confirmed` once a
    /// request that needs no question (a terminal signal) has come.
    pub attempt: Option<bool>,
}

/// The attempt after a quit request.
pub open spec fn after_request(s: QuitRequests, confirmed: bool) -> QuitRequests {
    match s.attempt {
        Some(c) => QuitRequests { attempt: Some(c || confirmed) },
        None => QuitRequests { attempt: Some(confirmed) },
    }
}

/// A cancel is refused once a confirmed request has come.
pub open spec fn cancel_allowed(s: QuitRequests) -> bool {
    s.attempt != Some(true)
}

/// The attempt after a cancel.
pub open spec fn after_cancel(s: QuitRequests) -> QuitRequests {
    if cancel_allowed(s) {
        QuitRequests { attempt: None }
    } else {
        s
    }
}

impl QuitRequests {
    /// No attempt yet.
    pub fn new() -> (r: QuitRequests)
        ensures
            r.attempt is None,
    {
        QuitRequests { attempt: None }
    }

    /// A quit attempt is in progress.
    pub fn pending(&self) -> (r: bool)
        ensures
            r == self.attempt is Some,
    {
        self.attempt.is_some()
    }

    /// A confirmed request has come for the attempt in progress.
    pub fn confirmed(&self) -> (r: bool)
        ensures
            r == (self.attempt == Some(true)),
    {
        match self.attempt {
            Some(c) => c,
            None => false,
        }
    }

    /// A request to quit, `confirmed` when it needs no question. Starts an
    /// attempt, and answers true, only when none is in progress; otherwise a
    /// confirmed request promotes the attempt in progress.
    pub fn request(&mut self, confirmed: bool) -> (started: bool)
        ensures
            started == old(self).attempt is None,
            *final(self) == after_request(*old(self), confirmed),
    {
        match self.attempt {
            Some(c) => {
                self.attempt = Some(c || confirmed);
                false
            },
            None => {
                self.attempt = Some(confirmed);
                true
            },
        }
    }

    /// The dialog said to keep working: end the attempt. False means a
    /// confirmed request won the race with the dialog's answer, and the
    /// attempt goes on.
    pub fn cancel(&mut self) -> (cancelled: bool)
        ensures
            cancelled == cancel_allowed(*old(self)),
            *final(self) == after_cancel(*old(self)),
    {
        if self.attempt == Some(true) {
            return false;
        }
        self.attempt = None;
        true
    }
}

/// A signal is never lost: once a confirmed request has come, whatever the
/// state before it, a cancel is refused and the attempt stays pending and
/// confirmed.
pub proof fn law_a_signal_is_never_lost(s: QuitRequests)
    ensures
        !cancel_allowed(after_request(s, true)),
        after_cancel(after_request(s, true)) == after_request(s, true),
        after_request(s, true).attempt == Some(true),
{
}

/// There is one attempt at a time: a request while one is in progress
/// starts nothing, and after a cancel the next request starts afresh.
pub proof fn law_one_attempt_at_a_time(s: QuitRequests, c: bool, d: bool)
    ensures
        s.attempt is Some ==> after_request(s, c).attempt is Some,
        cancel_allowed(after_request(s, c)) ==> after_cancel(after_request(s, c)).attempt is None
            && after_request(after_cancel(after_request(s, c)), d).attempt == Some(d),
{
}

/// Where a quit attempt stands once it started.
#[derive(Debug, Clone, Copy, PartialEq, Eq, Structural)]
pub enum ExitPhase {
    /// The server was asked to stop if no job runs.
    ShuttingDown,
    /// A job runs; the user is asked, unless a signal answers first.
    Asking,
    /// The answer was to keep working; the attempt is being cancelled.
    Cancelling,
    /// The running job is being cancelled and the server stopped.
    Stopping,
    /// Over: the process exits, or keeps running.
    Finished,
}

/// What the shell reports.
#[derive(Debug, Clone, Copy, PartialEq, Eq, Structural)]
pub enum ExitEvent {
    /// The server stopped, or there was none.
    Idle,
    /// A job runs, so the server did not stop.
    Busy,
    /// Stopping the server failed otherwise.
    ShutdownFailed,
    /// The dialog, or a signal that came first, decided: `stop` to quit.
    Decided { stop: bool },
    /// Whether the cancel went through; false when a signal won the race.
    Cancelled { done: bool },
    /// The job was cancelled and the server stopped, or that failed.
    Stopped,
}

/// What the shell is told to do next.
#[derive(Debug, Clone, Copy, PartialEq, Eq, Structural)]
pub enum ExitOrder {
    /// Show the window and ask whether to stop the running job.
    Ask,
    /// Cancel the attempt ([`QuitRequests::cancel`]) and say whether it
    /// went through.
    Cancel,
    /// Show the window, say that work is stopping, cancel the job and stop
    /// the server.
    StopJob,
    /// Exit the process.
    Exit,
    /// Keep running; the attempt is over.
    Stay,
}

/// What comes after event `e` in `phase`.
pub open spec fn exit_next(phase: ExitPhase, e: ExitEvent) -> (ExitPhase, ExitOrder) {
    match (phase, e) {
        (ExitPhase::ShuttingDown, ExitEvent::Busy) => (ExitPhase::Asking, ExitOrder::Ask),
        (ExitPhase::ShuttingDown, _) => (ExitPhase::Finished, ExitOrder::Exit),
        (ExitPhase::Asking, ExitEvent::Decided { stop }) => if stop {
            (ExitPhase::Stopping, ExitOrder::StopJob)
        } else {
            (ExitPhase::Cancelling, ExitOrder::Cancel)
        },
        (ExitPhase::Cancelling, ExitEvent::Cancelled { done }) => if done {
            (ExitPhase::Finished, ExitOrder::Stay)
        } else {
            (ExitPhase::Stopping, ExitOrder::StopJob)
        },
        (ExitPhase::Stopping, ExitEvent::Stopped) => (ExitPhase::Finished, ExitOrder::Exit),
        _ => (phase, ExitOrder::Stay),
    }
}

/// The event the shell reports is the one the phase waits for.
pub open spec fn awaited(phase: ExitPhase, e: ExitEvent) -> bool {
    match phase {
        ExitPhase::ShuttingDown => e is Idle || e is Busy || e is ShutdownFailed,
        ExitPhase::Asking => e is Decided,
        ExitPhase::Cancelling => e is Cancelled,
        ExitPhase::Stopping => e is Stopped,
        ExitPhase::Finished => false,
    }
}

/// Decide what comes after `event` in `phase`. A quit attempt starts in
/// [`ExitPhase::ShuttingDown`], with the server asked to stop if it is idle.
pub fn exit_step(phase: ExitPhase, event: ExitEvent) -> (r: (ExitPhase, ExitOrder))
    requires
        awaited(phase, event),
    ensures
        r == exit_next(phase, event),
{
    match (phase, event) {
        (ExitPhase::ShuttingDown, ExitEvent::Busy) => (ExitPhase::Asking, ExitOrder::Ask),
        (ExitPhase::ShuttingDown, _) => (ExitPhase::Finished, ExitOrder::Exit),
        (ExitPhase::Asking, ExitEvent::Decided { stop }) => {
            if stop {
                (ExitPhase::Stopping, ExitOrder::StopJob)
            } else {
                (ExitPhase::Cancelling, ExitOrder::Cancel)
            }
        },
        (ExitPhase::Cancelling, ExitEvent::Cancelled { done }) => {
            if done {
                (ExitPhase::Finished, ExitOrder::Stay)
            } else {
                (ExitPhase::Stopping, ExitOrder::StopJob)
            }
        },
        (ExitPhase::Stopping, ExitEvent::Stopped) => (ExitPhase::Finished, ExitOrder::Exit),
        _ => (phase, ExitOrder::Stay),
    }
}

/// A running job is never abandoned by a quit: the process exits only when
/// the server was idle (or could not be asked), or after the job was
/// cancelled; the job is cancelled only when the answer, or a signal that
/// won over a "keep working", said to stop; and the process stays only
/// after a cancel went through.
pub proof fn law_a_running_job_is_stopped_before_exit(phase: ExitPhase, e: ExitEvent)
    requires
        awaited(phase, e),
    ensures
        exit_next(phase, e).1 == ExitOrder::Exit ==> (phase == ExitPhase::ShuttingDown && e
            != ExitEvent::Busy) || phase == ExitPhase::Stopping,
        exit_next(phase, e).1 == ExitOrder::StopJob ==> e == (ExitEvent::Decided { stop: true })
            || e == (ExitEvent::Cancelled { done: false }),
        exit_next(phase, e).1 == ExitOrder::Stay ==> e == (ExitEvent::Cancelled { done: true }),
{
}

} // verus!
