use photo_cleanup::desktop::quit::{exit_step, ExitEvent, ExitOrder, ExitPhase, QuitRequests};

#[test]
fn a_signal_promotes_an_open_attempt_without_starting_a_second() {
    let mut requests = QuitRequests::new();
    assert!(requests.request(false));
    assert!(!requests.confirmed());
    assert!(!requests.request(true));
    assert!(!requests.request(true));
    assert!(requests.confirmed());
    assert!(!requests.cancel());
    assert!(requests.pending());
}

#[test]
fn a_cancel_lets_a_later_signal_start_a_new_attempt() {
    let mut requests = QuitRequests::new();
    assert!(requests.request(false));
    assert!(requests.cancel());
    assert!(!requests.pending());
    assert!(requests.request(true));
    assert!(requests.confirmed());
}

#[test]
fn a_signal_between_the_answer_and_the_cancel_is_not_lost() {
    let mut requests = QuitRequests::new();
    assert!(requests.request(false));
    // The dialog has said "keep working"; a signal arrives before the cancel.
    assert!(!requests.request(true));
    assert!(!requests.cancel());
    assert!(requests.pending());
}

#[test]
fn an_idle_server_lets_the_app_exit_at_once() {
    assert_eq!(exit_step(ExitPhase::ShuttingDown, ExitEvent::Idle), (ExitPhase::Finished, ExitOrder::Exit));
    assert_eq!(
        exit_step(ExitPhase::ShuttingDown, ExitEvent::ShutdownFailed),
        (ExitPhase::Finished, ExitOrder::Exit)
    );
}

#[test]
fn a_busy_server_asks_and_keeping_work_cancels_the_attempt() {
    let (p, o) = exit_step(ExitPhase::ShuttingDown, ExitEvent::Busy);
    assert_eq!((p, o), (ExitPhase::Asking, ExitOrder::Ask));
    let (p, o) = exit_step(p, ExitEvent::Decided { stop: false });
    assert_eq!((p, o), (ExitPhase::Cancelling, ExitOrder::Cancel));
    let mut requests = QuitRequests::new();
    assert!(requests.request(false));
    let done = requests.cancel();
    assert_eq!(exit_step(p, ExitEvent::Cancelled { done }), (ExitPhase::Finished, ExitOrder::Stay));
    assert!(!requests.pending());
}

#[test]
fn a_signal_during_the_cancel_stops_the_job_and_exits() {
    let mut requests = QuitRequests::new();
    assert!(requests.request(false));
    assert!(!requests.request(true));
    let done = requests.cancel();
    assert!(!done);
    let (p, o) = exit_step(ExitPhase::Cancelling, ExitEvent::Cancelled { done });
    assert_eq!((p, o), (ExitPhase::Stopping, ExitOrder::StopJob));
    assert_eq!(exit_step(p, ExitEvent::Stopped), (ExitPhase::Finished, ExitOrder::Exit));
}

#[test]
fn stopping_work_is_answered_by_cancelling_the_job() {
    assert_eq!(
        exit_step(ExitPhase::Asking, ExitEvent::Decided { stop: true }),
        (ExitPhase::Stopping, ExitOrder::StopJob)
    );
}
