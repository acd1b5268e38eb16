use photo_cleanup::lang::Lang;
use photo_cleanup::desktop::change::{
    change_step, copy_refusal, ChangeEvent, ChangeOrder, ChangePhase,
};

fn checked(refusal: Option<&str>) -> ChangeEvent {
    ChangeEvent::Checked {
        already_changing: false,
        quitting: false,
        refusal: refusal.map(String::from),
    }
}

#[test]
fn a_change_runs_stop_move_restart_exit() {
    let (p, o) = change_step(ChangePhase::Checking, checked(None), Lang::En);
    assert_eq!((p, o), (ChangePhase::Stopping, ChangeOrder::StopServer));
    let (p, o) = change_step(p, ChangeEvent::Stopped, Lang::En);
    assert_eq!((p, o), (ChangePhase::Moving, ChangeOrder::Move));
    let (p, o) = change_step(p, ChangeEvent::Moved, Lang::En);
    assert_eq!((p, o), (ChangePhase::Restarting, ChangeOrder::Restart));
    let (p, o) = change_step(p, ChangeEvent::Restarted, Lang::En);
    assert_eq!((p, o), (ChangePhase::Finished, ChangeOrder::Exit));
}

#[test]
fn refusals_come_while_the_server_still_runs() {
    let busy = ChangeEvent::Checked {
        already_changing: true,
        quitting: true,
        refusal: None,
    };
    assert_eq!(
        change_step(ChangePhase::Checking, busy, Lang::En).1,
        ChangeOrder::Fail {
            reason: "the data folder is already being changed".into(),
            recover: false
        }
    );
    let quitting = ChangeEvent::Checked {
        already_changing: false,
        quitting: true,
        refusal: Some("x".into()),
    };
    assert_eq!(
        change_step(ChangePhase::Checking, quitting, Lang::En).1,
        ChangeOrder::Fail {
            reason: "the application is preparing to quit".into(),
            recover: false
        }
    );
    assert_eq!(
        change_step(ChangePhase::Checking, checked(Some("it is not a folder")), Lang::En).1,
        ChangeOrder::Fail {
            reason: "it is not a folder".into(),
            recover: false
        }
    );
}

#[test]
fn a_busy_server_keeps_running_and_a_failure_after_stopping_recovers() {
    assert_eq!(
        change_step(ChangePhase::Stopping, ChangeEvent::Busy { job_kind: "scan".into() }, Lang::En).1,
        ChangeOrder::Fail {
            reason: "a job is running (scan): wait for it or stop it, then try again".into(),
            recover: false
        }
    );
    assert_eq!(
        change_step(ChangePhase::Stopping, ChangeEvent::NoServer, Lang::En).1,
        ChangeOrder::Fail {
            reason: "the server is not running".into(),
            recover: false
        }
    );
    for (phase, event) in [
        (ChangePhase::Stopping, ChangeEvent::StopFailed { reason: "e1".into() }),
        (ChangePhase::Moving, ChangeEvent::MoveFailed { reason: "e2".into() }),
        (ChangePhase::Restarting, ChangeEvent::RestartFailed { reason: "e3".into() }),
    ] {
        match change_step(phase, event, Lang::En).1 {
            ChangeOrder::Fail { recover, .. } => assert!(recover),
            other => panic!("{other:?}"),
        }
    }
}

#[test]
fn a_copy_is_refused_with_every_blocker_named() {
    assert_eq!(copy_refusal(&[]), None);
    assert_eq!(
        copy_refusal(&["a full path is needed".into(), "it is not a folder".into()]),
        Some("a full path is needed; it is not a folder".into())
    );
}

#[test]
fn a_busy_server_is_reported_in_the_interface_language() {
    let (p, o) = change_step(
        ChangePhase::Stopping,
        ChangeEvent::Busy { job_kind: "organize".into() },
        Lang::Ru,
    );
    assert_eq!(p, ChangePhase::Finished);
    assert_eq!(
        o,
        ChangeOrder::Fail {
            reason: "идёт задача «organize»: дождитесь её конца или остановите её, затем повторите".into(),
            recover: false
        }
    );
}
