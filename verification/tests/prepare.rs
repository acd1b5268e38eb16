use photo_cleanup::desktop::bootstrap::{Bootstrap, Choice};
use photo_cleanup::desktop::error::{StartupError, Unavailable};
use photo_cleanup::desktop::layout::SystemDirs;
use photo_cleanup::desktop::prepare::{prepare_step, PrepareEvent, PrepareOrder, PreparePhase};
use photo_cleanup::desktop::resolve::{choose_data_dir, resolve, Creation, DirState, NewDir, Resolved};

fn dirs() -> SystemDirs {
    SystemDirs::new("/home/u/.local/share/app".into(), Some("/opt/pc".into()), false)
}

fn first_launch() -> Resolved {
    resolve(&dirs(), None, false, Ok(None), DirState::Missing, false).unwrap()
}

#[test]
fn a_first_launch_creates_then_records_then_starts() {
    let r = first_launch();
    let (p, o) = prepare_step(
        PreparePhase::Looking,
        &r,
        PrepareEvent::Looked { exists: false, state: DirState::Missing },
    );
    assert_eq!(p, PreparePhase::CreatingDir);
    assert!(matches!(o, PrepareOrder::CreateDir));
    let (p, o) = prepare_step(p, &r, PrepareEvent::DirCreated(Ok(())));
    assert_eq!(p, PreparePhase::Probing { exists: false });
    assert!(matches!(o, PrepareOrder::Probe));
    let (p, o) = prepare_step(p, &r, PrepareEvent::Probed(Ok(())));
    assert_eq!(p, PreparePhase::Creating);
    assert!(matches!(o, PrepareOrder::CreateDatabase));
    let (p, o) = prepare_step(p, &r, PrepareEvent::Created(Ok(())));
    assert_eq!(p, PreparePhase::Recording { created: true });
    match o {
        PrepareOrder::Record(b) => {
            assert_eq!(b.current, Choice::system());
            assert_eq!(b.previous, None);
        }
        other => panic!("{other:?}"),
    }
    let (p, o) = prepare_step(p, &r, PrepareEvent::Recorded(Ok(())));
    assert_eq!(p, PreparePhase::Finished);
    match o {
        PrepareOrder::Done(done) => {
            assert!(done.created);
            assert_eq!(done.layout.dir, "/home/u/.local/share/app/data");
            assert_eq!(done.layout.db, "/home/u/.local/share/app/data/photo-cleanup.db");
        }
        other => panic!("{other:?}"),
    }
}

#[test]
fn a_failed_create_records_nothing() {
    let r = first_launch();
    let (p, o) = prepare_step(PreparePhase::Creating, &r, PrepareEvent::Created(Err("disk full".into())));
    assert_eq!(p, PreparePhase::Finished);
    match o {
        PrepareOrder::Fail(StartupError::CreateFailed { dir, reason }) => {
            assert_eq!(dir, "/home/u/.local/share/app/data");
            assert_eq!(reason, "disk full");
        }
        other => panic!("{other:?}"),
    }
}

#[test]
fn an_existing_database_is_opened_after_the_probe() {
    let r = first_launch();
    let (p, o) = prepare_step(
        PreparePhase::Looking,
        &r,
        PrepareEvent::Looked { exists: true, state: DirState::Ready },
    );
    assert_eq!(p, PreparePhase::Probing { exists: true });
    assert!(matches!(o, PrepareOrder::Probe));
    let (p, o) = prepare_step(p, &r, PrepareEvent::Probed(Ok(())));
    assert_eq!(p, PreparePhase::Opening);
    assert!(matches!(o, PrepareOrder::OpenExisting));
    let (p, o) = prepare_step(p, &r, PrepareEvent::Opened(Ok(())));
    assert_eq!(p, PreparePhase::Recording { created: false });
    assert!(matches!(o, PrepareOrder::Record(_)));
}

#[test]
fn a_folder_that_cannot_be_written_is_unavailable() {
    let r = first_launch();
    let (p, o) = prepare_step(
        PreparePhase::Probing { exists: true },
        &r,
        PrepareEvent::Probed(Err("read-only file system".into())),
    );
    assert_eq!(p, PreparePhase::Finished);
    match o {
        PrepareOrder::Fail(StartupError::DataUnavailable { dir, why, previous, .. }) => {
            assert_eq!(dir, "/home/u/.local/share/app/data");
            assert_eq!(why, Unavailable::NotWritable("read-only file system".into()));
            assert_eq!(previous, None);
        }
        other => panic!("{other:?}"),
    }
}

#[test]
fn a_new_archive_found_occupied_at_open_time_is_refused() {
    let r = choose_data_dir(&dirs(), "/data/new", NewDir::CreateNew, false, Ok(None), DirState::Missing, false)
        .unwrap();
    assert_eq!(r.creation, Creation::MustBeNew);
    let (p, o) = prepare_step(
        PreparePhase::Looking,
        &r,
        PrepareEvent::Looked { exists: true, state: DirState::Ready },
    );
    assert_eq!(p, PreparePhase::Finished);
    match o {
        PrepareOrder::Fail(StartupError::DatabaseExists { dir }) => assert_eq!(dir, "/data/new"),
        other => panic!("{other:?}"),
    }
}

#[test]
fn an_archive_that_vanished_is_reported_not_recreated() {
    let boot = Bootstrap::new(Choice::custom("/Volumes/Archive/pc".into()), Some(Choice::system()));
    let r = resolve(&dirs(), None, false, Ok(Some(boot)), DirState::Ready, false).unwrap();
    assert_eq!(r.creation, Creation::MustExist);
    let (p, o) = prepare_step(
        PreparePhase::Looking,
        &r,
        PrepareEvent::Looked { exists: false, state: DirState::Missing },
    );
    assert_eq!(p, PreparePhase::Finished);
    match o {
        PrepareOrder::Fail(StartupError::DataUnavailable { dir, why, previous, .. }) => {
            assert_eq!(dir, "/Volumes/Archive/pc");
            assert_eq!(why, Unavailable::Missing);
            assert_eq!(previous, Some(Choice::system()));
        }
        other => panic!("{other:?}"),
    }
}

#[test]
fn a_command_line_folder_leaves_nothing_in_the_profile() {
    let r = resolve(&dirs(), Some("/tmp/pc"), false, Ok(None), DirState::Missing, false).unwrap();
    let (p, o) = prepare_step(PreparePhase::Opening, &r, PrepareEvent::Opened(Ok(())));
    assert_eq!(p, PreparePhase::Finished);
    match o {
        PrepareOrder::Done(done) => {
            assert!(!done.created);
            assert_eq!(done.layout.dir, "/tmp/pc");
        }
        other => panic!("{other:?}"),
    }
}
