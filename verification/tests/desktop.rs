use photo_cleanup::desktop::bootstrap::{accept_read, accept_write, Bootstrap, Choice, StoredMode};
use photo_cleanup::desktop::error::{StartupError, Unavailable};
use photo_cleanup::desktop::geometry::{restore, Geometry, Restore};
use photo_cleanup::desktop::layout::{DataLayout, SystemDirs};
use photo_cleanup::desktop::native::{desktop_info, permission, ERROR_PAGE_COMMANDS, INTERFACE_COMMANDS};
use photo_cleanup::desktop::relocate::{
    commit_bootstrap, legacy_partials, move_blockers, reject_legacy_sidecars, RelocateError, restart_or_restore, rollback_bootstrap, Blocker, DataSize, TargetFacts,
    SPACE_MARGIN,
};
use photo_cleanup::desktop::resolve::{
    choose_data_dir, confirm_started, resolve, revert_to_previous, Creation, DirState, NewDir,
    Prepared, Source,
};
use photo_cleanup::desktop::window::{is_bundled_page, parse_args, server_page_address, SERVER_BIND};
use photo_cleanup::lang::Lang;

fn dirs() -> SystemDirs {
    SystemDirs::new("/home/u/.local/share/app".into(), Some("/opt/pc".into()), false)
}

#[test]
fn permissions_are_named_as_tauri_generates_them() {
    assert_eq!(permission("desktop_info"), "allow-desktop-info");
    assert_eq!(
        permission("preview_data_dir_change"),
        "allow-preview-data-dir-change"
    );
}

#[test]
fn the_error_page_gets_none_of_the_interface_commands() {
    for c in &ERROR_PAGE_COMMANDS {
        assert!(!INTERFACE_COMMANDS.contains(c), "{c}");
    }
}

#[test]
fn the_desktop_server_binds_loopback_on_a_system_port() {
    assert!(SERVER_BIND.ip().is_loopback());
    assert_eq!(SERVER_BIND.port(), 0);
}

#[test]
fn bundled_pages_are_the_tauri_origin_on_each_os() {
    assert!(is_bundled_page("tauri", Some("localhost")));
    assert!(is_bundled_page("http", Some("tauri.localhost")));
    assert!(is_bundled_page("https", Some("tauri.localhost")));
    assert!(!is_bundled_page("http", Some("localhost")));
    assert!(!is_bundled_page(
        "https",
        Some("tauri.localhost.evil.example")
    ));
}

#[test]
fn relative_paths_are_refused() {
    let d = dirs();
    let rel = "data here";
    assert!(matches!(
        choose_data_dir(&d, rel, NewDir::CreateNew, false, Ok(None), DirState::Missing, false),
        Err(StartupError::RelativePath { .. })
    ));
    assert!(matches!(
        resolve(&d, Some(rel), false, Ok(None), DirState::Missing, false),
        Err(StartupError::RelativePath { .. })
    ));
}

#[test]
fn a_first_launch_uses_the_system_folder_and_offers_a_legacy_database() {
    let d = dirs();
    let r = resolve(&d, None, false, Ok(None), DirState::Missing, true).unwrap();
    assert_eq!(r.source, Source::System);
    assert_eq!(r.creation, Creation::MayCreate);
    assert_eq!(r.layout.dir, "/home/u/.local/share/app/data");
    assert_eq!(r.layout.db, "/home/u/.local/share/app/data/photo-cleanup.db");
    assert_eq!(r.layout.thumbs, "/home/u/.local/share/app/data/thumbs");
    assert_eq!(r.legacy_dir.as_deref(), Some("/opt/pc"));
    let b = r.persist.unwrap();
    assert_eq!(b.current, Choice::system());
    assert_eq!(b.previous, None);
}

#[test]
fn a_missing_custom_folder_is_reported_not_replaced() {
    let d = dirs();
    let boot = Bootstrap::new(Choice::custom("/Volumes/Archive/pc".into()), Some(Choice::system()));
    let err = resolve(&d, None, false, Ok(Some(boot)), DirState::Missing, false).unwrap_err();
    match err {
        StartupError::DataUnavailable { source, dir, why, previous } => {
            assert_eq!(source, Source::Custom);
            assert_eq!(dir, "/Volumes/Archive/pc");
            assert_eq!(why, Unavailable::Missing);
            assert_eq!(previous, Some(Choice::system()));
        }
        other => panic!("{other:?}"),
    }
}

#[test]
fn an_unreadable_bootstrap_stops_the_launch_but_not_an_explicit_choice() {
    let d = dirs();
    let bad = || {
        Err(StartupError::BootstrapUnreadable { path: d.bootstrap_path(), reason: "x".into() })
    };
    assert!(matches!(
        resolve(&d, None, false, bad(), DirState::Ready, false),
        Err(StartupError::BootstrapUnreadable { .. })
    ));
    let r = choose_data_dir(&d, "/data/new", NewDir::CreateNew, false, bad(), DirState::Missing, false)
        .unwrap();
    assert_eq!(r.creation, Creation::MustBeNew);
    assert_eq!(r.persist.unwrap().previous, None);
    let newer = Err(StartupError::BootstrapUnsupported { path: d.bootstrap_path(), version: 2 });
    assert!(matches!(
        choose_data_dir(&d, "/data/new", NewDir::CreateNew, false, newer, DirState::Missing, false),
        Err(StartupError::BootstrapUnsupported { .. })
    ));
}

#[test]
fn choosing_the_system_folder_records_system_and_keeps_the_old_choice() {
    let d = dirs();
    let boot = Bootstrap::new(Choice::custom("/x".into()), None);
    let r = choose_data_dir(
        &d,
        "/home/u/.local/share/app//data/",
        NewDir::UseExisting,
        false,
        Ok(Some(boot)),
        DirState::Ready,
        true,
    )
    .unwrap();
    assert_eq!(r.source, Source::System);
    let b = r.persist.unwrap();
    assert_eq!(b.current, Choice::system());
    assert_eq!(b.previous, Some(Choice::custom("/x".into())));
}

#[test]
fn a_new_archive_never_overwrites_one() {
    let d = dirs();
    assert!(matches!(
        choose_data_dir(&d, "/data/old", NewDir::CreateNew, false, Ok(None), DirState::Ready, true),
        Err(StartupError::DatabaseExists { .. })
    ));
}

#[test]
fn portable_mode_refuses_a_profile_choice() {
    let d = SystemDirs::new("/l".into(), Some("/p".into()), true);
    match choose_data_dir(&d, "/d", NewDir::CreateNew, true, Ok(None), DirState::Missing, false) {
        Err(StartupError::PortableActive { marker }) => assert_eq!(marker, "/p/photo-cleanup.portable"),
        other => panic!("{other:?}"),
    }
    let r = resolve(&d, None, true, Ok(None), DirState::Missing, false).unwrap();
    assert_eq!(r.source, Source::Portable);
    assert_eq!(r.layout.dir, "/p/data");
    assert!(r.persist.is_none());
}

#[test]
fn going_back_needs_something_to_go_back_to() {
    let d = dirs();
    assert!(matches!(
        revert_to_previous(&d, false, Ok(None), DirState::Ready),
        Err(StartupError::NoPrevious)
    ));
    let boot = Bootstrap::new(Choice::custom("/new".into()), Some(Choice::custom("/old".into())));
    let r = revert_to_previous(&d, false, Ok(Some(boot)), DirState::Ready).unwrap();
    assert_eq!(r.layout.dir, "/old");
    assert_eq!(r.creation, Creation::MustExist);
    let b = r.persist.unwrap();
    assert_eq!(b.current, Choice::custom("/old".into()));
    assert_eq!(b.previous, None);
}

#[test]
fn a_confirmed_launch_forgets_the_way_back() {
    let p = Prepared {
        source: Source::Custom,
        layout: DataLayout::in_dir("/new"),
        created: false,
    };
    let boot = Bootstrap::new(Choice::custom("/new".into()), Some(Choice::system()));
    let w = confirm_started(&p, Ok(Some(boot))).unwrap().unwrap();
    assert_eq!(w.previous, None);
    assert_eq!(w.current, Choice::custom("/new".into()));
    let portable = Prepared { source: Source::Portable, ..p };
    assert_eq!(confirm_started(&portable, Err(StartupError::NoPrevious)), Ok(None));
}

#[test]
fn a_bootstrap_is_checked_on_the_way_in_and_out() {
    let good = Bootstrap::new(Choice::custom("/a".into()), None);
    assert_eq!(accept_read("/b.json", Some(1), Ok(good.clone())), Ok(good.clone()));
    assert_eq!(
        accept_read("/b.json", Some(2), Ok(good.clone())),
        Err(StartupError::BootstrapUnsupported { path: "/b.json".into(), version: 2 })
    );
    assert_eq!(
        accept_read("/b.json", None, Ok(good.clone())),
        Err(StartupError::BootstrapUnreadable { path: "/b.json".into(), reason: "no version".into() })
    );
    let relative = Bootstrap::new(Choice::custom("rel".into()), None);
    assert_eq!(
        accept_read("/b.json", Some(1), Ok(relative.clone())),
        Err(StartupError::BootstrapUnreadable {
            path: "/b.json".into(),
            reason: "data_dir is not absolute: rel".into()
        })
    );
    let odd = Bootstrap::new(Choice::system(), Some(Choice { mode: StoredMode::Custom, data_dir: None }));
    assert_eq!(
        accept_write("/b.json", &odd),
        Err(StartupError::BootstrapWrite {
            path: "/b.json".into(),
            reason: "mode \"custom\" without a data_dir".into()
        })
    );
    assert_eq!(accept_write("/b.json", &good), Ok(()));
}

#[test]
fn disconnected_monitors_and_corrupt_dimensions_stay_on_screen() {
    let screen = Geometry {
        x: -1440,
        y: 23,
        width: 1440,
        height: 877,
        maximized: false,
    };
    let saved = Geometry {
        x: i32::MAX,
        y: i32::MIN,
        width: u32::MAX,
        height: 0,
        maximized: true,
    };
    let fitted = saved.fit(&[screen]).unwrap();
    assert_eq!(
        fitted,
        Geometry {
            x: -1440,
            y: 23,
            width: 1440,
            height: 480,
            maximized: true
        }
    );
    assert_eq!(fitted.fit(&[]), None);
}

#[test]
fn a_window_on_a_second_screen_stays_there() {
    let a = Geometry { x: 0, y: 0, width: 1920, height: 1080, maximized: false };
    let b = Geometry { x: 1920, y: 0, width: 2560, height: 1440, maximized: false };
    let w = Geometry { x: 4000, y: 100, width: 1000, height: 800, maximized: false };
    let f = w.fit(&[a, b]).unwrap();
    assert_eq!(f, Geometry { x: 3480, y: 100, width: 1000, height: 800, maximized: false });
}

#[test]
fn a_total_size_saturates() {
    let s = DataSize { db_bytes: 10, thumbs_bytes: 32, thumbs_files: 3 };
    assert_eq!(s.total(), 42);
    let big = DataSize { db_bytes: u64::MAX, thumbs_bytes: 1, thumbs_files: 0 };
    assert_eq!(big.total(), u64::MAX);
}

#[test]
fn a_failed_restart_restores_or_says_why_it_could_not() {
    assert_eq!(restart_or_restore(Ok(()), Err("ignored".into())), Ok(()));
    assert_eq!(restart_or_restore(Err("spawn failed".into()), Ok(())), Err("spawn failed".to_string()));
    assert_eq!(
        restart_or_restore(Err("spawn failed".into()), Err("disk full".into())),
        Err("spawn failed; cannot restore the previous bootstrap: disk full".to_string())
    );
    let boot = Bootstrap::new(Choice::custom("/new".into()), Some(Choice::custom("/old".into())));
    let back = rollback_bootstrap(Ok(Some(boot))).unwrap();
    assert_eq!(back.current, Choice::custom("/old".into()));
    assert_eq!(back.previous, None);
    assert_eq!(rollback_bootstrap(Ok(None)), Err(StartupError::NoPrevious));
}

fn os(args: &[&str]) -> Vec<String> {
    args.iter().map(|s| s.to_string()).collect()
}

#[test]
fn the_command_line_takes_a_data_dir_and_nothing_else() {
    assert_eq!(parse_args(os(&[])), Ok(None));
    assert_eq!(
        parse_args(os(&["--data-dir", "/tmp/Фото архив"])),
        Ok(Some("/tmp/Фото архив".to_string()))
    );
    assert_eq!(
        parse_args(os(&["--data-dir=/tmp/x"])),
        Ok(Some("/tmp/x".to_string()))
    );
    assert_eq!(parse_args(os(&["-psn_0_12345"])), Ok(None));
    assert!(parse_args(os(&["--data-dir"])).is_err());
    assert!(parse_args(os(&["--data-dir", "/a", "--data-dir", "/b"])).is_err());
    assert!(parse_args(os(&["--datadir", "/a"])).is_err());
    assert_eq!(
        parse_args(os(&["--datadir", "/a"])),
        Err("unknown argument: --datadir".to_string())
    );
}

#[test]
fn a_batch_file_archive_beside_the_program_is_offered_not_taken() {
    let d = dirs();
    let r = resolve(&d, None, false, Ok(None), DirState::Missing, true).unwrap();
    assert_eq!(r.legacy_dir.as_deref(), Some("/opt/pc"));
    assert_eq!(r.source, Source::System, "taken without asking");

    // The user says "use it": that is a custom choice, nothing is copied.
    // Nothing was recorded yet: the first launch never got as far.
    let r = choose_data_dir(&d, "/opt/pc", NewDir::UseExisting, false, Ok(None), DirState::Ready, true)
        .unwrap();
    assert_eq!(r.source, Source::Custom);
    assert_eq!(r.creation, Creation::MustExist);
    assert_eq!(r.layout.db, "/opt/pc/photo-cleanup.db");
    let b = r.persist.unwrap();
    assert_eq!(b.current, Choice::custom("/opt/pc".into()));
    assert_eq!(b.previous, None);
}

fn open_target() -> TargetFacts {
    TargetFacts {
        same_folder: false,
        inside_current: false,
        occupied: true,
        is_dir: true,
        database: false,
        sidecars: [false; 3],
        thumbs: false,
        partials: [false; 5],
        available: Ok(1 << 40),
    }
}

fn size() -> DataSize {
    DataSize {
        db_bytes: 1000,
        thumbs_bytes: 24,
        thumbs_files: 3,
    }
}

#[test]
fn a_clear_target_has_no_blockers_and_names_the_room_needed() {
    let (blockers, needed, free) = move_blockers(Source::Custom, "/mnt/new", size(), &open_target());
    assert!(blockers.is_empty());
    assert_eq!(needed, 1024 + SPACE_MARGIN);
    assert_eq!(free, Some(1 << 40));
}

#[test]
fn a_fixed_mode_and_a_relative_path_are_both_reported() {
    let (blockers, _, free) = move_blockers(Source::Portable, "data", size(), &open_target());
    assert_eq!(
        blockers,
        vec![Blocker::ModeFixed { source: Source::Portable }, Blocker::RelativePath]
    );
    assert_eq!(free, None);
}

#[test]
fn the_current_folder_and_its_cache_are_refused_before_anything_else() {
    let mut f = open_target();
    f.same_folder = true;
    f.database = true;
    let (blockers, _, _) = move_blockers(Source::System, "/data", size(), &f);
    assert_eq!(blockers, vec![Blocker::SameFolder]);
    let mut f = open_target();
    f.inside_current = true;
    let (blockers, _, _) = move_blockers(Source::System, "/data/thumbs/x", size(), &f);
    assert_eq!(blockers, vec![Blocker::InsideCurrent]);
    let mut f = open_target();
    f.is_dir = false;
    let (blockers, _, _) = move_blockers(Source::System, "/data.txt", size(), &f);
    assert_eq!(blockers, vec![Blocker::NotADirectory]);
}

#[test]
fn everything_already_in_the_target_is_named() {
    let mut f = open_target();
    f.database = true;
    f.sidecars = [true, false, true];
    f.thumbs = true;
    f.partials = [false, true, true, false, false];
    f.available = Ok(10);
    let (blockers, needed, free) = move_blockers(Source::Custom, "/mnt/new/", size(), &f);
    assert_eq!(
        blockers,
        vec![
            Blocker::DatabaseExists,
            Blocker::SidecarExists { path: "/mnt/new/photo-cleanup.db-wal".into() },
            Blocker::SidecarExists { path: "/mnt/new/photo-cleanup.db-journal".into() },
            Blocker::ThumbsExist,
            Blocker::LeftoverPartial { path: "/mnt/new/thumbs.partial".into() },
            Blocker::LeftoverPartial { path: "/mnt/new/photo-cleanup.db.partial-wal".into() },
            Blocker::NotEnoughSpace { needed, available: 10 },
        ]
    );
    assert_eq!(free, Some(10));
}

#[test]
fn unreadable_free_space_is_a_blocker_with_its_reason() {
    let mut f = open_target();
    f.available = Err("no statfs".into());
    let (blockers, _, free) = move_blockers(Source::Custom, "/mnt/new", size(), &f);
    assert_eq!(blockers, vec![Blocker::SpaceUnknown { reason: "no statfs".into() }]);
    assert_eq!(free, None);
}

#[test]
fn a_committed_move_remembers_where_it_came_from() {
    let stored = Bootstrap::new(Choice::custom("/mnt/old".into()), None);
    let b = commit_bootstrap(Source::Custom, Ok(Some(stored)), "/mnt/new", "/home/u/.local/share/app")
        .unwrap();
    assert_eq!(b.current, Choice::custom("/mnt/new".into()));
    assert_eq!(b.previous, Some(Choice::custom("/mnt/old".into())));
    // Moving back to the system folder records it by that name.
    let b = commit_bootstrap(Source::System, Ok(None), "/home/u/.local/share/app/", "/home/u/.local/share/app")
        .unwrap();
    assert_eq!(b.current, Choice::system());
    assert_eq!(b.previous, Some(Choice::system()));
}

#[test]
fn a_fixed_folder_or_an_unreadable_bootstrap_commits_nothing() {
    match commit_bootstrap(Source::Override, Ok(None), "/mnt/new", "/sys") {
        Err(RelocateError::Blocked { blockers }) => {
            assert_eq!(blockers, vec![Blocker::ModeFixed { source: Source::Override }])
        }
        other => panic!("{other:?}"),
    }
    match commit_bootstrap(Source::Custom, Err(StartupError::NoPrevious), "/mnt/new", "/sys") {
        Err(RelocateError::Startup { error }) => assert_eq!(error, StartupError::NoPrevious),
        other => panic!("{other:?}"),
    }
}

#[test]
fn an_earlier_versions_leftovers_are_named_in_order() {
    assert_eq!(
        legacy_partials("/mnt/new/"),
        vec![
            "/mnt/new/photo-cleanup.db.partial".to_string(),
            "/mnt/new/thumbs.partial".to_string(),
            "/mnt/new/photo-cleanup.db.partial-wal".to_string(),
            "/mnt/new/photo-cleanup.db.partial-shm".to_string(),
            "/mnt/new/photo-cleanup.db.partial-journal".to_string(),
        ]
    );
}

#[test]
fn leftover_companions_of_a_partial_copy_block_the_move() {
    assert!(reject_legacy_sidecars("/mnt/new", [false, false, false]).is_ok());
    match reject_legacy_sidecars("/mnt/new", [true, false, true]) {
        Err(RelocateError::Blocked { blockers }) => assert_eq!(
            blockers,
            vec![
                Blocker::LeftoverPartial { path: "/mnt/new/photo-cleanup.db.partial-wal".into() },
                Blocker::LeftoverPartial { path: "/mnt/new/photo-cleanup.db.partial-journal".into() },
            ]
        ),
        other => panic!("{other:?}"),
    }
}

fn screen(x: i32, y: i32, width: u32, height: u32) -> Geometry {
    Geometry { x, y, width, height, maximized: false }
}

#[test]
fn a_restored_window_holds_the_minimum_inside_its_frame() {
    let saved = Geometry { x: 100, y: 100, width: 800, height: 600, maximized: true };
    let r = restore(Some(saved), &[screen(0, 0, 1920, 1080)], 900, 600, (0, 28)).unwrap();
    assert_eq!(
        r,
        Restore {
            frame: Geometry { x: 100, y: 100, width: 900, height: 628, maximized: true },
            inner_width: 900,
            inner_height: 600,
            min_width: 900,
            min_height: 600,
        }
    );
}

#[test]
fn a_small_screen_wins_over_the_usual_minimum() {
    let saved = Geometry { x: 0, y: 0, width: 1200, height: 900, maximized: false };
    let r = restore(Some(saved), &[screen(0, 0, 800, 600)], 900, 600, (0, 28)).unwrap();
    assert_eq!(r.frame, Geometry { x: 0, y: 0, width: 800, height: 600, maximized: false });
    assert_eq!((r.inner_width, r.inner_height), (800, 572));
    assert_eq!((r.min_width, r.min_height), (800, 572));
}

#[test]
fn nothing_saved_or_no_screen_leaves_the_window_where_it_is() {
    assert_eq!(restore(None, &[screen(0, 0, 800, 600)], 900, 600, (0, 0)), None);
    let saved = Geometry { x: 0, y: 0, width: 1200, height: 900, maximized: false };
    assert_eq!(restore(Some(saved), &[], 900, 600, (0, 0)), None);
}

#[test]
fn errors_reach_the_shell_with_a_kind_it_can_act_on() {
    let d = dirs();
    let err = choose_data_dir(&d, "/tmp/x/gone", NewDir::UseExisting, false, Ok(None), DirState::Missing, false)
        .unwrap_err();
    match &err {
        StartupError::DataUnavailable { source, dir, why, .. } => {
            assert_eq!(*source, Source::Custom);
            assert_eq!(why, &Unavailable::Missing);
            assert_eq!(dir, "/tmp/x/gone");
        }
        other => panic!("{other:?}"),
    }
    assert!(err.message(Lang::En).contains("gone"));
    assert_eq!(err.message(Lang::En), "data unavailable: /tmp/x/gone — the folder does not exist");
    assert_eq!(err.message(Lang::Ru), "данные недоступны: /tmp/x/gone — папки нет");
}

#[test]
fn every_startup_error_says_what_it_is_in_both_languages() {
    let newer = StartupError::BootstrapUnsupported { path: "/b.json".into(), version: 12 };
    assert_eq!(newer.message(Lang::En), "the settings file /b.json was written by a newer version (format 12)");
    assert_eq!(newer.message(Lang::Ru), "файл настроек /b.json записан более новой версией (формат 12)");
    let exists = StartupError::DatabaseExists { dir: "/d".into() };
    assert_eq!(exists.message(Lang::En), "/d already holds a database; it is not overwritten");
    assert_eq!(exists.message(Lang::Ru), "в /d уже есть база; она не перезаписывается");
    assert_eq!(StartupError::NoPrevious.message(Lang::En), "there is no previous data folder");
    assert_eq!(
        Unavailable::NoDatabase.message(Lang::En),
        "there is no photo-cleanup.db in it"
    );
    assert_eq!(Unavailable::NoDatabase.message(Lang::Ru), "в папке нет photo-cleanup.db");
    assert_eq!(
        StartupError::CreateFailed { dir: "/d".into(), reason: "disk full".into() }.message(Lang::En),
        "cannot create a database in /d: disk full"
    );
}

#[test]
fn the_current_folder_and_its_cache_are_not_targets() {
    let same = TargetFacts { same_folder: true, ..open_target() };
    let (b, _, _) = move_blockers(Source::System, "/data", size(), &same);
    assert!(b.contains(&Blocker::SameFolder));
    let inside = TargetFacts { inside_current: true, occupied: false, ..open_target() };
    let (b, _, _) = move_blockers(Source::System, "/data/thumbs/x/y", size(), &inside);
    assert!(b.contains(&Blocker::InsideCurrent));
    let (b, _, _) = move_blockers(Source::System, "data", size(), &open_target());
    assert!(b.contains(&Blocker::RelativePath));
}

#[test]
fn portable_and_command_line_folders_are_not_moved() {
    for source in [Source::Portable, Source::Override] {
        let clear = TargetFacts { occupied: false, is_dir: false, ..open_target() };
        let (b, _, _) = move_blockers(source, "/tmp/dest", size(), &clear);
        assert!(b.contains(&Blocker::ModeFixed { source }));
        assert!(commit_bootstrap(source, Ok(None), "/tmp/dest", "/sys").is_err());
    }
}

#[test]
fn a_batch_file_database_beside_the_program_is_offered_not_used() {
    let exe = "/tmp/t/Photo Cleanup";
    let d = SystemDirs::new("/tmp/t/local".into(), Some(exe.into()), false);
    let layout = DataLayout::in_dir(&d.system_data_dir());
    assert_eq!(desktop_info(&d, Source::System, &layout, None, None, false).legacy_dir, None);
    let info = desktop_info(&d, Source::System, &layout, None, Some(7), true);
    assert_eq!(info.legacy_dir.as_deref(), Some(exe));
    assert!(info.can_change);
    assert_eq!(info.available, Some(7));
    assert_eq!(info.system_dir, "/tmp/t/local/data");
    // Already the data folder (portable): nothing to offer.
    let here = DataLayout::in_dir(exe);
    let info = desktop_info(&d, Source::Portable, &here, None, None, true);
    assert_eq!(info.legacy_dir, None);
    assert!(!info.can_change);
    // The same folder, however it is spelled, is not offered to itself.
    let spelled = DataLayout::in_dir("/tmp/t//Photo Cleanup/");
    let info = desktop_info(&d, Source::Custom, &spelled, None, None, true);
    assert_eq!(info.legacy_dir, None);
}

#[test]
fn a_newer_bootstrap_is_reported_as_newer_even_when_it_does_not_parse() {
    assert_eq!(
        accept_read("/b.json", Some(7), Err("unknown variant `cloud`".into())),
        Err(StartupError::BootstrapUnsupported { path: "/b.json".into(), version: 7 })
    );
    assert_eq!(
        accept_read("/b.json", Some(1), Err("unknown variant `cloud`".into())),
        Err(StartupError::BootstrapUnreadable {
            path: "/b.json".into(),
            reason: "unknown variant `cloud`".into()
        })
    );
    assert_eq!(
        accept_read("/b.json", None, Err("missing field `mode`".into())),
        Err(StartupError::BootstrapUnreadable { path: "/b.json".into(), reason: "no version".into() })
    );
}

#[test]
fn a_server_page_names_the_bound_port_over_plain_http() {
    let at = |scheme: &str, host: Option<&str>, port: Option<u16>| server_page_address(scheme, host, port, 51234);
    assert_eq!(at("http", Some("127.0.0.1"), Some(51234)), Some("127.0.0.1".to_string()));
    // Another local server — somebody else's page.
    assert_eq!(at("http", Some("127.0.0.1"), Some(8080)), None);
    assert_eq!(at("https", Some("127.0.0.1"), Some(51234)), None);
    assert_eq!(at("http", None, Some(51234)), None);
    assert_eq!(at("file", None, None), None);
    // A name is handed on as written, to be refused as no address.
    assert_eq!(at("http", Some("localhost"), Some(51234)), Some("localhost".to_string()));
}

#[test]
fn an_ipv6_host_loses_its_brackets() {
    assert_eq!(server_page_address("http", Some("[::1]"), Some(4000), 4000), Some("::1".to_string()));
    assert_eq!(server_page_address("http", Some("[]"), Some(4000), 4000), Some("".to_string()));
    assert_eq!(server_page_address("http", Some("[::1"), Some(4000), 4000), Some("[::1".to_string()));
}
