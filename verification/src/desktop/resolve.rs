//! Which data directory this launch uses.
//!
//! Order, first match wins:
//!
//! 1. `--data-dir <path>` — this launch only, never written to the bootstrap.
//! 2. Portable marker beside the executable (Windows only) →
//!    `<exe dir>/data`.
//! 3. The bootstrap → its `system` or `custom` directory, which must already
//!    hold a database.
//! 4. No bootstrap → first launch in `<app_local_data>/data`. The bootstrap
//!    is written only once the database there has opened.
//!
//! The shell looks at the disk and reads the bootstrap; the functions here
//! take what it found and decide. They never touch the disk themselves.
use vstd::prelude::*;
use vstd::string::*;
use crate::desktop::bootstrap::{
    Bootstrap, BootstrapView, Choice, ChoiceView, StoredMode, BOOTSTRAP_VERSION, same_choice,
};
use crate::desktop::error::{StartupError, StartupErrorView, Unavailable, UnavailableView, choice_opt_view};
use crate::desktop::layout::{DataLayout, SystemDirs, DATA_SUBDIR};
use crate::paths::{absolute, is_absolute, join, join_path, same_dir, same_place};

verus! {

/// Where this launch's data directory came from.
#[derive(Debug, Clone, Copy, PartialEq, Eq, Structural)]
pub enum Source {
    Override,
    Portable,
    System,
    Custom,
}

/// Whether the database may, must not, or must be created.
#[derive(Debug, Clone, Copy, PartialEq, Eq, Structural)]
pub enum Creation {
    /// Open it if it is there, create it if not.
    MayCreate,
    /// It must be there. The directory is the user's archive; an empty
    /// database in its place would look like everything was lost.
    MustExist,
    /// It must not be there: the user asked for a new archive, and an
    /// existing one is never overwritten.
    MustBeNew,
}

/// What the user wants done with a folder they picked.
#[derive(Debug, Clone, Copy, PartialEq, Eq, Structural)]
pub enum NewDir {
    /// Switch to the archive already in it, without copying anything.
    UseExisting,
    /// Start a new, empty archive in it.
    CreateNew,
}

/// What the shell found at a directory that should hold an archive.
#[derive(Debug, Clone, PartialEq, Eq)]
pub enum DirState {
    /// Nothing is there.
    Missing,
    /// Looking at it failed, for the reason given.
    Unreadable(String),
    /// Something is there and it is not a directory.
    NotADirectory,
    /// A directory without the database file in it.
    NoDatabase,
    /// A directory holding the database file.
    Ready,
}

/// A decided but not yet prepared data directory. Nothing is written yet.
#[derive(Debug, Clone)]
pub struct Resolved {
    pub source: Source,
    pub layout: DataLayout,
    pub creation: Creation,
    /// Written once the database opened.
    pub persist: Option<Bootstrap>,
    /// The choice before the last change, offered as "go back".
    pub previous: Option<Choice>,
    /// First launch only: a folder beside the executable that already holds
    /// a database. The shell asks whether to use it; it is never picked up
    /// silently.
    pub legacy_dir: Option<String>,
}

/// A data directory whose database opened.
#[derive(Debug, Clone)]
pub struct Prepared {
    pub source: Source,
    pub layout: DataLayout,
    /// The database did not exist before this launch.
    pub created: bool,
}

/// [`Resolved`] with its texts as characters; the layout is that of `dir`.
pub struct ResolvedView {
    pub source: Source,
    pub dir: Seq<char>,
    pub creation: Creation,
    pub persist: Option<BootstrapView>,
    pub previous: Option<ChoiceView>,
    pub legacy_dir: Option<Seq<char>>,
}

impl Resolved {
    /// The layout is that of the data directory it names.
    pub open spec fn wf(&self) -> bool {
        DataLayout::of(self.layout.dir@, self.layout)
    }
}

impl View for Resolved {
    type V = ResolvedView;

    open spec fn view(&self) -> ResolvedView {
        ResolvedView {
            source: self.source,
            dir: self.layout.dir@,
            creation: self.creation,
            persist: match self.persist {
                Some(b) => Some(b@),
                None => None,
            },
            previous: choice_opt_view(self.previous),
            legacy_dir: match self.legacy_dir {
                Some(d) => Some(d@),
                None => None,
            },
        }
    }
}

/// A decision by its view: the resolved directory, well formed, or the error.
pub open spec fn outcome(r: Result<Resolved, StartupError>) -> Result<ResolvedView, StartupErrorView> {
    match r {
        Ok(x) => Ok(x@),
        Err(e) => Err(e@),
    }
}

/// A decision that succeeded carries a layout that matches its directory.
pub open spec fn outcome_wf(r: Result<Resolved, StartupError>) -> bool {
    r matches Ok(x) ==> x.wf()
}

/// A bootstrap reading by its view.
pub open spec fn boot_view(b: Result<Option<Bootstrap>, StartupError>) -> Result<
    Option<BootstrapView>,
    StartupErrorView,
> {
    match b {
        Ok(Some(x)) => Ok(Some(x@)),
        Ok(None) => Ok(None),
        Err(e) => Err(e@),
    }
}

/// What is wrong with a directory in the state the shell found it in, if anything.
pub open spec fn why_unavailable(state: DirState) -> Option<UnavailableView> {
    match state {
        DirState::Missing => Some(UnavailableView::Missing),
        DirState::Unreadable(e) => Some(UnavailableView::NotWritable(e@)),
        DirState::NotADirectory => Some(UnavailableView::NotADirectory),
        DirState::NoDatabase => Some(UnavailableView::NoDatabase),
        DirState::Ready => None,
    }
}

/// A fresh directory that may be created.
pub open spec fn fresh_view(source: Source, dir: Seq<char>, persist: Option<BootstrapView>) -> ResolvedView {
    ResolvedView { source, dir, creation: Creation::MayCreate, persist, previous: None, legacy_dir: None }
}

/// Where a remembered choice puts the data.
pub open spec fn locate_spec(dirs: SystemDirs, c: ChoiceView) -> (Source, Seq<char>) {
    match (c.mode, c.data_dir) {
        (StoredMode::Custom, Some(d)) => (Source::Custom, d),
        _ => (Source::System, dirs.system_data_dir_spec()),
    }
}

/// The first-launch bootstrap: the system directory, nothing before it.
pub open spec fn first_bootstrap() -> BootstrapView {
    BootstrapView {
        version: BOOTSTRAP_VERSION,
        current: ChoiceView { mode: StoredMode::System, data_dir: None },
        previous: None,
    }
}

/// The directory this launch uses. `marker_is_file` is whether the portable
/// marker is at [`SystemDirs::marker_path`]; `boot` is what reading the
/// bootstrap gave; `current` is what is at the directory the bootstrap
/// names; `legacy_db` is whether the database file is in the executable's
/// directory.
pub open spec fn resolve_spec(
    dirs: SystemDirs,
    override_dir: Option<Seq<char>>,
    marker_is_file: bool,
    boot: Result<Option<BootstrapView>, StartupErrorView>,
    current: DirState,
    legacy_db: bool,
) -> Result<ResolvedView, StartupErrorView> {
    match override_dir {
        Some(d) => if !is_absolute(d) {
            Err(StartupErrorView::RelativePath { path: d })
        } else {
            Ok(fresh_view(Source::Override, d, None))
        },
        None => if dirs.marker_path() is Some && marker_is_file {
            Ok(fresh_view(Source::Portable, join_path(dirs.exe_dir.unwrap()@, DATA_SUBDIR@), None))
        } else {
            match boot {
                Err(e) => Err(e),
                Ok(Some(b)) => {
                    let (source, dir) = locate_spec(dirs, b.current);
                    match why_unavailable(current) {
                        Some(why) => Err(StartupErrorView::DataUnavailable {
                            source,
                            dir,
                            why,
                            previous: b.previous,
                        }),
                        None => Ok(ResolvedView {
                            source,
                            dir,
                            creation: Creation::MustExist,
                            persist: None,
                            previous: b.previous,
                            legacy_dir: None,
                        }),
                    }
                },
                Ok(None) => Ok(ResolvedView {
                    source: Source::System,
                    dir: dirs.system_data_dir_spec(),
                    creation: Creation::MayCreate,
                    persist: Some(first_bootstrap()),
                    previous: None,
                    legacy_dir: if legacy_db && dirs.exe_dir is Some {
                        Some(dirs.exe_dir.unwrap()@)
                    } else {
                        None
                    },
                }),
            }
        },
    }
}

fn fresh(source: Source, dir: &str, persist: Option<Bootstrap>) -> (r: Resolved)
    ensures
        r.wf(),
        r@ == fresh_view(
            source,
            dir@,
            match persist {
                Some(b) => Some(b@),
                None => None,
            },
        ),
{
    Resolved {
        source,
        layout: DataLayout::in_dir(dir),
        creation: Creation::MayCreate,
        persist,
        previous: None,
        legacy_dir: None,
    }
}

/// Where a remembered choice puts the data.
pub fn locate(dirs: &SystemDirs, c: &Choice) -> (r: (Source, String))
    ensures
        (r.0, r.1@) == locate_spec(*dirs, c@),
{
    match (c.mode, &c.data_dir) {
        (StoredMode::Custom, Some(d)) => (Source::Custom, d.clone()),
        _ => (Source::System, dirs.system_data_dir()),
    }
}

fn require_absolute(dir: &str) -> (r: Result<(), StartupError>)
    ensures
        is_absolute(dir@) ==> r is Ok,
        !is_absolute(dir@) ==> (r matches Err(e) && e@ == (StartupErrorView::RelativePath {
            path: dir@,
        })),
{
    if absolute(dir) {
        Ok(())
    } else {
        Err(StartupError::RelativePath { path: String::from_str(dir) })
    }
}

pub(crate) fn copy_previous(p: &Option<Choice>) -> (r: Option<Choice>)
    ensures
        choice_opt_view(r) == choice_opt_view(*p),
{
    match p {
        Some(c) => Some(c.copy()),
        None => None,
    }
}

/// The directory is there and holds a database. Decides only: in particular
/// it never creates the directory, which for an unplugged drive would put an
/// empty archive on the boot disk under the drive's mount point.
pub fn check_existing(source: Source, dir: &str, state: DirState, previous: &Option<Choice>) -> (r:
    Result<(), StartupError>)
    ensures
        match why_unavailable(state) {
            None => r is Ok,
            Some(why) => r matches Err(e) && e@ == (StartupErrorView::DataUnavailable {
                source,
                dir: dir@,
                why,
                previous: choice_opt_view(*previous),
            }),
        },
{
    let why = match state {
        DirState::Missing => Unavailable::Missing,
        DirState::Unreadable(e) => Unavailable::NotWritable(e),
        DirState::NotADirectory => Unavailable::NotADirectory,
        DirState::NoDatabase => Unavailable::NoDatabase,
        DirState::Ready => {
            return Ok(());
        },
    };
    Err(StartupError::DataUnavailable {
        source,
        dir: String::from_str(dir),
        why,
        previous: copy_previous(previous),
    })
}

/// Decide the data directory for this launch from what the shell found.
pub fn resolve(
    dirs: &SystemDirs,
    override_dir: Option<&str>,
    marker_is_file: bool,
    boot: Result<Option<Bootstrap>, StartupError>,
    current: DirState,
    legacy_db: bool,
) -> (r: Result<Resolved, StartupError>)
    ensures
        outcome_wf(r),
        outcome(r) == resolve_spec(
            *dirs,
            match override_dir {
                Some(d) => Some(d@),
                None => None,
            },
            marker_is_file,
            boot_view(boot),
            current,
            legacy_db,
        ),
{
    if let Some(dir) = override_dir {
        match require_absolute(dir) {
            Err(e) => {
                return Err(e);
            },
            Ok(()) => {
                return Ok(fresh(Source::Override, dir, None));
            },
        }
    }
    if let Some(_marker) = dirs.portable_marker(marker_is_file) {
        let exe = match &dirs.exe_dir {
            Some(d) => d.as_str(),
            None => "",
        };
        let data = join(exe, DATA_SUBDIR);
        return Ok(fresh(Source::Portable, data.as_str(), None));
    }
    match boot {
        Err(e) => Err(e),
        Ok(Some(b)) => {
            let (source, dir) = locate(dirs, &b.current);
            match check_existing(source, dir.as_str(), current, &b.previous) {
                Err(e) => Err(e),
                Ok(()) => Ok(
                    Resolved {
                        source,
                        layout: DataLayout::in_dir(dir.as_str()),
                        creation: Creation::MustExist,
                        persist: None,
                        previous: b.previous,
                        legacy_dir: None,
                    },
                ),
            }
        },
        Ok(None) => {
            let legacy_dir = match &dirs.exe_dir {
                Some(d) => if legacy_db {
                    Some(d.clone())
                } else {
                    None
                },
                None => None,
            };
            let sys = dirs.system_data_dir();
            let mut r = fresh(Source::System, sys.as_str(), Some(Bootstrap::new(Choice::system(), None)));
            r.legacy_dir = legacy_dir;
            Ok(r)
        },
    }
}

/// What the shell found out about a folder the user picked.
pub open spec fn choose_spec(
    dirs: SystemDirs,
    dir: Seq<char>,
    what: NewDir,
    marker_is_file: bool,
    boot: Result<Option<BootstrapView>, StartupErrorView>,
    state: DirState,
    db_exists: bool,
) -> Result<ResolvedView, StartupErrorView> {
    if dirs.marker_path() is Some && marker_is_file {
        Err(StartupErrorView::PortableActive { marker: dirs.marker_path().unwrap() })
    } else if !is_absolute(dir) {
        Err(StartupErrorView::RelativePath { path: dir })
    } else {
        match boot {
            Err(e) if !(e is BootstrapUnreadable) => Err(e),
            _ => {
                // An unreadable bootstrap is exactly what the user may be
                // choosing their way out of, so it does not block the choice.
                let current: Option<ChoiceView> = match boot {
                    Ok(Some(b)) => Some(b.current),
                    _ => None,
                };
                let choice = if same_place(dir, dirs.system_data_dir_spec()) {
                    ChoiceView { mode: StoredMode::System, data_dir: None }
                } else {
                    ChoiceView { mode: StoredMode::Custom, data_dir: Some(dir) }
                };
                let source = locate_spec(dirs, choice).0;
                let previous = match current {
                    Some(c) => if same_choice(c, choice) {
                        None
                    } else {
                        Some(c)
                    },
                    None => None,
                };
                let chosen = ResolvedView {
                    source,
                    dir,
                    creation: if what == NewDir::UseExisting {
                        Creation::MustExist
                    } else {
                        Creation::MustBeNew
                    },
                    persist: Some(
                        BootstrapView { version: BOOTSTRAP_VERSION, current: choice, previous },
                    ),
                    previous: None,
                    legacy_dir: None,
                };
                match what {
                    NewDir::UseExisting => match why_unavailable(state) {
                        Some(why) => Err(StartupErrorView::DataUnavailable {
                            source,
                            dir,
                            why,
                            previous: None,
                        }),
                        None => Ok(chosen),
                    },
                    NewDir::CreateNew => if db_exists {
                        Err(StartupErrorView::DatabaseExists { dir })
                    } else {
                        Ok(chosen)
                    },
                }
            },
        }
    }
}

/// Use a folder the user picked as the data directory from now on. This
/// records a choice; it does not move data. `state` is what is at `dir`,
/// `db_exists` whether anything is at its database path.
pub fn choose_data_dir(
    dirs: &SystemDirs,
    dir: &str,
    what: NewDir,
    marker_is_file: bool,
    boot: Result<Option<Bootstrap>, StartupError>,
    state: DirState,
    db_exists: bool,
) -> (r: Result<Resolved, StartupError>)
    ensures
        outcome_wf(r),
        outcome(r) == choose_spec(*dirs, dir@, what, marker_is_file, boot_view(boot), state, db_exists),
{
    if let Some(marker) = dirs.portable_marker(marker_is_file) {
        return Err(StartupError::PortableActive { marker });
    }
    if let Err(e) = require_absolute(dir) {
        return Err(e);
    }
    let current = match boot {
        Ok(b) => match b {
            Some(b) => Some(b.current),
            None => None,
        },
        Err(StartupError::BootstrapUnreadable { .. }) => None,
        Err(e) => {
            return Err(e);
        },
    };
    let sys = dirs.system_data_dir();
    let choice = if same_dir(dir, sys.as_str()) {
        Choice::system()
    } else {
        Choice::custom(String::from_str(dir))
    };
    let (source, _) = locate(dirs, &choice);
    let creation = match what {
        NewDir::UseExisting => {
            if let Err(e) = check_existing(source, dir, state, &None) {
                return Err(e);
            }
            Creation::MustExist
        },
        NewDir::CreateNew => {
            if db_exists {
                return Err(StartupError::DatabaseExists { dir: String::from_str(dir) });
            }
            Creation::MustBeNew
        },
    };
    let previous = match current {
        Some(c) => if c.same(&choice) {
            None
        } else {
            Some(c)
        },
        None => None,
    };
    Ok(
        Resolved {
            source,
            layout: DataLayout::in_dir(dir),
            creation,
            persist: Some(Bootstrap::new(choice, previous)),
            previous: None,
            legacy_dir: None,
        },
    )
}

/// Going back to the choice before the last change: `state` is what is at
/// the directory that choice names.
pub open spec fn revert_spec(
    dirs: SystemDirs,
    marker_is_file: bool,
    boot: Result<Option<BootstrapView>, StartupErrorView>,
    state: DirState,
) -> Result<ResolvedView, StartupErrorView> {
    if dirs.marker_path() is Some && marker_is_file {
        Err(StartupErrorView::PortableActive { marker: dirs.marker_path().unwrap() })
    } else {
        match boot {
            Err(e) => Err(e),
            Ok(None) => Err(StartupErrorView::NoPrevious),
            Ok(Some(b)) => match b.previous {
                None => Err(StartupErrorView::NoPrevious),
                Some(p) => {
                    let (source, dir) = locate_spec(dirs, p);
                    match why_unavailable(state) {
                        Some(why) => Err(StartupErrorView::DataUnavailable {
                            source,
                            dir,
                            why,
                            previous: None,
                        }),
                        None => Ok(ResolvedView {
                            source,
                            dir,
                            creation: Creation::MustExist,
                            persist: Some(
                                BootstrapView {
                                    version: BOOTSTRAP_VERSION,
                                    current: p,
                                    previous: None,
                                },
                            ),
                            previous: None,
                            legacy_dir: None,
                        }),
                    }
                },
            },
        }
    }
}

/// Go back to the choice before the last change — the way out when a new
/// data directory does not come up.
pub fn revert_to_previous(
    dirs: &SystemDirs,
    marker_is_file: bool,
    boot: Result<Option<Bootstrap>, StartupError>,
    state: DirState,
) -> (r: Result<Resolved, StartupError>)
    ensures
        outcome_wf(r),
        outcome(r) == revert_spec(*dirs, marker_is_file, boot_view(boot), state),
{
    if let Some(marker) = dirs.portable_marker(marker_is_file) {
        return Err(StartupError::PortableActive { marker });
    }
    let previous = match boot {
        Err(e) => {
            return Err(e);
        },
        Ok(None) => {
            return Err(StartupError::NoPrevious);
        },
        Ok(Some(b)) => match b.previous {
            None => {
                return Err(StartupError::NoPrevious);
            },
            Some(p) => p,
        },
    };
    let (source, dir) = locate(dirs, &previous);
    if let Err(e) = check_existing(source, dir.as_str(), state, &None) {
        return Err(e);
    }
    Ok(
        Resolved {
            source,
            layout: DataLayout::in_dir(dir.as_str()),
            creation: Creation::MustExist,
            persist: Some(Bootstrap::new(previous, None)),
            previous: None,
            legacy_dir: None,
        },
    )
}

/// After the server came up on `source`'s directory: the bootstrap to write
/// back, if any. A choice that was waiting for this stops being provisional
/// and "go back" is no longer offered; a portable or `--data-dir` launch
/// touches nothing.
pub open spec fn confirm_spec(source: Source, boot: Result<Option<BootstrapView>, StartupErrorView>) -> Result<
    Option<BootstrapView>,
    StartupErrorView,
> {
    if !(source == Source::System || source == Source::Custom) {
        Ok(None)
    } else {
        match boot {
            Err(e) => Err(e),
            Ok(Some(b)) => if b.previous is Some {
                Ok(Some(BootstrapView { previous: None, ..b }))
            } else {
                Ok(None)
            },
            Ok(None) => Ok(None),
        }
    }
}

/// The server is up on the prepared directory: what, if anything, to write
/// back to the bootstrap.
pub fn confirm_started(p: &Prepared, boot: Result<Option<Bootstrap>, StartupError>) -> (r: Result<
    Option<Bootstrap>,
    StartupError,
>)
    ensures
        boot_view(r) == confirm_spec(p.source, boot_view(boot)),
{
    if !(p.source == Source::System || p.source == Source::Custom) {
        return Ok(None);
    }
    match boot {
        Err(e) => Err(e),
        Ok(Some(b)) => if b.previous.is_some() {
            Ok(Some(Bootstrap { previous: None, ..b }))
        } else {
            Ok(None)
        },
        Ok(None) => Ok(None),
    }
}

} // verus!
