//! Opening — or, where the decision allows it, creating — the database of
//! the data directory a launch resolved to, and only then recording the
//! choice. Recording after opening matters on first launch: a bootstrap
//! written before a failed create would turn the next launch into "your
//! data is missing" for data that never existed.
//!
//! The shell does each step and reports what happened; what comes next is
//! decided here.
use vstd::prelude::*;
use vstd::string::*;
use crate::desktop::bootstrap::{Bootstrap, BootstrapView};
use crate::desktop::error::{StartupError, StartupErrorView, Unavailable, UnavailableView};
use crate::desktop::layout::DataLayout;
use crate::desktop::resolve::{
    check_existing, copy_previous, why_unavailable, Creation, DirState, Prepared, Resolved, ResolvedView, Source,
};

verus! {

/// Where preparing a data directory stands.
#[derive(Debug, Clone, Copy, PartialEq, Eq, Structural)]
pub enum PreparePhase {
    /// Nothing looked at yet.
    Looking,
    /// The directory is being created for a new database.
    CreatingDir,
    /// Whether the directory can be written is being tried.
    Probing { exists: bool },
    /// The database that was there is being opened.
    Opening,
    /// A new database is being created.
    Creating,
    /// The choice is being recorded.
    Recording { created: bool },
    Finished,
}

/// What the shell reports.
#[derive(Debug)]
pub enum PrepareEvent {
    /// Whether the database file is there, and the state of the directory.
    Looked { exists: bool, state: DirState },
    DirCreated(Result<(), String>),
    Probed(Result<(), String>),
    Opened(Result<(), Unavailable>),
    Created(Result<(), String>),
    Recorded(Result<(), StartupError>),
}

/// What the shell is told to do next.
#[derive(Debug)]
pub enum PrepareOrder {
    CreateDir,
    Probe,
    OpenExisting,
    CreateDatabase,
    /// Write this bootstrap.
    Record(Bootstrap),
    /// The database opened: start the server on it.
    Done(Prepared),
    Fail(StartupError),
}

/// [`PrepareEvent`] with its texts as characters.
pub enum PrepareEventView {
    Looked(bool, DirState),
    DirCreated(Result<(), Seq<char>>),
    Probed(Result<(), Seq<char>>),
    Opened(Result<(), UnavailableView>),
    Created(Result<(), Seq<char>>),
    Recorded(Result<(), StartupErrorView>),
}

pub open spec fn unit_view(r: Result<(), String>) -> Result<(), Seq<char>> {
    match r {
        Ok(()) => Ok(()),
        Err(e) => Err(e@),
    }
}

impl View for PrepareEvent {
    type V = PrepareEventView;

    open spec fn view(&self) -> PrepareEventView {
        match self {
            PrepareEvent::Looked { exists, state } => PrepareEventView::Looked(*exists, *state),
            PrepareEvent::DirCreated(r) => PrepareEventView::DirCreated(unit_view(*r)),
            PrepareEvent::Probed(r) => PrepareEventView::Probed(unit_view(*r)),
            PrepareEvent::Opened(r) => PrepareEventView::Opened(
                match r {
                    Ok(()) => Ok(()),
                    Err(e) => Err(e@),
                },
            ),
            PrepareEvent::Created(r) => PrepareEventView::Created(unit_view(*r)),
            PrepareEvent::Recorded(r) => PrepareEventView::Recorded(
                match r {
                    Ok(()) => Ok(()),
                    Err(e) => Err(e@),
                },
            ),
        }
    }
}

/// [`PrepareOrder`] with its texts as characters; a finished preparation by
/// its source, directory and whether the database is new.
pub enum PrepareOrderView {
    CreateDir,
    Probe,
    OpenExisting,
    CreateDatabase,
    Record(BootstrapView),
    Done(Source, Seq<char>, bool),
    Fail(StartupErrorView),
}

impl View for PrepareOrder {
    type V = PrepareOrderView;

    open spec fn view(&self) -> PrepareOrderView {
        match self {
            PrepareOrder::CreateDir => PrepareOrderView::CreateDir,
            PrepareOrder::Probe => PrepareOrderView::Probe,
            PrepareOrder::OpenExisting => PrepareOrderView::OpenExisting,
            PrepareOrder::CreateDatabase => PrepareOrderView::CreateDatabase,
            PrepareOrder::Record(b) => PrepareOrderView::Record(b@),
            PrepareOrder::Done(p) => PrepareOrderView::Done(p.source, p.layout.dir@, p.created),
            PrepareOrder::Fail(e) => PrepareOrderView::Fail(e@),
        }
    }
}

/// The event the shell reports is the one the phase waits for.
pub open spec fn expected(phase: PreparePhase, e: PrepareEventView) -> bool {
    match (phase, e) {
        (PreparePhase::Looking, PrepareEventView::Looked(_, _)) => true,
        (PreparePhase::CreatingDir, PrepareEventView::DirCreated(_)) => true,
        (PreparePhase::Probing { .. }, PrepareEventView::Probed(_)) => true,
        (PreparePhase::Opening, PrepareEventView::Opened(_)) => true,
        (PreparePhase::Creating, PrepareEventView::Created(_)) => true,
        (PreparePhase::Recording { .. }, PrepareEventView::Recorded(_)) => true,
        _ => false,
    }
}

/// The directory cannot be used, for `why`.
pub open spec fn unusable(r: ResolvedView, why: UnavailableView) -> (PreparePhase, PrepareOrderView) {
    (
        PreparePhase::Finished,
        PrepareOrderView::Fail(
            StartupErrorView::DataUnavailable {
                source: r.source,
                dir: r.dir,
                why,
                previous: r.previous,
            },
        ),
    )
}

/// The database opened: record the choice when this launch has one to
/// record and the folder is one the bootstrap decides, else done.
pub open spec fn opened(r: ResolvedView, created: bool) -> (PreparePhase, PrepareOrderView) {
    match r.persist {
        Some(b) => if r.source == Source::System || r.source == Source::Custom {
            (PreparePhase::Recording { created }, PrepareOrderView::Record(b))
        } else {
            (PreparePhase::Finished, PrepareOrderView::Done(r.source, r.dir, created))
        },
        None => (PreparePhase::Finished, PrepareOrderView::Done(r.source, r.dir, created)),
    }
}

/// What comes after event `e` in `phase`, for the resolved directory `r`.
///
/// A folder that must be new and holds a database is refused; one whose
/// database must exist and does not is reported as unavailable. A missing
/// database is created only after its directory is made and proven
/// writable; an existing one is opened after the same proof.
pub open spec fn prepare_next(phase: PreparePhase, r: ResolvedView, e: PrepareEventView) -> (
    PreparePhase,
    PrepareOrderView,
) {
    match (phase, e) {
        (PreparePhase::Looking, PrepareEventView::Looked(exists, state)) => {
            if r.creation == Creation::MustBeNew && exists {
                (
                    PreparePhase::Finished,
                    PrepareOrderView::Fail(StartupErrorView::DatabaseExists { dir: r.dir }),
                )
            } else if r.creation == Creation::MustExist && !exists && why_unavailable(
                state,
            ) is Some {
                unusable(r, why_unavailable(state).unwrap())
            } else if exists {
                (PreparePhase::Probing { exists: true }, PrepareOrderView::Probe)
            } else {
                (PreparePhase::CreatingDir, PrepareOrderView::CreateDir)
            }
        },
        (PreparePhase::CreatingDir, PrepareEventView::DirCreated(res)) => match res {
            Ok(()) => (PreparePhase::Probing { exists: false }, PrepareOrderView::Probe),
            Err(e) => unusable(r, UnavailableView::NotWritable(e)),
        },
        (PreparePhase::Probing { exists }, PrepareEventView::Probed(res)) => match res {
            Ok(()) => if exists {
                (PreparePhase::Opening, PrepareOrderView::OpenExisting)
            } else {
                (PreparePhase::Creating, PrepareOrderView::CreateDatabase)
            },
            Err(e) => unusable(r, UnavailableView::NotWritable(e)),
        },
        (PreparePhase::Opening, PrepareEventView::Opened(res)) => match res {
            Ok(()) => opened(r, false),
            Err(why) => unusable(r, why),
        },
        (PreparePhase::Creating, PrepareEventView::Created(res)) => match res {
            Ok(()) => opened(r, true),
            Err(reason) => (
                PreparePhase::Finished,
                PrepareOrderView::Fail(StartupErrorView::CreateFailed { dir: r.dir, reason }),
            ),
        },
        (PreparePhase::Recording { created }, PrepareEventView::Recorded(res)) => match res {
            Ok(()) => (PreparePhase::Finished, PrepareOrderView::Done(r.source, r.dir, created)),
            Err(e) => (PreparePhase::Finished, PrepareOrderView::Fail(e)),
        },
        _ => (PreparePhase::Finished, PrepareOrderView::Fail(StartupErrorView::NoPrevious)),
    }
}

fn copy_layout(l: &DataLayout) -> (c: DataLayout)
    ensures
        c.dir@ == l.dir@,
        c.db@ == l.db@,
        c.thumbs@ == l.thumbs@,
{
    DataLayout { dir: l.dir.clone(), db: l.db.clone(), thumbs: l.thumbs.clone() }
}

fn copy_bootstrap(b: &Bootstrap) -> (c: Bootstrap)
    ensures
        c@ == b@,
{
    Bootstrap {
        version: b.version,
        current: b.current.copy(),
        previous: match &b.previous {
            Some(p) => Some(p.copy()),
            None => None,
        },
    }
}

fn unusable_error(r: &Resolved, why: Unavailable) -> (o: (PreparePhase, PrepareOrder))
    ensures
        (o.0, o.1@) == unusable(r@, why@),
{
    (
        PreparePhase::Finished,
        PrepareOrder::Fail(
            StartupError::DataUnavailable {
                source: r.source,
                dir: r.layout.dir.clone(),
                why,
                previous: copy_previous(&r.previous),
            },
        ),
    )
}

fn opened_order(r: &Resolved, created: bool) -> (o: (PreparePhase, PrepareOrder))
    ensures
        (o.0, o.1@) == opened(r@, created),
        o.1 matches PrepareOrder::Done(p) ==> p.layout.dir@ == r.layout.dir@ && p.layout.db@
            == r.layout.db@ && p.layout.thumbs@ == r.layout.thumbs@,
{
    let done = (
        PreparePhase::Finished,
        PrepareOrder::Done(Prepared { source: r.source, layout: copy_layout(&r.layout), created }),
    );
    match &r.persist {
        Some(b) => {
            if matches!(r.source, Source::System | Source::Custom) {
                (PreparePhase::Recording { created }, PrepareOrder::Record(copy_bootstrap(b)))
            } else {
                done
            }
        },
        None => done,
    }
}

/// Decide what comes after `event` in `phase`, for the resolved directory
/// `r`. A finished preparation carries `r`'s layout.
pub fn prepare_step(phase: PreparePhase, r: &Resolved, event: PrepareEvent) -> (o: (
    PreparePhase,
    PrepareOrder,
))
    requires
        expected(phase, event@),
    ensures
        (o.0, o.1@) == prepare_next(phase, r@, event@),
        o.1 matches PrepareOrder::Done(p) ==> p.layout.dir@ == r.layout.dir@ && p.layout.db@
            == r.layout.db@ && p.layout.thumbs@ == r.layout.thumbs@,
{
    match (phase, event) {
        (PreparePhase::Looking, PrepareEvent::Looked { exists, state }) => {
            if matches!(r.creation, Creation::MustBeNew) && exists {
                return (
                    PreparePhase::Finished,
                    PrepareOrder::Fail(StartupError::DatabaseExists { dir: r.layout.dir.clone() }),
                );
            }
            if matches!(r.creation, Creation::MustExist) && !exists {
                if let Err(e) = check_existing(r.source, r.layout.dir.as_str(), state, &r.previous) {
                    return (PreparePhase::Finished, PrepareOrder::Fail(e));
                }
            }
            if exists {
                (PreparePhase::Probing { exists: true }, PrepareOrder::Probe)
            } else {
                (PreparePhase::CreatingDir, PrepareOrder::CreateDir)
            }
        },
        (PreparePhase::CreatingDir, PrepareEvent::DirCreated(res)) => match res {
            Ok(()) => (PreparePhase::Probing { exists: false }, PrepareOrder::Probe),
            Err(e) => unusable_error(r, Unavailable::NotWritable(e)),
        },
        (PreparePhase::Probing { exists }, PrepareEvent::Probed(res)) => match res {
            Ok(()) => {
                if exists {
                    (PreparePhase::Opening, PrepareOrder::OpenExisting)
                } else {
                    (PreparePhase::Creating, PrepareOrder::CreateDatabase)
                }
            },
            Err(e) => unusable_error(r, Unavailable::NotWritable(e)),
        },
        (PreparePhase::Opening, PrepareEvent::Opened(res)) => match res {
            Ok(()) => opened_order(r, false),
            Err(why) => unusable_error(r, why),
        },
        (PreparePhase::Creating, PrepareEvent::Created(res)) => match res {
            Ok(()) => opened_order(r, true),
            Err(reason) => (
                PreparePhase::Finished,
                PrepareOrder::Fail(StartupError::CreateFailed { dir: r.layout.dir.clone(), reason }),
            ),
        },
        (PreparePhase::Recording { created }, PrepareEvent::Recorded(res)) => match res {
            Ok(()) => (
                PreparePhase::Finished,
                PrepareOrder::Done(
                    Prepared { source: r.source, layout: copy_layout(&r.layout), created },
                ),
            ),
            Err(e) => (PreparePhase::Finished, PrepareOrder::Fail(e)),
        },
        _ => (PreparePhase::Finished, PrepareOrder::Fail(StartupError::NoPrevious)),
    }
}

/// The shell reports that the database opened, or was created.
pub open spec fn succeeded(e: PrepareEventView) -> bool {
    match e {
        PrepareEventView::Opened(res) => res is Ok,
        PrepareEventView::Created(res) => res is Ok,
        _ => false,
    }
}

/// Nothing is recorded before the database opened: the order to write the
/// bootstrap comes only right after an open or a create succeeded, and only
/// for a folder the bootstrap decides. A new database is created only in a
/// directory proven writable.
pub proof fn law_the_choice_is_recorded_only_after_the_database_opened(
    phase: PreparePhase,
    r: ResolvedView,
    e: PrepareEventView,
)
    ensures
        prepare_next(phase, r, e).1 is Record ==> ((phase == PreparePhase::Opening
            && e is Opened) || (phase == PreparePhase::Creating && e is Created)) && succeeded(e)
            && (r.source == Source::System || r.source == Source::Custom),
        prepare_next(phase, r, e).1 == PrepareOrderView::CreateDatabase ==> phase
            == (PreparePhase::Probing { exists: false }),
{
}

/// The directory of an archive that must already be there is never
/// created when its database is missing: the launch fails and says why.
pub proof fn law_a_missing_archive_is_never_created(
    r: ResolvedView,
    exists: bool,
    state: DirState,
)
    requires
        r.creation == Creation::MustExist,
        !exists,
        state != DirState::Ready,
    ensures
        prepare_next(PreparePhase::Looking, r, PrepareEventView::Looked(exists, state)).1
            == unusable(r, why_unavailable(state).unwrap()).1,
{
}

} // verus!
