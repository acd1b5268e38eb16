//! Moving the data folder: what a move needs, what can stop it, and how a
//! committed move is undone when the new process does not start.
use vstd::prelude::*;
use vstd::string::*;
use crate::desktop::bootstrap::{Bootstrap, BootstrapView, BOOTSTRAP_VERSION};
use crate::desktop::error::{StartupError, StartupErrorView};
use crate::desktop::resolve::{Source, boot_view};
use crate::desktop::layout::{DB_FILE, THUMBS_DIR};
use crate::paths::{absolute, is_absolute, join, join_path, same_dir, same_place};
use crate::desktop::bootstrap::{Choice, ChoiceView, StoredMode};

verus! {

/// Free space kept on top of the copy's own size.
pub const SPACE_MARGIN: u64 = 67108864;
/// The database copy while it is not yet proven.
pub const PARTIAL_DB: &'static str = "photo-cleanup.db.partial";
/// The thumbnail copy while it is not yet proven.
pub const PARTIAL_THUMBS: &'static str = "thumbs.partial";

/// How much there is to move.
#[derive(Debug, Clone, Copy, Default, PartialEq, Eq, Structural)]
pub struct DataSize {
    /// The database with its write-ahead log — what the snapshot reads.
    pub db_bytes: u64,
    pub thumbs_bytes: u64,
    pub thumbs_files: u64,
}

impl DataSize {
    /// Database and thumbnails together, stopping at the largest `u64`.
    pub open spec fn total_spec(&self) -> int {
        if self.db_bytes + self.thumbs_bytes > u64::MAX {
            u64::MAX as int
        } else {
            self.db_bytes + self.thumbs_bytes
        }
    }

    /// Database and thumbnails together, stopping at the largest `u64`.
    pub fn total(&self) -> (t: u64)
        ensures
            t == self.total_spec(),
    {
        self.db_bytes.saturating_add(self.thumbs_bytes)
    }
}

/// Why a folder cannot receive a copy.
#[derive(Debug, Clone, PartialEq, Eq)]
pub enum Blocker {
    /// A relative path: its meaning depends on where the app was started.
    RelativePath,
    /// It is the current data folder.
    SameFolder,
    /// It is inside the current data folder's thumbnail cache — the copy
    /// would copy into itself.
    InsideCurrent,
    /// It exists and is not a folder.
    NotADirectory,
    /// It already holds a database. Not overwritten.
    DatabaseExists,
    /// A SQLite companion name is occupied, even without the database.
    SidecarExists { path: String },
    /// It already holds a thumbnail cache. Not merged into.
    ThumbsExist,
    /// A `.partial` left there by something else — not ours to remove.
    LeftoverPartial { path: String },
    NotEnoughSpace { needed: u64, available: u64 },
    /// Free space could not be read.
    SpaceUnknown { reason: String },
    /// The data folder is fixed for this launch (portable marker or
    /// `--data-dir`); the bootstrap would not be read.
    ModeFixed { source: Source },
}

/// What moving to `to` would do, and whether it may.
#[derive(Debug, Clone)]
pub struct MovePreview {
    pub from: String,
    pub to: String,
    pub size: DataSize,
    /// The copy's size plus [`SPACE_MARGIN`].
    pub needed: u64,
    pub available: Option<u64>,
    /// Empty: the copy may go ahead.
    pub blockers: Vec<Blocker>,
    /// The blockers in words, in the interface's language, for the screen.
    pub reasons: Vec<String>,
    /// The target holds a database one could switch to instead.
    pub existing_database: bool,
}

#[derive(Debug)]
#[allow(inconsistent_fields)]
pub enum RelocateError {
    /// The preview found a reason not to (it is repeated right before copying).
    Blocked { blockers: Vec<Blocker> },
    /// Another process is writing to the source database.
    Locked { reason: String },
    /// Reading the source or writing the target failed.
    Copy { reason: String },
    /// The copy was made but is not the same data.
    Verify { reason: String },
    /// Recording the new folder failed; the old one is still the chosen one.
    Startup { error: StartupError },
    /// The run failed with `error`, and its cleanup could not remove all it
    /// had created. `left` names each leftover and why.
    Cleanup { error: Box<RelocateError>, left: Vec<String> },
}

/// The bootstrap that undoes a committed move: the previous choice again,
/// with nothing before it.
pub open spec fn rollback_spec(boot: Result<Option<BootstrapView>, StartupErrorView>) -> Result<
    BootstrapView,
    StartupErrorView,
> {
    match boot {
        Err(e) => Err(e),
        Ok(Some(b)) => match b.previous {
            Some(p) => Ok(BootstrapView { version: BOOTSTRAP_VERSION, current: p, previous: None }),
            None => Err(StartupErrorView::NoPrevious),
        },
        Ok(None) => Err(StartupErrorView::NoPrevious),
    }
}

/// What to write back when the replacement process could not be started:
/// `boot` is what reading the bootstrap gave.
pub fn rollback_bootstrap(boot: Result<Option<Bootstrap>, StartupError>) -> (r: Result<
    Bootstrap,
    StartupError,
>)
    ensures
        match r {
            Ok(b) => rollback_spec(boot_view(boot)) == Ok::<BootstrapView, StartupErrorView>(b@),
            Err(e) => rollback_spec(boot_view(boot)) == Err::<BootstrapView, StartupErrorView>(e@),
        },
{
    match boot {
        Err(e) => Err(e),
        Ok(Some(b)) => match b.previous {
            Some(p) => Ok(Bootstrap::new(p, None)),
            None => Err(StartupError::NoPrevious),
        },
        Ok(None) => Err(StartupError::NoPrevious),
    }
}

/// The outcome of a restart after a committed move: fine when the new
/// process started; otherwise its error, and, when restoring the previous
/// bootstrap failed too, why.
pub open spec fn restart_outcome(restart: Result<(), Seq<char>>, rollback: Result<(), Seq<char>>) -> Result<
    (),
    Seq<char>,
> {
    match restart {
        Ok(()) => Ok(()),
        Err(error) => match rollback {
            Ok(()) => Err(error),
            Err(why) => Err(error + "; cannot restore the previous bootstrap: "@ + why),
        },
    }
}

/// Decides what a restart after a committed move comes to. `restart` is
/// whether the replacement process was started; `rollback` whether writing
/// [`rollback_bootstrap`]'s answer back succeeded (looked at only when the
/// restart failed).
pub fn restart_or_restore(restart: Result<(), String>, rollback: Result<(), String>) -> (r: Result<
    (),
    String,
>)
    ensures
        match r {
            Ok(()) => restart_outcome(
                match restart {
                    Ok(()) => Ok(()),
                    Err(e) => Err(e@),
                },
                match rollback {
                    Ok(()) => Ok(()),
                    Err(e) => Err(e@),
                },
            ) == Ok::<(), Seq<char>>(()),
            Err(m) => restart_outcome(
                match restart {
                    Ok(()) => Ok(()),
                    Err(e) => Err(e@),
                },
                match rollback {
                    Ok(()) => Ok(()),
                    Err(e) => Err(e@),
                },
            ) == Err::<(), Seq<char>>(m@),
        },
{
    match restart {
        Ok(()) => Ok(()),
        Err(error) => match rollback {
            Ok(()) => Err(error),
            Err(why) => {
                let mut m = error;
                m.append("; cannot restore the previous bootstrap: ");
                m.append(why.as_str());
                Err(m)
            },
        },
    }
}


/// The names SQLite gives a database's companions: the name with these added.
pub open spec fn sidecar_suffix(k: int) -> Seq<char> {
    if k == 0 {
        "-wal"@
    } else if k == 1 {
        "-shm"@
    } else {
        "-journal"@
    }
}

fn sidecar_suffix_text(k: usize) -> (r: &'static str)
    requires
        k < 3,
    ensures
        r@ == sidecar_suffix(k as int),
{
    if k == 0 {
        "-wal"
    } else if k == 1 {
        "-shm"
    } else {
        "-journal"
    }
}

/// The names an unfinished copy by an earlier version may have left in
/// `target`: the database and thumbnail copies, and the database copy's
/// SQLite companions.
pub open spec fn partial_path(target: Seq<char>, k: int) -> Seq<char> {
    if k == 0 {
        join_path(target, PARTIAL_DB@)
    } else if k == 1 {
        join_path(target, PARTIAL_THUMBS@)
    } else {
        join_path(target, PARTIAL_DB@) + sidecar_suffix(k - 2)
    }
}

/// What the file system says about a move's target, looked at before
/// anything is decided.
#[derive(Debug)]
pub struct TargetFacts {
    /// The target is the current data folder, both resolved.
    pub same_folder: bool,
    /// The target lies inside the current thumbnail cache, its nearest
    /// existing ancestor resolved.
    pub inside_current: bool,
    /// Something is at the target's name, a dangling link too.
    pub occupied: bool,
    pub is_dir: bool,
    /// Something is at the database's name in the target.
    pub database: bool,
    /// Something is at each of the database's companion names, in the order
    /// `-wal`, `-shm`, `-journal`.
    pub sidecars: [bool; 3],
    /// Something is at the thumbnail cache's name in the target.
    pub thumbs: bool,
    /// Something is at each name of [`partial_path`], in order.
    pub partials: [bool; 5],
    /// The free space there, or why it could not be read.
    pub available: Result<u64, String>,
}

/// [`Blocker`] with its texts as characters.
pub enum BlockerView {
    RelativePath,
    SameFolder,
    InsideCurrent,
    NotADirectory,
    DatabaseExists,
    SidecarExists(Seq<char>),
    ThumbsExist,
    LeftoverPartial(Seq<char>),
    NotEnoughSpace(u64, u64),
    SpaceUnknown(Seq<char>),
    ModeFixed(Source),
}

impl View for Blocker {
    type V = BlockerView;

    open spec fn view(&self) -> BlockerView {
        match self {
            Blocker::RelativePath => BlockerView::RelativePath,
            Blocker::SameFolder => BlockerView::SameFolder,
            Blocker::InsideCurrent => BlockerView::InsideCurrent,
            Blocker::NotADirectory => BlockerView::NotADirectory,
            Blocker::DatabaseExists => BlockerView::DatabaseExists,
            Blocker::SidecarExists { path } => BlockerView::SidecarExists(path@),
            Blocker::ThumbsExist => BlockerView::ThumbsExist,
            Blocker::LeftoverPartial { path } => BlockerView::LeftoverPartial(path@),
            Blocker::NotEnoughSpace { needed, available } => BlockerView::NotEnoughSpace(
                *needed,
                *available,
            ),
            Blocker::SpaceUnknown { reason } => BlockerView::SpaceUnknown(reason@),
            Blocker::ModeFixed { source } => BlockerView::ModeFixed(*source),
        }
    }
}

/// `b` when `cond` holds, else nothing.
pub open spec fn when(cond: bool, b: BlockerView) -> Seq<BlockerView> {
    if cond {
        seq![b]
    } else {
        Seq::empty()
    }
}

/// The companions found, from the `k`-th on.
pub open spec fn sidecar_blockers(target: Seq<char>, found: Seq<bool>, k: int) -> Seq<BlockerView>
    decreases 3 - k,
{
    if k >= 3 {
        Seq::empty()
    } else {
        when(
            found[k],
            BlockerView::SidecarExists(join_path(target, DB_FILE@) + sidecar_suffix(k)),
        ) + sidecar_blockers(target, found, k + 1)
    }
}

/// The leftover copies found, from the `k`-th on.
pub open spec fn partial_blockers(target: Seq<char>, found: Seq<bool>, k: int) -> Seq<BlockerView>
    decreases 5 - k,
{
    if k >= 5 {
        Seq::empty()
    } else {
        when(found[k], BlockerView::LeftoverPartial(partial_path(target, k))) + partial_blockers(
            target,
            found,
            k + 1,
        )
    }
}

/// Whether the target can be looked into: an absolute path, not the
/// current folder nor inside its thumbnails, and a folder if anything.
pub open spec fn target_open(target: Seq<char>, f: TargetFacts) -> bool {
    is_absolute(target) && !f.same_folder && !f.inside_current && !(f.occupied && !f.is_dir)
}

/// Every reason not to move the data folder to `target`, in the order they
/// are reported, for a copy that needs `needed` bytes.
pub open spec fn move_blockers_spec(
    source: Source,
    target: Seq<char>,
    f: TargetFacts,
    needed: u64,
) -> Seq<BlockerView> {
    let fixed = when(
        source == Source::Portable || source == Source::Override,
        BlockerView::ModeFixed(source),
    );
    let rest = if !is_absolute(target) {
        seq![BlockerView::RelativePath]
    } else if f.same_folder {
        seq![BlockerView::SameFolder]
    } else if f.inside_current {
        seq![BlockerView::InsideCurrent]
    } else if f.occupied && !f.is_dir {
        seq![BlockerView::NotADirectory]
    } else {
        when(f.database, BlockerView::DatabaseExists) + sidecar_blockers(target, f.sidecars@, 0)
            + when(f.thumbs, BlockerView::ThumbsExist) + partial_blockers(target, f.partials@, 0)
            + match f.available {
            Ok(a) => when(a < needed, BlockerView::NotEnoughSpace(needed, a)),
            Err(e) => seq![BlockerView::SpaceUnknown(e@)],
        }
    };
    fixed + rest
}

fn push_when(out: &mut Vec<Blocker>, cond: bool, b: Blocker)
    ensures
        final(out)@.map_values(|x: Blocker| x@) == old(out)@.map_values(|x: Blocker| x@) + when(
            cond,
            b@,
        ),
{
    let ghost before = out@;
    if cond {
        out.push(b);
        assert(out@.map_values(|x: Blocker| x@) =~= before.map_values(|x: Blocker| x@) + seq![b@]);
    } else {
        assert(out@.map_values(|x: Blocker| x@) =~= before.map_values(|x: Blocker| x@) + Seq::<
            BlockerView,
        >::empty());
    }
}

/// What stops moving the data folder to `target`, given what the file
/// system says of it, and how much room the copy needs: its size and
/// [`SPACE_MARGIN`], stopping at the largest `u64`. Also the free space,
/// when it was looked at and could be read.
pub fn move_blockers(source: Source, target: &str, size: DataSize, facts: &TargetFacts) -> (r: (
    Vec<Blocker>,
    u64,
    Option<u64>,
))
    ensures
        r.1 == if size.total_spec() + SPACE_MARGIN > u64::MAX {
            u64::MAX as int
        } else {
            size.total_spec() + SPACE_MARGIN
        },
        r.0@.map_values(|x: Blocker| x@) == move_blockers_spec(source, target@, *facts, r.1),
        r.2 == match facts.available {
            Ok(a) => if target_open(target@, *facts) {
                Some(a)
            } else {
                None
            },
            Err(_) => None,
        },
{
    let needed = size.total().saturating_add(SPACE_MARGIN);
    let mut out: Vec<Blocker> = Vec::new();
    let mut free: Option<u64> = None;
    push_when(
        &mut out,
        matches!(source, Source::Portable | Source::Override),
        Blocker::ModeFixed { source },
    );
    let ghost fixed = out@.map_values(|x: Blocker| x@);
    if !absolute(target) {
        out.push(Blocker::RelativePath);
    } else if facts.same_folder {
        out.push(Blocker::SameFolder);
    } else if facts.inside_current {
        out.push(Blocker::InsideCurrent);
    } else if facts.occupied && !facts.is_dir {
        out.push(Blocker::NotADirectory);
    } else {
        push_when(&mut out, facts.database, Blocker::DatabaseExists);
        let db = join(target, DB_FILE);
        let mut k: usize = 0;
        let ghost mid = out@.map_values(|x: Blocker| x@);
        while k < 3
            invariant
                k <= 3,
                db@ == join_path(target@, DB_FILE@),
                out@.map_values(|x: Blocker| x@) + sidecar_blockers(target@, facts.sidecars@, k as int)
                    == mid + sidecar_blockers(target@, facts.sidecars@, 0),
            decreases 3 - k,
        {
            let mut path = db.clone();
            path.append(sidecar_suffix_text(k));
            let ghost before = out@.map_values(|x: Blocker| x@);
            push_when(&mut out, facts.sidecars[k], Blocker::SidecarExists { path });
            proof {
                assert(before + sidecar_blockers(target@, facts.sidecars@, k as int) =~= before
                    + when(facts.sidecars@[k as int], BlockerView::SidecarExists(join_path(target@, DB_FILE@) + sidecar_suffix(k as int)))
                    + sidecar_blockers(target@, facts.sidecars@, k + 1));
            }
            k = k + 1;
        }
        push_when(&mut out, facts.thumbs, Blocker::ThumbsExist);
        let partial_db = join(target, PARTIAL_DB);
        let mut k: usize = 0;
        let ghost mid = out@.map_values(|x: Blocker| x@);
        while k < 5
            invariant
                k <= 5,
                partial_db@ == join_path(target@, PARTIAL_DB@),
                out@.map_values(|x: Blocker| x@) + partial_blockers(target@, facts.partials@, k as int)
                    == mid + partial_blockers(target@, facts.partials@, 0),
            decreases 5 - k,
        {
            let path = if k == 0 {
                partial_db.clone()
            } else if k == 1 {
                join(target, PARTIAL_THUMBS)
            } else {
                let mut p = partial_db.clone();
                p.append(sidecar_suffix_text(k - 2));
                p
            };
            assert(path@ == partial_path(target@, k as int));
            let ghost before = out@.map_values(|x: Blocker| x@);
            push_when(&mut out, facts.partials[k], Blocker::LeftoverPartial { path });
            proof {
                assert(before + partial_blockers(target@, facts.partials@, k as int) =~= before
                    + when(facts.partials@[k as int], BlockerView::LeftoverPartial(partial_path(target@, k as int)))
                    + partial_blockers(target@, facts.partials@, k + 1));
            }
            k = k + 1;
        }
        match &facts.available {
            Ok(a) => {
                free = Some(*a);
                push_when(&mut out, *a < needed, Blocker::NotEnoughSpace { needed, available: *a });
            },
            Err(e) => {
                let ghost before = out@;
                out.push(Blocker::SpaceUnknown { reason: e.clone() });
                assert(out@.map_values(|x: Blocker| x@) =~= before.map_values(|x: Blocker| x@) + seq![BlockerView::SpaceUnknown(e@)]);
            },
        }
    }
    proof {
        assert(out@.map_values(|x: Blocker| x@) =~= move_blockers_spec(source, target@, *facts, needed));
    }
    (out, needed, free)
}


/// Every name of [`partial_path`] in `target`, in order.
pub fn legacy_partials(target: &str) -> (r: Vec<String>)
    ensures
        r@.len() == 5,
        forall|k: int| 0 <= k < 5 ==> #[trigger] r@[k]@ == partial_path(target@, k),
{
    let partial_db = join(target, PARTIAL_DB);
    let mut out: Vec<String> = Vec::new();
    let mut k: usize = 0;
    while k < 5
        invariant
            k <= 5,
            out@.len() == k,
            partial_db@ == join_path(target@, PARTIAL_DB@),
            forall|i: int| 0 <= i < k ==> #[trigger] out@[i]@ == partial_path(target@, i),
        decreases 5 - k,
    {
        let path = if k == 0 {
            partial_db.clone()
        } else if k == 1 {
            join(target, PARTIAL_THUMBS)
        } else {
            let mut p = partial_db.clone();
            p.append(sidecar_suffix_text(k - 2));
            p
        };
        out.push(path);
        k = k + 1;
    }
    out
}

/// The companions an earlier version's database copy may have left in
/// `target`, found where `found` says so, in the order `-wal`, `-shm`,
/// `-journal`. Each is a [`Blocker::LeftoverPartial`]; none means go on.
pub fn reject_legacy_sidecars(target: &str, found: [bool; 3]) -> (r: Result<(), RelocateError>)
    ensures
        !(found@[0] || found@[1] || found@[2]) <==> r is Ok,
        r matches Err(e) ==> e matches RelocateError::Blocked { blockers } && blockers@.map_values(
            |x: Blocker| x@,
        ) == partial_blockers(target@, seq![false, false] + found@, 2),
{
    let partial_db = join(target, PARTIAL_DB);
    let ghost all = seq![false, false] + found@;
    let mut out: Vec<Blocker> = Vec::new();
    let mut k: usize = 0;
    while k < 3
        invariant
            k <= 3,
            all == seq![false, false] + found@,
            partial_db@ == join_path(target@, PARTIAL_DB@),
            out@.map_values(|x: Blocker| x@) + partial_blockers(target@, all, k + 2)
                == partial_blockers(target@, all, 2),
            out@.len() == 0 <==> !(exists|i: int| 0 <= i < k && found@[i]),
        decreases 3 - k,
    {
        let mut path = partial_db.clone();
        path.append(sidecar_suffix_text(k));
        assert(path@ == partial_path(target@, k + 2));
        let ghost before = out@.map_values(|x: Blocker| x@);
        push_when(&mut out, found[k], Blocker::LeftoverPartial { path });
        proof {
            assert(all[k + 2] == found@[k as int]);
            assert(before + partial_blockers(target@, all, k + 2) =~= before + when(
                all[k + 2],
                BlockerView::LeftoverPartial(partial_path(target@, k + 2)),
            ) + partial_blockers(target@, all, k + 3));
            assert(out@.len() == out@.map_values(|x: Blocker| x@).len());
        }
        k = k + 1;
    }
    proof {
        assert(partial_blockers(target@, all, 5) =~= Seq::<BlockerView>::empty());
        assert(out@.map_values(|x: Blocker| x@) =~= partial_blockers(target@, all, 2));
        if found@[0] || found@[1] || found@[2] {
            let i: int = if found@[0] { 0 } else if found@[1] { 1 } else { 2 };
            assert(0 <= i < 3 && found@[i]);
        }
    }
    if out.len() == 0 {
        Ok(())
    } else {
        Err(RelocateError::Blocked { blockers: out })
    }
}

/// The choice in effect, as the bootstrap should remember it: none can be
/// remembered when the folder is fixed for this launch; otherwise what the
/// bootstrap names now, or the system folder when there is no bootstrap.
pub open spec fn current_choice_spec(
    source: Source,
    stored: Result<Option<BootstrapView>, StartupErrorView>,
) -> Option<Result<ChoiceView, StartupErrorView>> {
    if source == Source::Portable || source == Source::Override {
        None
    } else {
        Some(
            match stored {
                Err(e) => Err(e),
                Ok(Some(b)) => Ok(b.current),
                Ok(None) => Ok(ChoiceView { mode: StoredMode::System, data_dir: None }),
            },
        )
    }
}

/// The bootstrap that records a move to `target`: the target as the new
/// choice (the system folder by that name when it is the system folder),
/// and the choice in effect before it as `previous`. `stored` is what
/// reading the bootstrap gave. Refused when the folder is fixed for this
/// launch; a bootstrap that could not be read is that error.
pub fn commit_bootstrap(
    source: Source,
    stored: Result<Option<Bootstrap>, StartupError>,
    target: &str,
    system_dir: &str,
) -> (r: Result<Bootstrap, RelocateError>)
    ensures
        match current_choice_spec(source, boot_view(stored)) {
            None => r matches Err(RelocateError::Blocked { blockers }) && blockers@.map_values(
                |x: Blocker| x@,
            ) == seq![BlockerView::ModeFixed(source)],
            Some(Err(e)) => r matches Err(RelocateError::Startup { error }) && error@ == e,
            Some(Ok(current)) => r matches Ok(b) && b@ == BootstrapView {
                version: BOOTSTRAP_VERSION,
                current: if same_place(target@, system_dir@) {
                    ChoiceView { mode: StoredMode::System, data_dir: None }
                } else {
                    ChoiceView { mode: StoredMode::Custom, data_dir: Some(target@) }
                },
                previous: Some(current),
            },
        },
{
    if matches!(source, Source::Portable | Source::Override) {
        let blockers = vec![Blocker::ModeFixed { source }];
        assert(blockers@.map_values(|x: Blocker| x@) =~= seq![BlockerView::ModeFixed(source)]);
        return Err(RelocateError::Blocked { blockers });
    }
    let current = match stored {
        Err(error) => return Err(RelocateError::Startup { error }),
        Ok(Some(b)) => b.current,
        Ok(None) => Choice::system(),
    };
    let next = if same_dir(target, system_dir) {
        Choice::system()
    } else {
        Choice::custom(String::from_str(target))
    };
    Ok(Bootstrap::new(next, Some(current)))
}

} // verus!
