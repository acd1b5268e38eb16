//! The window's own commands: which exist, which page may call which, and
//! what they answer.
use vstd::prelude::*;
use vstd::string::*;
use crate::desktop::layout::{DataLayout, SystemDirs};
use crate::paths::{same_dir, same_place};
use crate::desktop::relocate::DataSize;
use crate::desktop::resolve::Source;
use crate::text::chars_of;

verus! {

/// Commands the shared interface may call — from this launch's server
/// origin only.
pub const INTERFACE_COMMANDS: [&'static str; 5] = [
    "desktop_info",
    "pick_folder",
    "reveal_data_dir",
    "preview_data_dir_change",
    "change_data_dir",
];

/// Commands the bundled start-up error page may call: go back to the
/// previous data folder, or try again.
pub const ERROR_PAGE_COMMANDS: [&'static str; 2] = ["revert_data_dir", "restart_app"];

/// A command name with its underscores turned into dashes.
pub open spec fn dashed(s: Seq<char>) -> Seq<char> {
    s.map_values(|c: char| if c == '_' { '-' } else { c })
}

/// The permission Tauri generates for an app command.
pub fn permission(command: &str) -> (p: String)
    ensures
        p@ == "allow-"@ + dashed(command@),
{
    proof {
        reveal_strlit("-");
    }
    let cs = chars_of(command);
    let n = cs.len();
    let mut s = String::from_str("allow-");
    let mut last: usize = 0;
    let mut i: usize = 0;
    while i < n
        invariant
            n == cs@.len(),
            cs@ == command@,
            last <= i <= n,
            s@ == "allow-"@ + dashed(command@.subrange(0, last as int)),
            forall|k: int| last <= k < i ==> command@[k] != '_',
        decreases n - i,
    {
        if cs[i] == '_' {
            let ghost s0 = s@;
            let piece = command.substring_char(last, i);
            s.append(piece);
            s.append("-");
            proof {
                reveal_strlit("-");
                assert("-"@.len() == 1);
                assert("-"@[0] == '-');
                assert("-"@ =~= seq!['-']);
                assert(s@ =~= s0 + piece@ + seq!['-']);
                let a = command@.subrange(0, last as int);
                let b = command@.subrange(last as int, i as int);
                assert(dashed(b) =~= b);
                assert(command@.subrange(0, i + 1) =~= a + b + seq!['_']);
                assert(dashed(a + b + seq!['_']) =~= dashed(a) + dashed(b) + seq!['-']);
                assert(s@ =~= "allow-"@ + dashed(command@.subrange(0, i + 1)));
            }
            last = i + 1;
        }
        i = i + 1;
    }
    let piece = command.substring_char(last, n);
    s.append(piece);
    proof {
        let a = command@.subrange(0, last as int);
        let b = command@.subrange(last as int, n as int);
        assert(dashed(b) =~= b);
        assert(command@ =~= a + b);
        assert(dashed(a + b) =~= dashed(a) + dashed(b));
    }
    s
}

/// How a data-folder change is carried out.
#[derive(Debug, Clone, Copy, PartialEq, Eq, Structural)]
pub enum ChangeAction {
    /// Copy the current database and thumbnails there, then switch.
    Copy,
    /// Switch to the database already there; copy nothing.
    UseExisting,
}

/// What the settings screen shows about the data folder.
#[derive(Debug, Clone)]
pub struct DesktopInfo {
    pub source: Source,
    /// Whether the folder can be changed from the window: not in portable
    /// mode, not when given with `--data-dir`.
    pub can_change: bool,
    pub layout: DataLayout,
    /// `None` when it could not be measured; the screen says so.
    pub size: Option<DataSize>,
    pub available: Option<u64>,
    pub system_dir: String,
    /// A database left beside the program by the batch-file distribution,
    /// offered as "switch to it" — never picked up silently.
    pub legacy_dir: Option<String>,
}

/// The database beside the program that the settings screen offers: the
/// program's folder, when the folder can be changed at all, a database
/// file is there (`exe_has_db`, as the shell found it), and it is not the
/// data folder already.
pub open spec fn legacy_offer(
    exe_dir: Option<Seq<char>>,
    can_change: bool,
    exe_has_db: bool,
    data_dir: Seq<char>,
) -> Option<Seq<char>> {
    match exe_dir {
        Some(d) => if can_change && exe_has_db && !same_place(d, data_dir) {
            Some(d)
        } else {
            None
        },
        None => None,
    }
}

/// What the settings screen shows for the data folder `layout`, chosen by
/// `source`, from what the shell measured: its `size`, the `available`
/// space there, and whether a database file lies in the program's folder.
pub fn desktop_info(
    dirs: &SystemDirs,
    source: Source,
    layout: &DataLayout,
    size: Option<DataSize>,
    available: Option<u64>,
    exe_has_db: bool,
) -> (r: DesktopInfo)
    ensures
        r.source == source,
        r.can_change == (source == Source::System || source == Source::Custom),
        r.layout.dir@ == layout.dir@,
        r.layout.db@ == layout.db@,
        r.layout.thumbs@ == layout.thumbs@,
        r.size == size,
        r.available == available,
        r.system_dir@ == dirs.system_data_dir_spec(),
        match r.legacy_dir {
            Some(d) => Some(d@),
            None => None,
        } == legacy_offer(
            match dirs.exe_dir {
                Some(d) => Some(d@),
                None => None,
            },
            r.can_change,
            exe_has_db,
            layout.dir@,
        ),
{
    let can_change = matches!(source, Source::System | Source::Custom);
    let legacy_dir = match &dirs.exe_dir {
        Some(d) => {
            if can_change && exe_has_db && !same_dir(d.as_str(), layout.dir.as_str()) {
                Some(d.clone())
            } else {
                None
            }
        },
        None => None,
    };
    DesktopInfo {
        source,
        can_change,
        layout: DataLayout { dir: layout.dir.clone(), db: layout.db.clone(), thumbs: layout.thumbs.clone() },
        size,
        available,
        system_dir: dirs.system_data_dir(),
        legacy_dir,
    }
}

} // verus!
