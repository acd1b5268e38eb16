//! The bootstrap: which data directory the user chose.
//!
//! `previous` is the choice before the last change, kept until the new one
//! has survived a launch, so a failed move can be undone from the error
//! screen. Portable mode is never written here.
use vstd::prelude::*;
use vstd::string::*;
use crate::desktop::error::{StartupError, StartupErrorView};
use crate::paths::{absolute, is_absolute, same_dir, same_place};

verus! {

/// The only format this build reads. A newer one was written by a newer
/// build; it is shown as an error and left alone rather than rewritten.
pub const BOOTSTRAP_VERSION: u32 = 1;

#[derive(Debug, Clone, Copy, PartialEq, Eq, Structural)]
pub enum StoredMode {
    /// `<app_local_data>/data`.
    System,
    /// An absolute directory the user picked.
    Custom,
}

/// One remembered choice of data directory.
#[derive(Debug, Clone, PartialEq, Eq)]
pub struct Choice {
    pub mode: StoredMode,
    /// Absolute for `custom`, none for `system`.
    pub data_dir: Option<String>,
}

/// [`Choice`] with its directory as characters.
pub struct ChoiceView {
    pub mode: StoredMode,
    pub data_dir: Option<Seq<char>>,
}

impl View for Choice {
    type V = ChoiceView;

    open spec fn view(&self) -> ChoiceView {
        ChoiceView {
            mode: self.mode,
            data_dir: match self.data_dir {
                Some(d) => Some(d@),
                None => None,
            },
        }
    }
}

/// Why a choice cannot be used as written, if it cannot.
pub open spec fn defect_of(c: ChoiceView) -> Option<Seq<char>> {
    match (c.mode, c.data_dir) {
        (StoredMode::System, None) => None,
        (StoredMode::System, Some(_)) => Some("mode \"system\" with a data_dir"@),
        (StoredMode::Custom, None) => Some("mode \"custom\" without a data_dir"@),
        (StoredMode::Custom, Some(d)) => if !is_absolute(d) {
            Some("data_dir is not absolute: "@ + d)
        } else {
            None
        },
    }
}

/// Two remembered choices are the same: the same mode, and directories that
/// name the same place.
pub open spec fn same_choice(a: ChoiceView, b: ChoiceView) -> bool {
    a.mode == b.mode && match (a.data_dir, b.data_dir) {
        (None, None) => true,
        (Some(x), Some(y)) => same_place(x, y),
        _ => false,
    }
}

impl Choice {
    pub fn system() -> (c: Self)
        ensures
            c.mode == StoredMode::System,
            c.data_dir is None,
    {
        Choice { mode: StoredMode::System, data_dir: None }
    }

    pub fn custom(dir: String) -> (c: Self)
        ensures
            c.mode == StoredMode::Custom,
            c.data_dir == Some(dir),
    {
        Choice { mode: StoredMode::Custom, data_dir: Some(dir) }
    }

    /// Why this choice cannot be used as written, if it cannot.
    pub fn defect(&self) -> (r: Option<String>)
        ensures
            match defect_of(self@) {
                None => r is None,
                Some(m) => r matches Some(s) && s@ == m,
            },
    {
        match (self.mode, &self.data_dir) {
            (StoredMode::System, None) => None,
            (StoredMode::System, Some(_)) => Some(String::from_str("mode \"system\" with a data_dir")),
            (StoredMode::Custom, None) => Some(String::from_str("mode \"custom\" without a data_dir")),
            // A relative path would be resolved against whatever the current
            // directory happens to be.
            (StoredMode::Custom, Some(d)) => if !absolute(d.as_str()) {
                let mut s = String::from_str("data_dir is not absolute: ");
                s.append(d.as_str());
                Some(s)
            } else {
                None
            },
        }
    }

    /// Whether two choices name the same mode and directory.
    pub fn same(&self, other: &Choice) -> (r: bool)
        ensures
            r == same_choice(self@, other@),
    {
        if self.mode != other.mode {
            return false;
        }
        match (&self.data_dir, &other.data_dir) {
            (None, None) => true,
            (Some(x), Some(y)) => same_dir(x.as_str(), y.as_str()),
            _ => false,
        }
    }

    /// The choice as it is to be remembered.
    pub fn copy(&self) -> (c: Choice)
        ensures
            c@ == self@,
    {
        Choice {
            mode: self.mode,
            data_dir: match &self.data_dir {
                Some(d) => Some(d.clone()),
                None => None,
            },
        }
    }
}

#[derive(Debug, Clone, PartialEq, Eq)]
pub struct Bootstrap {
    pub version: u32,
    pub current: Choice,
    pub previous: Option<Choice>,
}

/// [`Bootstrap`] with its directories as characters.
pub struct BootstrapView {
    pub version: u32,
    pub current: ChoiceView,
    pub previous: Option<ChoiceView>,
}

impl View for Bootstrap {
    type V = BootstrapView;

    open spec fn view(&self) -> BootstrapView {
        BootstrapView {
            version: self.version,
            current: self.current@,
            previous: match self.previous {
                Some(p) => Some(p@),
                None => None,
            },
        }
    }
}

impl Bootstrap {
    pub fn new(current: Choice, previous: Option<Choice>) -> (b: Self)
        ensures
            b.version == BOOTSTRAP_VERSION,
            b.current == current,
            b.previous == previous,
    {
        Bootstrap { version: BOOTSTRAP_VERSION, current, previous }
    }
}

/// The first defect among a bootstrap's choices: the current one, then the previous.
pub open spec fn bootstrap_defect(b: BootstrapView) -> Option<Seq<char>> {
    match defect_of(b.current) {
        Some(m) => Some(m),
        None => match b.previous {
            Some(p) => defect_of(p),
            None => None,
        },
    }
}

/// Why a bootstrap may not be read or written as it is, if it may not.
pub fn first_defect(b: &Bootstrap) -> (r: Option<String>)
    ensures
        match bootstrap_defect(b@) {
            None => r is None,
            Some(m) => r matches Some(s) && s@ == m,
        },
{
    match b.current.defect() {
        Some(d) => Some(d),
        None => match &b.previous {
            Some(p) => p.defect(),
            None => None,
        },
    }
}

/// What reading a bootstrap gives, from its stored `version` field and
/// `parsed`, what parsing it into a bootstrap gave (the parser's reason
/// when it failed): the version is looked at first, so a newer format with
/// fields this build does not know is reported as newer rather than as
/// corrupt; then a file that does not parse, or a defective choice, is
/// unreadable; none of these is ever taken for "no bootstrap".
pub open spec fn read_outcome(
    path: Seq<char>,
    version: Option<u64>,
    parsed: Result<BootstrapView, Seq<char>>,
) -> Result<BootstrapView, StartupErrorView> {
    match version {
        None => Err(StartupErrorView::BootstrapUnreadable { path, reason: "no version"@ }),
        Some(v) => if v != BOOTSTRAP_VERSION as u64 {
            Err(StartupErrorView::BootstrapUnsupported { path, version: v })
        } else {
            match parsed {
                Err(reason) => Err(StartupErrorView::BootstrapUnreadable { path, reason }),
                Ok(b) => match bootstrap_defect(b) {
                    Some(m) => Err(StartupErrorView::BootstrapUnreadable { path, reason: m }),
                    None => Ok(b),
                },
            }
        },
    }
}

/// A bootstrap outcome by its view.
pub open spec fn read_view(r: Result<Bootstrap, StartupError>) -> Result<BootstrapView, StartupErrorView> {
    match r {
        Ok(b) => Ok(b@),
        Err(e) => Err(e@),
    }
}

/// A parse outcome by its view.
pub open spec fn parsed_view(p: Result<Bootstrap, String>) -> Result<BootstrapView, Seq<char>> {
    match p {
        Ok(b) => Ok(b@),
        Err(e) => Err(e@),
    }
}

/// Checks a bootstrap read from `path`, whose stored version field is
/// `version` and whose parsing gave `parsed`: its version first, so a newer
/// format with fields this build does not know is reported as newer rather
/// than as corrupt, then whether it parsed, then each of its choices.
pub fn accept_read(path: &str, version: Option<u64>, parsed: Result<Bootstrap, String>) -> (r: Result<
    Bootstrap,
    StartupError,
>)
    ensures
        read_view(r) == read_outcome(path@, version, parsed_view(parsed)),
{
    match version {
        None => Err(StartupError::BootstrapUnreadable {
            path: String::from_str(path),
            reason: String::from_str("no version"),
        }),
        Some(v) => if v != BOOTSTRAP_VERSION as u64 {
            Err(StartupError::BootstrapUnsupported { path: String::from_str(path), version: v })
        } else {
            match parsed {
                Err(reason) => Err(StartupError::BootstrapUnreadable { path: String::from_str(path), reason }),
                Ok(b) => match first_defect(&b) {
                    Some(m) => Err(
                        StartupError::BootstrapUnreadable { path: String::from_str(path), reason: m },
                    ),
                    None => Ok(b),
                },
            }
        },
    }
}

/// Checks a bootstrap before it is written to `path`: a defective choice is
/// refused rather than written.
pub fn accept_write(path: &str, b: &Bootstrap) -> (r: Result<(), StartupError>)
    ensures
        match bootstrap_defect(b@) {
            None => r is Ok,
            Some(m) => r matches Err(e) && e@ == (StartupErrorView::BootstrapWrite {
                path: path@,
                reason: m,
            }),
        },
{
    match first_defect(b) {
        Some(m) => Err(StartupError::BootstrapWrite { path: String::from_str(path), reason: m }),
        None => Ok(()),
    }
}

/// What the writer accepts, the reader accepts back unchanged: a bootstrap
/// of this version whose choices are well formed is written, and read back
/// from what was written (its version field and the same value parsed) it
/// is the same bootstrap. One with a malformed choice is refused by both,
/// for the same reason.
pub proof fn law_what_is_written_is_read_back(path: Seq<char>, b: BootstrapView)
    requires
        b.version == BOOTSTRAP_VERSION,
    ensures
        bootstrap_defect(b) is None ==> read_outcome(path, Some(b.version as u64), Ok(b)) == Ok::<
            BootstrapView,
            StartupErrorView,
        >(b),
        bootstrap_defect(b) matches Some(m) ==> read_outcome(path, Some(b.version as u64), Ok(b))
            == Err::<BootstrapView, StartupErrorView>(
            StartupErrorView::BootstrapUnreadable { path, reason: m },
        ),
{
}

} // verus!
