//! Why a launch cannot go ahead.
//!
//! Every variant is a screen in the shell, not a log line: the app has no
//! console.
use vstd::prelude::*;
use crate::desktop::bootstrap::{Choice, ChoiceView};
use crate::desktop::resolve::Source;
use crate::desktop::layout::DB_FILE;
use crate::lang::{pick, Lang};
use crate::text::{digits, digits_text};
use vstd::string::*;

verus! {

/// What is wrong with a data directory that should hold an archive.
#[derive(Debug, Clone, PartialEq, Eq)]
pub enum Unavailable {
    /// The directory is not there — typically an unplugged drive.
    Missing,
    NotADirectory,
    /// The directory is there, the database is not.
    NoDatabase,
    /// Something is at the database path but SQLite cannot use it.
    NotADatabase(String),
    /// The directory or database cannot be written.
    NotWritable(String),
}

/// [`Unavailable`] with its texts as characters.
pub enum UnavailableView {
    Missing,
    NotADirectory,
    NoDatabase,
    NotADatabase(Seq<char>),
    NotWritable(Seq<char>),
}

impl View for Unavailable {
    type V = UnavailableView;

    open spec fn view(&self) -> UnavailableView {
        match self {
            Unavailable::Missing => UnavailableView::Missing,
            Unavailable::NotADirectory => UnavailableView::NotADirectory,
            Unavailable::NoDatabase => UnavailableView::NoDatabase,
            Unavailable::NotADatabase(s) => UnavailableView::NotADatabase(s@),
            Unavailable::NotWritable(s) => UnavailableView::NotWritable(s@),
        }
    }
}

#[derive(Debug, Clone, PartialEq, Eq)]
pub enum StartupError {
    /// The bootstrap exists but cannot be read or understood. It is left
    /// exactly as it is.
    BootstrapUnreadable { path: String, reason: String },
    /// Written by a newer build. Left alone.
    BootstrapUnsupported { path: String, version: u64 },
    BootstrapWrite { path: String, reason: String },
    /// The data directory this launch must use cannot be used. `previous`
    /// is offered as "go back" when the bootstrap remembers one.
    DataUnavailable { source: Source, dir: String, why: Unavailable, previous: Option<Choice> },
    /// A folder picked for a new archive already holds one. It is never
    /// overwritten; switching to it is a separate, explicit action.
    DatabaseExists { dir: String },
    /// A folder picked for the data must be given as an absolute path.
    RelativePath { path: String },
    /// Portable mode decides the data directory; a choice in the user
    /// profile would be silently ignored, so it is refused instead.
    PortableActive { marker: String },
    /// "Go back" was asked for with nothing to go back to.
    NoPrevious,
    /// Creating a new database failed.
    CreateFailed { dir: String, reason: String },
}

/// [`StartupError`] with its texts as characters.
pub enum StartupErrorView {
    BootstrapUnreadable { path: Seq<char>, reason: Seq<char> },
    BootstrapUnsupported { path: Seq<char>, version: u64 },
    BootstrapWrite { path: Seq<char>, reason: Seq<char> },
    DataUnavailable {
        source: Source,
        dir: Seq<char>,
        why: UnavailableView,
        previous: Option<ChoiceView>,
    },
    DatabaseExists { dir: Seq<char> },
    RelativePath { path: Seq<char> },
    PortableActive { marker: Seq<char> },
    NoPrevious,
    CreateFailed { dir: Seq<char>, reason: Seq<char> },
}

/// A remembered choice, if any, by its view.
pub open spec fn choice_opt_view(c: Option<Choice>) -> Option<ChoiceView> {
    match c {
        Some(c) => Some(c@),
        None => None,
    }
}

impl View for StartupError {
    type V = StartupErrorView;

    open spec fn view(&self) -> StartupErrorView {
        match self {
            StartupError::BootstrapUnreadable { path, reason } => StartupErrorView::BootstrapUnreadable {
                path: path@,
                reason: reason@,
            },
            StartupError::BootstrapUnsupported { path, version } => StartupErrorView::BootstrapUnsupported {
                path: path@,
                version: *version,
            },
            StartupError::BootstrapWrite { path, reason } => StartupErrorView::BootstrapWrite {
                path: path@,
                reason: reason@,
            },
            StartupError::DataUnavailable { source, dir, why, previous } => StartupErrorView::DataUnavailable {
                source: *source,
                dir: dir@,
                why: why@,
                previous: choice_opt_view(*previous),
            },
            StartupError::DatabaseExists { dir } => StartupErrorView::DatabaseExists { dir: dir@ },
            StartupError::RelativePath { path } => StartupErrorView::RelativePath { path: path@ },
            StartupError::PortableActive { marker } => StartupErrorView::PortableActive {
                marker: marker@,
            },
            StartupError::NoPrevious => StartupErrorView::NoPrevious,
            StartupError::CreateFailed { dir, reason } => StartupErrorView::CreateFailed {
                dir: dir@,
                reason: reason@,
            },
        }
    }
}

/// How [`Unavailable`] reads in `lang`.
pub open spec fn unavailable_text(u: UnavailableView, lang: Lang) -> Seq<char> {
    match u {
        UnavailableView::Missing => pick(lang, "папки нет"@, "the folder does not exist"@),
        UnavailableView::NotADirectory => pick(lang, "это не папка"@, "it is not a folder"@),
        UnavailableView::NoDatabase => pick(lang, "в папке нет "@, "there is no "@) + DB_FILE@
            + pick(lang, ""@, " in it"@),
        UnavailableView::NotADatabase(r) => pick(
            lang,
            "база не открывается: "@,
            "the database cannot be opened: "@,
        ) + r,
        UnavailableView::NotWritable(r) => pick(lang, "нет доступа на запись: "@, "cannot write there: "@)
            + r,
    }
}

/// How [`StartupError`] reads in `lang`.
pub open spec fn startup_text(e: StartupErrorView, lang: Lang) -> Seq<char> {
    match e {
        StartupErrorView::BootstrapUnreadable { path, reason } => pick(
            lang,
            "не читается файл настроек "@,
            "cannot read the settings file "@,
        ) + path + ": "@ + reason,
        StartupErrorView::BootstrapUnsupported { path, version } => pick(
            lang,
            "файл настроек "@,
            "the settings file "@,
        ) + path + pick(
            lang,
            " записан более новой версией (формат "@,
            " was written by a newer version (format "@,
        ) + digits(version as nat) + ")"@,
        StartupErrorView::BootstrapWrite { path, reason } => pick(
            lang,
            "не записать файл настроек "@,
            "cannot write the settings file "@,
        ) + path + ": "@ + reason,
        StartupErrorView::DataUnavailable { dir, why, .. } => pick(
            lang,
            "данные недоступны: "@,
            "data unavailable: "@,
        ) + dir + " — "@ + unavailable_text(why, lang),
        StartupErrorView::DatabaseExists { dir } => pick(lang, "в "@, ""@) + dir + pick(
            lang,
            " уже есть база; она не перезаписывается"@,
            " already holds a database; it is not overwritten"@,
        ),
        StartupErrorView::RelativePath { path } => pick(
            lang,
            "нужен полный путь, а не "@,
            "a full path is needed, not "@,
        ) + path,
        StartupErrorView::PortableActive { marker } => pick(
            lang,
            "включён переносной режим ("@,
            "portable mode is on ("@,
        ) + marker + pick(
            lang,
            "); папка данных — рядом с программой"@,
            "); the data folder is next to the program"@,
        ),
        StartupErrorView::NoPrevious => pick(
            lang,
            "прежней папки данных нет"@,
            "there is no previous data folder"@,
        ),
        StartupErrorView::CreateFailed { dir, reason } => pick(
            lang,
            "не создать базу в "@,
            "cannot create a database in "@,
        ) + dir + ": "@ + reason,
    }
}

impl Unavailable {
    /// What the error page says of this, in `lang`.
    pub fn message(&self, lang: Lang) -> (r: String)
        ensures
            r@ == unavailable_text(self@, lang),
    {
        match self {
            Unavailable::Missing => String::from_str(lang.say("папки нет", "the folder does not exist")),
            Unavailable::NotADirectory => String::from_str(lang.say("это не папка", "it is not a folder")),
            Unavailable::NoDatabase => {
                let mut s = String::from_str(lang.say("в папке нет ", "there is no "));
                s.append(DB_FILE);
                s.append(lang.say("", " in it"));
                s
            },
            Unavailable::NotADatabase(r) => {
                let mut s = String::from_str(
                    lang.say("база не открывается: ", "the database cannot be opened: "),
                );
                s.append(r.as_str());
                s
            },
            Unavailable::NotWritable(r) => {
                let mut s = String::from_str(lang.say("нет доступа на запись: ", "cannot write there: "));
                s.append(r.as_str());
                s
            },
        }
    }
}

fn joined(a: &str, b: &str, c: &str, d: &str) -> (r: String)
    ensures
        r@ == a@ + b@ + c@ + d@,
{
    let mut s = String::from_str(a);
    s.append(b);
    s.append(c);
    s.append(d);
    s
}

impl StartupError {
    /// What the error page says of this, in `lang`.
    pub fn message(&self, lang: Lang) -> (r: String)
        ensures
            r@ == startup_text(self@, lang),
    {
        proof {
            reveal_strlit("");
        }
        match self {
            StartupError::BootstrapUnreadable { path, reason } => joined(
                lang.say("не читается файл настроек ", "cannot read the settings file "),
                path.as_str(),
                ": ",
                reason.as_str(),
            ),
            StartupError::BootstrapUnsupported { path, version } => {
                let v = digits_text(*version);
                let mut s = joined(
                    lang.say("файл настроек ", "the settings file "),
                    path.as_str(),
                    lang.say(
                        " записан более новой версией (формат ",
                        " was written by a newer version (format ",
                    ),
                    v.as_str(),
                );
                s.append(")");
                s
            },
            StartupError::BootstrapWrite { path, reason } => joined(
                lang.say("не записать файл настроек ", "cannot write the settings file "),
                path.as_str(),
                ": ",
                reason.as_str(),
            ),
            StartupError::DataUnavailable { dir, why, .. } => {
                let w = why.message(lang);
                joined(lang.say("данные недоступны: ", "data unavailable: "), dir.as_str(), " — ", w.as_str())
            },
            StartupError::DatabaseExists { dir } => joined(
                lang.say("в ", ""),
                dir.as_str(),
                lang.say(
                    " уже есть база; она не перезаписывается",
                    " already holds a database; it is not overwritten",
                ),
                "",
            ),
            StartupError::RelativePath { path } => joined(
                lang.say("нужен полный путь, а не ", "a full path is needed, not "),
                path.as_str(),
                "",
                "",
            ),
            StartupError::PortableActive { marker } => joined(
                lang.say("включён переносной режим (", "portable mode is on ("),
                marker.as_str(),
                lang.say(
                    "); папка данных — рядом с программой",
                    "); the data folder is next to the program",
                ),
                "",
            ),
            StartupError::NoPrevious => String::from_str(
                lang.say("прежней папки данных нет", "there is no previous data folder"),
            ),
            StartupError::CreateFailed { dir, reason } => joined(
                lang.say("не создать базу в ", "cannot create a database in "),
                dir.as_str(),
                ": ",
                reason.as_str(),
            ),
        }
    }
}

} // verus!
