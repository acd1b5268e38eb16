//! The per-user directories and the files of one data directory.
use vstd::prelude::*;
use vstd::string::*;
use crate::paths::{join, join_path};

verus! {

/// Tauri's identifier, and therefore the name of the per-user directory.
pub const APP_ID: &'static str = "io.github.imcitius.photo-cleanup";
/// The bootstrap file, inside the per-user app directory.
pub const BOOTSTRAP_FILE: &'static str = "desktop.json";
/// Present next to the executable, it asks for portable mode (Windows only).
pub const PORTABLE_MARKER: &'static str = "photo-cleanup.portable";
/// The database file inside a data directory.
pub const DB_FILE: &'static str = "photo-cleanup.db";
/// The thumbnail cache inside a data directory.
pub const THUMBS_DIR: &'static str = "thumbs";
/// The data directory under the per-user app directory, and under the
/// executable's directory in portable mode.
pub const DATA_SUBDIR: &'static str = "data";

/// What the operating system says about where things are.
#[derive(Debug, Clone)]
pub struct SystemDirs {
    /// The per-user local application directory.
    pub app_local_data: String,
    /// The directory holding the executable, if known. Only ever read,
    /// except in explicit portable mode.
    pub exe_dir: Option<String>,
    /// Whether the portable marker is honoured: on Windows only.
    pub portable_supported: bool,
}

impl SystemDirs {
    pub open spec fn bootstrap_path_spec(&self) -> Seq<char> {
        join_path(self.app_local_data@, BOOTSTRAP_FILE@)
    }

    pub open spec fn system_data_dir_spec(&self) -> Seq<char> {
        join_path(self.app_local_data@, DATA_SUBDIR@)
    }

    /// Where the portable marker would be, when this platform honours one.
    pub open spec fn marker_path(&self) -> Option<Seq<char>> {
        if !self.portable_supported {
            None
        } else {
            match self.exe_dir {
                Some(d) => Some(join_path(d@, PORTABLE_MARKER@)),
                None => None,
            }
        }
    }

    /// The directories with this platform's portable rule, which the shell
    /// passes in (`true` on Windows).
    pub fn new(app_local_data: String, exe_dir: Option<String>, portable_supported: bool) -> (d:
        Self)
        ensures
            d.app_local_data == app_local_data,
            d.exe_dir == exe_dir,
            d.portable_supported == portable_supported,
    {
        SystemDirs { app_local_data, exe_dir, portable_supported }
    }

    pub fn bootstrap_path(&self) -> (p: String)
        ensures
            p@ == self.bootstrap_path_spec(),
    {
        join(self.app_local_data.as_str(), BOOTSTRAP_FILE)
    }

    pub fn system_data_dir(&self) -> (p: String)
        ensures
            p@ == self.system_data_dir_spec(),
    {
        join(self.app_local_data.as_str(), DATA_SUBDIR)
    }

    /// The marker file, when portable mode is supported here and asked for.
    /// `marker_is_file` is what the shell found at [`Self::marker_path`].
    pub fn portable_marker(&self, marker_is_file: bool) -> (m: Option<String>)
        ensures
            match self.marker_path() {
                Some(p) => if marker_is_file {
                    m matches Some(s) && s@ == p
                } else {
                    m is None
                },
                None => m is None,
            },
    {
        if !self.portable_supported {
            return None;
        }
        match &self.exe_dir {
            Some(d) => {
                let marker = join(d.as_str(), PORTABLE_MARKER);
                if marker_is_file {
                    Some(marker)
                } else {
                    None
                }
            },
            None => None,
        }
    }
}

/// The files of one data directory.
#[derive(Debug, Clone)]
pub struct DataLayout {
    pub dir: String,
    /// Plus `-wal`, `-shm` and `.writer-lock` beside it while in use.
    pub db: String,
    pub thumbs: String,
}

impl DataLayout {
    /// The layout of the data directory `dir`.
    pub open spec fn of(dir: Seq<char>, l: DataLayout) -> bool {
        &&& l.dir@ == dir
        &&& l.db@ == join_path(dir, DB_FILE@)
        &&& l.thumbs@ == join_path(dir, THUMBS_DIR@)
    }

    pub fn in_dir(dir: &str) -> (l: Self)
        ensures
            DataLayout::of(dir@, l),
    {
        DataLayout {
            dir: String::from_str(dir),
            db: join(dir, DB_FILE),
            thumbs: join(dir, THUMBS_DIR),
        }
    }
}

} // verus!
