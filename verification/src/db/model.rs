//! Catalogs, bundles and the journal of every move.
use vstd::prelude::*;
use crate::text::str_is;

verus! {

#[derive(Debug, Clone, Copy, PartialEq, Eq, Structural)]
pub enum BundleState {
    Present,
    Quarantined,
    Purged,
}

impl BundleState {
    /// The word stored for this state.
    pub open spec fn name(self) -> Seq<char> {
        match self {
            BundleState::Present => "present"@,
            BundleState::Quarantined => "quarantined"@,
            BundleState::Purged => "purged"@,
        }
    }

    /// The state a stored word names; anything unknown reads as present.
    pub open spec fn from_name(s: Seq<char>) -> BundleState {
        if s == "quarantined"@ {
            BundleState::Quarantined
        } else if s == "purged"@ {
            BundleState::Purged
        } else {
            BundleState::Present
        }
    }

    pub fn as_str(self) -> (r: &'static str)
        ensures
            r@ == self.name(),
    {
        match self {
            BundleState::Present => "present",
            BundleState::Quarantined => "quarantined",
            BundleState::Purged => "purged",
        }
    }

    pub fn parse(s: &str) -> (r: BundleState)
        ensures
            r == BundleState::from_name(s@),
    {
        if str_is(s, "quarantined") {
            BundleState::Quarantined
        } else if str_is(s, "purged") {
            BundleState::Purged
        } else {
            BundleState::Present
        }
    }
}

#[derive(Debug, Clone, Copy, PartialEq, Eq, Structural)]
pub enum JournalStatus {
    Pending,
    Done,
    Failed,
    Undone,
    Purged,
}

impl JournalStatus {
    /// The word stored for this status.
    pub open spec fn name(self) -> Seq<char> {
        match self {
            JournalStatus::Pending => "pending"@,
            JournalStatus::Done => "done"@,
            JournalStatus::Failed => "failed"@,
            JournalStatus::Undone => "undone"@,
            JournalStatus::Purged => "purged"@,
        }
    }

    /// The status a stored word names; anything unknown reads as pending.
    pub open spec fn from_name(s: Seq<char>) -> JournalStatus {
        if s == "done"@ {
            JournalStatus::Done
        } else if s == "failed"@ {
            JournalStatus::Failed
        } else if s == "undone"@ {
            JournalStatus::Undone
        } else if s == "purged"@ {
            JournalStatus::Purged
        } else {
            JournalStatus::Pending
        }
    }

    pub fn as_str(self) -> (r: &'static str)
        ensures
            r@ == self.name(),
    {
        match self {
            JournalStatus::Pending => "pending",
            JournalStatus::Done => "done",
            JournalStatus::Failed => "failed",
            JournalStatus::Undone => "undone",
            JournalStatus::Purged => "purged",
        }
    }

    pub fn parse(s: &str) -> (r: JournalStatus)
        ensures
            r == JournalStatus::from_name(s@),
    {
        if str_is(s, "done") {
            JournalStatus::Done
        } else if str_is(s, "failed") {
            JournalStatus::Failed
        } else if str_is(s, "undone") {
            JournalStatus::Undone
        } else if str_is(s, "purged") {
            JournalStatus::Purged
        } else {
            JournalStatus::Pending
        }
    }
}

/// A stored bundle state reads back as itself.
pub proof fn law_bundle_state_round_trip(b: BundleState)
    ensures
        BundleState::from_name(b.name()) == b,
{
    reveal_strlit("present");
    reveal_strlit("quarantined");
    reveal_strlit("purged");
    assert("present"@.len() == 7);
    assert("quarantined"@.len() == 11);
    assert("purged"@.len() == 6);
}

/// A stored journal status reads back as itself.
pub proof fn law_journal_status_round_trip(j: JournalStatus)
    ensures
        JournalStatus::from_name(j.name()) == j,
{
    reveal_strlit("pending");
    reveal_strlit("done");
    reveal_strlit("failed");
    reveal_strlit("undone");
    reveal_strlit("purged");
    assert("pending"@.len() == 7);
    assert("done"@.len() == 4);
    assert("failed"@.len() == 6);
    assert("undone"@.len() == 6);
    assert("purged"@.len() == 6);
    assert("failed"@[0] != "undone"@[0]);
    assert("failed"@[0] != "purged"@[0]);
    assert("undone"@[0] != "purged"@[0]);
}

#[derive(Debug, Clone)]
pub struct NewCatalog {
    pub path: String,
    pub name: String,
    pub disk: String,
    pub size: i64,
    pub is_backup: bool,
    pub is_locked: bool,
    pub image_count: Option<i64>,
    pub read_error: Option<String>,
}

#[derive(Debug, Clone)]
pub struct Catalog {
    pub id: i64,
    pub path: String,
    pub name: String,
    pub is_backup: bool,
    pub is_locked: bool,
    pub image_count: Option<i64>,
    pub read_error: Option<String>,
}

/// Arguments for opening a journal record, grouped so the call site reads as
/// a description of the action rather than a row of positional values.
#[derive(Debug, Clone)]
pub struct NewJournalEntry<'a> {
    pub run_id: i64,
    pub op: &'a str,
    pub target_id: Option<i64>,
    pub src: &'a str,
    pub dst: Option<&'a str>,
    pub size: i64,
    pub file_count: i64,
}

#[derive(Debug, Clone)]
pub struct JournalEntry {
    pub id: i64,
    pub op: String,
    pub src: String,
    pub dst: Option<String>,
    pub size: i64,
    pub file_count: i64,
    pub status: JournalStatus,
    pub applied_at: i64,
    pub target_id: Option<i64>,
}

} // verus!
