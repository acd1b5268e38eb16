//! The review queue: exact-copy decisions proposed group by group. It never
//! moves a file; it shows each group with what is known of it — whether its
//! members are exact copies of the kept file, whether the plan may take
//! them, and what a person or a rule already decided.
use vstd::prelude::*;
use vstd::string::*;
use crate::db::marks::Marks;
use crate::family::plan::Candidate;
use crate::family::reports::Group;
use crate::family::roles::Role;
use crate::sniff::bytes_eq;
use crate::text::str_is;

verus! {

/// A present member of a group, as the queue reads it.
#[derive(Debug, Clone)]
pub struct ReviewRow {
    pub family_id: i64,
    pub file_id: i64,
    pub is_keeper: bool,
    pub path: String,
    pub role: String,
    pub size: i64,
    pub mtime: i64,
    pub content_hash: Option<Vec<u8>>,
    pub pixel_hash: Option<Vec<u8>>,
    pub pixel_source: Option<String>,
    pub partial_hash: Option<Vec<u8>>,
    /// What a copy of this file has to match, as the index states it; none
    /// when the file has no such evidence.
    pub identity: Option<Vec<u8>>,
}

/// What the queue remembers of a file: the state chosen for it, the group
/// as it was when it was chosen, and the operation that chose it.
#[derive(Debug, Clone)]
pub struct ReviewChoice {
    pub state: String,
    pub snapshot: String,
    pub operation: i64,
}

/// One member as the group's snapshot records it: id, whether kept, path,
/// role, size, time, and the evidence of its identity.
pub type SnapRow = (
    i64,
    bool,
    String,
    String,
    i64,
    i64,
    Option<Vec<u8>>,
    Option<Vec<u8>>,
    Option<String>,
    Option<Vec<u8>>,
);

/// [`SnapRow`] as plain values.
pub type SnapView = (
    i64,
    bool,
    Seq<char>,
    Seq<char>,
    i64,
    i64,
    Option<Seq<u8>>,
    Option<Seq<u8>>,
    Option<Seq<char>>,
    Option<Seq<u8>>,
);

pub open spec fn bytes_view(b: Option<Vec<u8>>) -> Option<Seq<u8>> {
    match b {
        Some(v) => Some(v@),
        None => None,
    }
}

pub open spec fn text_view(t: Option<String>) -> Option<Seq<char>> {
    match t {
        Some(s) => Some(s@),
        None => None,
    }
}

pub open spec fn snap_view(r: SnapRow) -> SnapView {
    (r.0, r.1, r.2@, r.3@, r.4, r.5, bytes_view(r.6), bytes_view(r.7), text_view(r.8), bytes_view(r.9))
}

/// What `serde_json::to_string` writes for the rows of a snapshot, each a
/// JSON array of its fields; nothing when it fails.
pub uninterp spec fn snapshot_text(rows: Seq<SnapView>) -> Option<Seq<char>>;

/// The JSON text of a snapshot, by `serde_json::to_string`.
#[verifier::external_body]
fn snapshot_json(rows: &[SnapRow]) -> (s: Option<String>)
    ensures
        text_view(s) == snapshot_text(rows@.map_values(|r: SnapRow| snap_view(r))),
{
    serde_json::to_string(rows).ok()
}

// ---------------------------------------------------------------------------
// Which groups, and in what order.

/// `f` placed among the ascending family ids `s`, unless it is there.
pub open spec fn insert_id(s: Seq<i64>, f: i64) -> Seq<i64>
    decreases s.len(),
{
    if s.len() == 0 {
        seq![f]
    } else if s[0] == f {
        s
    } else if f < s[0] {
        seq![f] + s
    } else {
        seq![s[0]] + insert_id(s.drop_first(), f)
    }
}

/// The in-scope row is one of family `family`, or any when none is named.
pub open spec fn in_scope(r: ReviewRow, family: Option<i64>) -> bool {
    match family {
        Some(f) => r.family_id == f,
        None => true,
    }
}

/// The families of the first `n` in-scope rows, ascending, each once.
pub open spec fn ids_upto(rows: Seq<ReviewRow>, family: Option<i64>, n: int) -> Seq<i64>
    decreases n,
{
    if n <= 0 {
        Seq::empty()
    } else if in_scope(rows[n - 1], family) {
        insert_id(ids_upto(rows, family, n - 1), rows[n - 1].family_id)
    } else {
        ids_upto(rows, family, n - 1)
    }
}

/// Row `i` placed after every member with no larger file id.
pub open spec fn insert_member(rows: Seq<ReviewRow>, s: Seq<int>, i: int) -> Seq<int>
    decreases s.len(),
{
    if s.len() == 0 {
        seq![i]
    } else if rows[s[0]].file_id > rows[i].file_id {
        seq![i] + s
    } else {
        seq![s[0]] + insert_member(rows, s.drop_first(), i)
    }
}

/// The rows of family `f` among the first `n`, by file id; rows with equal
/// ids keep their order.
pub open spec fn members_upto(rows: Seq<ReviewRow>, f: i64, n: int) -> Seq<int>
    decreases n,
{
    if n <= 0 {
        Seq::empty()
    } else if rows[n - 1].family_id == f {
        insert_member(rows, members_upto(rows, f, n - 1), n - 1)
    } else {
        members_upto(rows, f, n - 1)
    }
}

proof fn lemma_insert_id(s: Seq<i64>, f: i64, p: int)
    requires
        0 <= p <= s.len(),
        forall|q: int| 0 <= q < p ==> #[trigger] s[q] < f,
        p < s.len() ==> s[p] >= f,
    ensures
        insert_id(s, f) == if p < s.len() && s[p] == f {
            s
        } else {
            s.insert(p, f)
        },
    decreases s.len(),
{
    if s.len() == 0 {
        assert(s.insert(p, f) =~= seq![f]);
    } else if p == 0 {
        if s[0] != f {
            assert(s.insert(0, f) =~= seq![f] + s);
        }
    } else {
        let t = s.drop_first();
        assert forall|q: int| 0 <= q < p - 1 implies #[trigger] t[q] < f by {
            assert(t[q] == s[q + 1]);
        }
        lemma_insert_id(t, f, p - 1);
        if !(p < s.len() && s[p] == f) {
            assert(s.insert(p, f) =~= seq![s[0]] + t.insert(p - 1, f));
        } else {
            assert(s =~= seq![s[0]] + t);
        }
    }
}

proof fn lemma_insert_member(rows: Seq<ReviewRow>, s: Seq<int>, i: int, p: int)
    requires
        0 <= p <= s.len(),
        forall|q: int| 0 <= q < p ==> rows[#[trigger] s[q]].file_id <= rows[i].file_id,
        p < s.len() ==> rows[s[p]].file_id > rows[i].file_id,
    ensures
        insert_member(rows, s, i) == s.insert(p, i),
    decreases s.len(),
{
    if s.len() == 0 {
        assert(s.insert(p, i) =~= seq![i]);
    } else if p == 0 {
        assert(s.insert(0, i) =~= seq![i] + s);
    } else {
        let t = s.drop_first();
        assert forall|q: int| 0 <= q < p - 1 implies rows[#[trigger] t[q]].file_id
            <= rows[i].file_id by {
            assert(t[q] == s[q + 1]);
        }
        lemma_insert_member(rows, t, i, p - 1);
        assert(s.insert(p, i) =~= seq![s[0]] + t.insert(p - 1, i));
    }
}

proof fn lemma_members_in_range(rows: Seq<ReviewRow>, f: i64, n: int)
    requires
        0 <= n <= rows.len(),
    ensures
        forall|t: int| 0 <= t < members_upto(rows, f, n).len() ==> 0 <= #[trigger] members_upto(rows, f, n)[t] < n
            && rows[members_upto(rows, f, n)[t]].family_id == f,
    decreases n,
{
    if n > 0 {
        lemma_members_in_range(rows, f, n - 1);
        if rows[n - 1].family_id == f {
            lemma_insert_member_elems(rows, members_upto(rows, f, n - 1), n - 1);
        }
    }
}

proof fn lemma_insert_member_elems(rows: Seq<ReviewRow>, s: Seq<int>, i: int)
    ensures
        insert_member(rows, s, i).len() == s.len() + 1,
        forall|t: int| 0 <= t < insert_member(rows, s, i).len() ==> #[trigger] insert_member(rows, s, i)[t] == i
            || s.contains(insert_member(rows, s, i)[t]),
    decreases s.len(),
{
    if s.len() > 0 && rows[s[0]].file_id <= rows[i].file_id {
        let t = s.drop_first();
        lemma_insert_member_elems(rows, t, i);
        let r = insert_member(rows, s, i);
        assert forall|k: int| 0 <= k < r.len() implies #[trigger] r[k] == i || s.contains(r[k]) by {
            if k > 0 {
                let x = insert_member(rows, t, i)[k - 1];
                assert(r[k] == x);
                if x != i {
                    let j = choose|j: int| 0 <= j < t.len() && t[j] == x;
                    assert(s[j + 1] == x);
                }
            } else {
                assert(s[0] == r[0]);
            }
        }
    } else if s.len() > 0 {
        let r = insert_member(rows, s, i);
        assert forall|k: int| 0 <= k < r.len() implies #[trigger] r[k] == i || s.contains(r[k]) by {
            if k > 0 {
                assert(r[k] == s[k - 1]);
            }
        }
    }
}

// ---------------------------------------------------------------------------
// One group.

/// The first kept member of `m` from position `q` on.
pub open spec fn keeper_in(rows: Seq<ReviewRow>, m: Seq<int>, q: int) -> Option<int>
    decreases m.len() - q,
{
    if q < 0 || q >= m.len() {
        None
    } else if rows[m[q]].is_keeper {
        Some(q)
    } else {
        keeper_in(rows, m, q + 1)
    }
}

/// Every member is an exact copy of the kept file: the kept file has an
/// identity, and every member has that one.
pub open spec fn exact_spec(rows: Seq<ReviewRow>, m: Seq<int>) -> bool {
    match keeper_in(rows, m, 0) {
        Some(q) => bytes_view(rows[m[q]].identity) is Some && forall|t: int|
            0 <= t < m.len() ==> bytes_view(#[trigger] rows[m[t]].identity) == bytes_view(
                rows[m[q]].identity,
            ),
        None => false,
    }
}

/// The plan takes `file` as an exact copy.
pub open spec fn is_copy(cands: Seq<Candidate>, file: i64) -> bool {
    exists|c: int| 0 <= c < cands.len() && #[trigger] cands[c].file_id == file && cands[c].role == Role::Copy
}

/// The group may go into the plan: its members are exact copies, and the
/// plan takes every one but the kept file.
pub open spec fn eligible_spec(rows: Seq<ReviewRow>, m: Seq<int>, cands: Seq<Candidate>) -> bool {
    exact_spec(rows, m) && forall|t: int|
        0 <= t < m.len() && !(#[trigger] rows[m[t]]).is_keeper ==> is_copy(cands, rows[m[t]].file_id)
}

/// The choice remembered for `file`, the first listed for it.
pub open spec fn choice_of(choices: Seq<(i64, ReviewChoice)>, file: i64) -> Option<ReviewChoice>
    decreases choices.len(),
{
    if choices.len() == 0 {
        None
    } else if choices[0].0 == file {
        Some(choices[0].1)
    } else {
        choice_of(choices.drop_first(), file)
    }
}

/// A decision made elsewhere that the group inherits: the kept file chosen
/// by hand, or kept by a folder mark; else a member set aside by hand.
pub open spec fn inherited_spec(
    rows: Seq<ReviewRow>,
    m: Seq<int>,
    hand: Seq<i64>,
    rejected: Seq<i64>,
    marks: Marks,
) -> Option<Seq<char>> {
    let rej = if exists|t: int| 0 <= t < m.len() && rejected.contains(#[trigger] rows[m[t]].file_id) {
        Some("manual"@)
    } else {
        None
    };
    match keeper_in(rows, m, 0) {
        Some(q) => if hand.contains(rows[m[q]].file_id) {
            Some("manual"@)
        } else if marks.covering_upto(rows[m[q]].path@, marks.marks@.len() as int) is Some {
            Some("folder"@)
        } else {
            rej
        },
        None => rej,
    }
}

/// Member `t`'s choice agrees with the state `first`: same state, and for
/// "plan", made on the group as it is now.
pub open spec fn agrees(c: Option<ReviewChoice>, first: Seq<char>, snapshot: Seq<char>) -> bool {
    match c {
        Some(c) => c.state@ == first && (c.state@ != "plan"@ || c.snapshot@ == snapshot),
        None => false,
    }
}

/// The group's state: the one every member's choice agrees on, else
/// "reviewed" when it inherits a decision, else "pending".
pub open spec fn state_spec(
    rows: Seq<ReviewRow>,
    m: Seq<int>,
    choices: Seq<(i64, ReviewChoice)>,
    snapshot: Seq<char>,
    inherited: Option<Seq<char>>,
) -> Seq<char> {
    let fallback = if inherited is Some {
        "reviewed"@
    } else {
        "pending"@
    };
    match choice_of(choices, rows[m[0]].file_id) {
        Some(c0) => if forall|t: int|
            0 <= t < m.len() ==> agrees(
                choice_of(choices, #[trigger] rows[m[t]].file_id),
                c0.state@,
                snapshot,
            ) {
            c0.state@
        } else {
            fallback
        },
        None => fallback,
    }
}

/// The sizes of the rows of family `f` other than the kept one, among the
/// first `n`.
pub open spec fn family_bytes(rows: Seq<ReviewRow>, f: i64, n: int) -> int
    decreases n,
{
    if n <= 0 {
        0
    } else if rows[n - 1].family_id == f && !rows[n - 1].is_keeper {
        family_bytes(rows, f, n - 1) + rows[n - 1].size
    } else {
        family_bytes(rows, f, n - 1)
    }
}

/// Why the plan refused members of family `f`, among the first `n` refusals.
pub open spec fn reasons_upto(refusals: Seq<(i64, String)>, f: i64, n: int) -> Seq<Seq<char>>
    decreases n,
{
    if n <= 0 {
        Seq::empty()
    } else if refusals[n - 1].0 == f {
        reasons_upto(refusals, f, n - 1).push(refusals[n - 1].1@)
    } else {
        reasons_upto(refusals, f, n - 1)
    }
}

/// The members as the snapshot records them.
pub open spec fn snap_rows(rows: Seq<ReviewRow>, m: Seq<int>) -> Seq<SnapView> {
    Seq::new(
        m.len(),
        |t: int|
            {
                let r = rows[m[t]];
                (
                    r.file_id,
                    r.is_keeper,
                    r.path@,
                    r.role@,
                    r.size,
                    r.mtime,
                    bytes_view(r.content_hash),
                    bytes_view(r.pixel_hash),
                    text_view(r.pixel_source),
                    bytes_view(r.partial_hash),
                )
            },
    )
}

/// [`Group`] with its texts as characters.
pub struct GroupView {
    pub id: i64,
    pub state: Seq<char>,
    pub exact: bool,
    pub eligible: bool,
    pub bytes: int,
    pub files: Seq<i64>,
    pub snapshot: Seq<char>,
    pub revision: Seq<Option<i64>>,
    pub paths: Seq<Seq<char>>,
    pub untouched: bool,
    pub reasons: Seq<Seq<char>>,
    pub decision_source: Option<Seq<char>>,
}

impl View for Group {
    type V = GroupView;

    open spec fn view(&self) -> GroupView {
        GroupView {
            id: self.id,
            state: self.state@,
            exact: self.exact,
            eligible: self.eligible,
            bytes: self.bytes as int,
            files: self.files@,
            snapshot: self.snapshot@,
            revision: self.revision@,
            paths: self.paths@.map_values(|p: String| p@),
            untouched: self.untouched,
            reasons: self.reasons@.map_values(|p: String| p@),
            decision_source: text_view(self.decision_source),
        }
    }
}

/// Everything the queue reads.
pub struct ReviewFacts {
    pub rows: Seq<ReviewRow>,
    pub family: Option<i64>,
    pub choices: Seq<(i64, ReviewChoice)>,
    pub hand: Seq<i64>,
    pub rejected: Seq<i64>,
    pub marks: Marks,
    pub cands: Seq<Candidate>,
    pub refusals: Seq<(i64, String)>,
}

/// The group of family `f`, whose members are `m`, given its snapshot text.
pub open spec fn group_spec(x: ReviewFacts, f: i64, m: Seq<int>, snapshot: Seq<char>) -> GroupView {
    let inherited = inherited_spec(x.rows, m, x.hand, x.rejected, x.marks);
    let state = state_spec(x.rows, m, x.choices, snapshot, inherited);
    GroupView {
        id: f,
        state,
        exact: exact_spec(x.rows, m),
        eligible: eligible_spec(x.rows, m, x.cands),
        bytes: family_bytes(x.rows, f, x.rows.len() as int),
        files: Seq::new(m.len(), |t: int| x.rows[m[t]].file_id),
        snapshot,
        revision: Seq::new(
            m.len(),
            |t: int|
                match choice_of(x.choices, x.rows[m[t]].file_id) {
                    Some(c) => Some(c.operation),
                    None => None,
                },
        ),
        paths: Seq::new(m.len(), |t: int| x.rows[m[t]].path@),
        untouched: inherited is None && forall|t: int|
            0 <= t < m.len() ==> choice_of(x.choices, #[trigger] x.rows[m[t]].file_id) is None,
        reasons: reasons_upto(x.refusals, f, x.refusals.len() as int),
        decision_source: if state != "pending"@ && state != "reviewed"@ {
            Some("queue"@)
        } else {
            inherited
        },
    }
}

/// The groups of the first `g` families in scope, in ascending order of
/// family, skipping those with fewer than two present members; nothing
/// when a snapshot cannot be written.
pub open spec fn groups_upto(x: ReviewFacts, g: int) -> Option<Seq<GroupView>>
    decreases g,
{
    if g <= 0 {
        Some(Seq::empty())
    } else {
        match groups_upto(x, g - 1) {
            None => None,
            Some(prev) => {
                let f = ids_upto(x.rows, x.family, x.rows.len() as int)[g - 1];
                let m = members_upto(x.rows, f, x.rows.len() as int);
                if m.len() < 2 {
                    Some(prev)
                } else {
                    match snapshot_text(snap_rows(x.rows, m)) {
                        None => None,
                        Some(s) => Some(prev.push(group_spec(x, f, m, s))),
                    }
                }
            },
        }
    }
}

/// The whole queue.
pub open spec fn groups_spec(x: ReviewFacts) -> Option<Seq<GroupView>> {
    groups_upto(x, ids_upto(x.rows, x.family, x.rows.len() as int).len() as int)
}

// ---------------------------------------------------------------------------
// Building the queue.

/// Positions as integers.
pub open spec fn ints(v: Seq<usize>) -> Seq<int> {
    v.map_values(|i: usize| i as int)
}

fn family_ids(rows: &[ReviewRow], family: Option<i64>) -> (ids: Vec<i64>)
    ensures
        ids@ == ids_upto(rows@, family, rows@.len() as int),
{
    let mut ids: Vec<i64> = Vec::new();
    let mut j: usize = 0;
    while j < rows.len()
        invariant
            j <= rows@.len(),
            ids@ == ids_upto(rows@, family, j as int),
        decreases rows@.len() - j,
    {
        let r = &rows[j];
        let keep = match family {
            Some(f) => r.family_id == f,
            None => true,
        };
        if keep {
            let f = r.family_id;
            let mut p: usize = 0;
            while p < ids.len() && ids[p] < f
                invariant
                    p <= ids@.len(),
                    forall|q: int| 0 <= q < p ==> #[trigger] ids@[q] < f,
                decreases ids@.len() - p,
            {
                p = p + 1;
            }
            proof {
                lemma_insert_id(ids@, f, p as int);
            }
            if !(p < ids.len() && ids[p] == f) {
                ids.insert(p, f);
            }
        }
        j = j + 1;
    }
    ids
}

fn members_of(rows: &[ReviewRow], f: i64) -> (m: Vec<usize>)
    ensures
        ints(m@) == members_upto(rows@, f, rows@.len() as int),
        forall|t: int| 0 <= t < m@.len() ==> (#[trigger] m@[t]) < rows@.len(),
{
    let mut m: Vec<usize> = Vec::new();
    let mut j: usize = 0;
    while j < rows.len()
        invariant
            j <= rows@.len(),
            ints(m@) == members_upto(rows@, f, j as int),
            forall|t: int| 0 <= t < m@.len() ==> (#[trigger] m@[t]) < j,
        decreases rows@.len() - j,
    {
        if rows[j].family_id == f {
            let key = rows[j].file_id;
            let mut p: usize = 0;
            while p < m.len() && rows[m[p]].file_id <= key
                invariant
                    p <= m@.len(),
                    j < rows@.len(),
                    key == rows@[j as int].file_id,
                    forall|t: int| 0 <= t < m@.len() ==> (#[trigger] m@[t]) < j,
                    forall|q: int| 0 <= q < p ==> rows@[#[trigger] ints(m@)[q]].file_id <= key,
                decreases m@.len() - p,
            {
                p = p + 1;
            }
            proof {
                lemma_insert_member(rows@, ints(m@), j as int, p as int);
            }
            let ghost before = ints(m@);
            m.insert(p, j);
            proof {
                assert(ints(m@) =~= before.insert(p as int, j as int));
            }
        }
        j = j + 1;
    }
    m
}

fn contains_id(s: &[i64], x: i64) -> (r: bool)
    ensures
        r == s@.contains(x),
{
    let mut i: usize = 0;
    while i < s.len()
        invariant
            i <= s@.len(),
            forall|k: int| 0 <= k < i ==> s@[k] != x,
        decreases s@.len() - i,
    {
        if s[i] == x {
            return true;
        }
        i = i + 1;
    }
    false
}

fn choice_for(choices: &[(i64, ReviewChoice)], file: i64) -> (r: Option<&ReviewChoice>)
    ensures
        match choice_of(choices@, file) {
            Some(c) => r is Some && *r.unwrap() == c,
            None => r is None,
        },
{
    let mut i: usize = 0;
    assert(choices@.skip(0) =~= choices@);
    while i < choices.len()
        invariant
            i <= choices@.len(),
            choice_of(choices@, file) == choice_of(choices@.skip(i as int), file),
        decreases choices@.len() - i,
    {
        assert(choices@.skip(i as int).drop_first() =~= choices@.skip(i + 1));
        if choices[i].0 == file {
            return Some(&choices[i].1);
        }
        i = i + 1;
    }
    None
}

fn opt_bytes_eq(a: &Option<Vec<u8>>, b: &Option<Vec<u8>>) -> (r: bool)
    ensures
        r == (bytes_view(*a) == bytes_view(*b)),
{
    match (a, b) {
        (Some(x), Some(y)) => bytes_eq(x.as_slice(), y.as_slice()),
        (None, None) => true,
        _ => false,
    }
}

fn copy_bytes(b: &Option<Vec<u8>>) -> (r: Option<Vec<u8>>)
    ensures
        bytes_view(r) == bytes_view(*b),
{
    match b {
        Some(v) => Some(v.clone()),
        None => None,
    }
}

fn copy_text(t: &Option<String>) -> (r: Option<String>)
    ensures
        text_view(r) == text_view(*t),
{
    match t {
        Some(s) => Some(s.clone()),
        None => None,
    }
}

fn is_copy_exec(cands: &[Candidate], file: i64) -> (r: bool)
    ensures
        r == is_copy(cands@, file),
{
    let mut c: usize = 0;
    while c < cands.len()
        invariant
            c <= cands@.len(),
            forall|k: int| 0 <= k < c ==> !(#[trigger] cands@[k].file_id == file && cands@[k].role
                == Role::Copy),
        decreases cands@.len() - c,
    {
        if cands[c].file_id == file && cands[c].role == Role::Copy {
            return true;
        }
        c = c + 1;
    }
    false
}

fn family_bytes_exec(rows: &[ReviewRow], f: i64) -> (r: i128)
    ensures
        r == family_bytes(rows@, f, rows@.len() as int),
{
    let mut acc: i128 = 0;
    let mut j: usize = 0;
    while j < rows.len()
        invariant
            j <= rows@.len(),
            acc == family_bytes(rows@, f, j as int),
            -(j as int) * 0x8000_0000_0000_0000 <= acc <= (j as int) * 0x8000_0000_0000_0000,
        decreases rows@.len() - j,
    {
        if rows[j].family_id == f && !rows[j].is_keeper {
            acc = acc + rows[j].size as i128;
        }
        j = j + 1;
    }
    acc
}

fn reasons_of(refusals: &[(i64, String)], f: i64) -> (r: Vec<String>)
    ensures
        r@.map_values(|s: String| s@) == reasons_upto(refusals@, f, refusals@.len() as int),
{
    let mut out: Vec<String> = Vec::new();
    let mut i: usize = 0;
    while i < refusals.len()
        invariant
            i <= refusals@.len(),
            out@.map_values(|s: String| s@) == reasons_upto(refusals@, f, i as int),
        decreases refusals@.len() - i,
    {
        if refusals[i].0 == f {
            let ghost before = out@.map_values(|s: String| s@);
            out.push(refusals[i].1.clone());
            assert(out@.map_values(|s: String| s@) =~= before.push(refusals@[i as int].1@));
        }
        i = i + 1;
    }
    out
}

/// The members are rows.
pub open spec fn rows_of(rows: Seq<ReviewRow>, m: Seq<usize>) -> bool {
    forall|t: int| 0 <= t < m.len() ==> (#[trigger] m[t]) < rows.len()
}

fn keeper_pos(rows: &[ReviewRow], m: &Vec<usize>) -> (r: Option<usize>)
    requires
        rows_of(rows@, m@),
    ensures
        match keeper_in(rows@, ints(m@), 0) {
            Some(q) => r is Some && r.unwrap() == q,
            None => r is None,
        },
{
    let ghost ms = ints(m@);
    let mut q: usize = 0;
    while q < m.len()
        invariant
            q <= m@.len(),
            ms == ints(m@),
            rows_of(rows@, m@),
            keeper_in(rows@, ms, 0) == keeper_in(rows@, ms, q as int),
        decreases m@.len() - q,
    {
        assert(ms[q as int] == m@[q as int] as int);
        if rows[m[q]].is_keeper {
            return Some(q);
        }
        q = q + 1;
    }
    None
}

fn exact_exec(rows: &[ReviewRow], m: &Vec<usize>, keeper: Option<usize>) -> (r: bool)
    requires
        rows_of(rows@, m@),
        match keeper_in(rows@, ints(m@), 0) {
            Some(q) => keeper is Some && keeper.unwrap() == q,
            None => keeper is None,
        },
    ensures
        r == exact_spec(rows@, ints(m@)),
{
    let ghost ms = ints(m@);
    let k = match keeper {
        Some(k) => k,
        None => {
            return false;
        },
    };
    proof {
        lemma_keeper_in_bounds(rows@, ms, 0);
    }
    let kid = &rows[m[k]].identity;
    assert(ms[k as int] == m@[k as int] as int);
    if kid.is_none() {
        return false;
    }
    let mut t: usize = 0;
    while t < m.len()
        invariant
            t <= m@.len(),
            ms == ints(m@),
            rows_of(rows@, m@),
            k < m@.len(),
            ms[k as int] == m@[k as int] as int,
            *kid == rows@[ms[k as int]].identity,
            forall|u: int| 0 <= u < t ==> bytes_view(#[trigger] rows@[ms[u]].identity) == bytes_view(*kid),
        decreases m@.len() - t,
    {
        assert(ms[t as int] == m@[t as int] as int);
        if !opt_bytes_eq(&rows[m[t]].identity, kid) {
            return false;
        }
        t = t + 1;
    }
    true
}

proof fn lemma_keeper_in_bounds(rows: Seq<ReviewRow>, m: Seq<int>, q: int)
    ensures
        keeper_in(rows, m, q) matches Some(k) ==> q <= k < m.len() && rows[m[k]].is_keeper,
    decreases m.len() - q,
{
    if 0 <= q < m.len() && !rows[m[q]].is_keeper {
        lemma_keeper_in_bounds(rows, m, q + 1);
    }
}

fn rest_are_copies(rows: &[ReviewRow], m: &Vec<usize>, cands: &[Candidate]) -> (r: bool)
    requires
        rows_of(rows@, m@),
    ensures
        r == forall|t: int|
            0 <= t < ints(m@).len() && !(#[trigger] rows@[ints(m@)[t]]).is_keeper ==> is_copy(
                cands@,
                rows@[ints(m@)[t]].file_id,
            ),
{
    let ghost ms = ints(m@);
    let mut t: usize = 0;
    while t < m.len()
        invariant
            t <= m@.len(),
            ms == ints(m@),
            rows_of(rows@, m@),
            forall|u: int|
                0 <= u < t && !(#[trigger] rows@[ms[u]]).is_keeper ==> is_copy(cands@, rows@[ms[u]].file_id),
        decreases m@.len() - t,
    {
        assert(ms[t as int] == m@[t as int] as int);
        let r = &rows[m[t]];
        if !r.is_keeper && !is_copy_exec(cands, r.file_id) {
            return false;
        }
        t = t + 1;
    }
    true
}

fn any_rejected(rows: &[ReviewRow], m: &Vec<usize>, rejected: &[i64]) -> (r: bool)
    requires
        rows_of(rows@, m@),
    ensures
        r == exists|t: int|
            0 <= t < ints(m@).len() && rejected@.contains(#[trigger] rows@[ints(m@)[t]].file_id),
{
    let ghost ms = ints(m@);
    let mut t: usize = 0;
    while t < m.len()
        invariant
            t <= m@.len(),
            ms == ints(m@),
            rows_of(rows@, m@),
            forall|u: int| 0 <= u < t ==> !rejected@.contains(#[trigger] rows@[ms[u]].file_id),
        decreases m@.len() - t,
    {
        assert(ms[t as int] == m@[t as int] as int);
        if contains_id(rejected, rows[m[t]].file_id) {
            return true;
        }
        t = t + 1;
    }
    false
}

fn inherited_exec(
    rows: &[ReviewRow],
    m: &Vec<usize>,
    keeper: Option<usize>,
    hand: &[i64],
    rejected: &[i64],
    marks: &Marks,
) -> (r: Option<&'static str>)
    requires
        rows_of(rows@, m@),
        match keeper_in(rows@, ints(m@), 0) {
            Some(q) => keeper is Some && keeper.unwrap() == q,
            None => keeper is None,
        },
    ensures
        match r {
            Some(s) => Some(s@),
            None => None,
        } == inherited_spec(rows@, ints(m@), hand@, rejected@, *marks),
{
    let ghost ms = ints(m@);
    proof {
        lemma_keeper_in_bounds(rows@, ms, 0);
    }
    if let Some(k) = keeper {
        assert(keeper_in(rows@, ms, 0) == Some(k as int));
        assert(ms[k as int] == m@[k as int] as int);
        let kr = &rows[m[k]];
        if contains_id(hand, kr.file_id) {
            return Some("manual");
        }
        if marks.covering(kr.path.as_str()).is_some() {
            return Some("folder");
        }
    }
    if any_rejected(rows, m, rejected) {
        Some("manual")
    } else {
        None
    }
}

fn state_exec(
    rows: &[ReviewRow],
    m: &Vec<usize>,
    choices: &[(i64, ReviewChoice)],
    snapshot: &String,
    inherited: bool,
) -> (r: String)
    requires
        rows_of(rows@, m@),
        m@.len() > 0,
    ensures
        r@ == state_spec(
            rows@,
            ints(m@),
            choices@,
            snapshot@,
            if inherited {
                Some("manual"@)
            } else {
                None
            },
        ),
{
    let ghost ms = ints(m@);
    let fallback = if inherited {
        "reviewed"
    } else {
        "pending"
    };
    assert(ms[0] == m@[0] as int);
    let first = match choice_for(choices, rows[m[0]].file_id) {
        Some(c) => c,
        None => {
            return String::from_str(fallback);
        },
    };
    assert(choice_of(choices@, rows@[ms[0]].file_id) == Some(*first));
    let mut t: usize = 0;
    while t < m.len()
        invariant
            t <= m@.len(),
            ms == ints(m@),
            rows_of(rows@, m@),
            m@.len() > 0,
            fallback@ == if inherited {
                "reviewed"@
            } else {
                "pending"@
            },
            choice_of(choices@, rows@[ms[0]].file_id) == Some(*first),
            forall|u: int|
                0 <= u < t ==> agrees(
                    choice_of(choices@, #[trigger] rows@[ms[u]].file_id),
                    first.state@,
                    snapshot@,
                ),
        decreases m@.len() - t,
    {
        assert(ms[t as int] == m@[t as int] as int);
        let ok = match choice_for(choices, rows[m[t]].file_id) {
            Some(c) => str_is(c.state.as_str(), first.state.as_str()) && (!str_is(
                c.state.as_str(),
                "plan",
            ) || str_is(c.snapshot.as_str(), snapshot.as_str())),
            None => false,
        };
        if !ok {
            assert(!agrees(choice_of(choices@, rows@[ms[t as int]].file_id), first.state@, snapshot@));
            assert(!(forall|u: int|
                0 <= u < ms.len() ==> agrees(
                    choice_of(choices@, #[trigger] rows@[ms[u]].file_id),
                    first.state@,
                    snapshot@,
                )));
            return String::from_str(fallback);
        }
        t = t + 1;
    }
    first.state.clone()
}

fn no_choices(rows: &[ReviewRow], m: &Vec<usize>, choices: &[(i64, ReviewChoice)]) -> (r: bool)
    requires
        rows_of(rows@, m@),
    ensures
        r == forall|t: int|
            0 <= t < ints(m@).len() ==> choice_of(choices@, #[trigger] rows@[ints(m@)[t]].file_id)
                is None,
{
    let ghost ms = ints(m@);
    let mut t: usize = 0;
    while t < m.len()
        invariant
            t <= m@.len(),
            ms == ints(m@),
            rows_of(rows@, m@),
            forall|u: int| 0 <= u < t ==> choice_of(choices@, #[trigger] rows@[ms[u]].file_id) is None,
        decreases m@.len() - t,
    {
        assert(ms[t as int] == m@[t as int] as int);
        if choice_for(choices, rows[m[t]].file_id).is_some() {
            return false;
        }
        t = t + 1;
    }
    true
}

/// The members' ids, paths, remembered operations and snapshot rows.
fn member_lists(rows: &[ReviewRow], m: &Vec<usize>, choices: &[(i64, ReviewChoice)]) -> (r: (
    Vec<i64>,
    Vec<String>,
    Vec<Option<i64>>,
    Vec<SnapRow>,
))
    requires
        rows_of(rows@, m@),
    ensures
        r.0@ == Seq::new(m@.len(), |t: int| rows@[ints(m@)[t]].file_id),
        r.1@.map_values(|p: String| p@) == Seq::new(m@.len(), |t: int| rows@[ints(m@)[t]].path@),
        r.2@ == Seq::new(
            m@.len(),
            |t: int|
                match choice_of(choices@, rows@[ints(m@)[t]].file_id) {
                    Some(c) => Some(c.operation),
                    None => None,
                },
        ),
        r.3@.map_values(|x: SnapRow| snap_view(x)) == snap_rows(rows@, ints(m@)),
{
    let ghost ms = ints(m@);
    let mut files: Vec<i64> = Vec::new();
    let mut paths: Vec<String> = Vec::new();
    let mut revision: Vec<Option<i64>> = Vec::new();
    let mut snap: Vec<SnapRow> = Vec::new();
    let mut t: usize = 0;
    while t < m.len()
        invariant
            t <= m@.len(),
            ms == ints(m@),
            rows_of(rows@, m@),
            files@ == Seq::new(t as nat, |u: int| rows@[ms[u]].file_id),
            paths@.map_values(|p: String| p@) == Seq::new(t as nat, |u: int| rows@[ms[u]].path@),
            revision@ == Seq::new(
                t as nat,
                |u: int|
                    match choice_of(choices@, rows@[ms[u]].file_id) {
                        Some(c) => Some(c.operation),
                        None => None,
                    },
            ),
            snap@.map_values(|x: SnapRow| snap_view(x)) == snap_rows(rows@, ms).take(t as int),
        decreases m@.len() - t,
    {
        assert(ms[t as int] == m@[t as int] as int);
        let r = &rows[m[t]];
        let ghost pv = paths@.map_values(|p: String| p@);
        let ghost sv = snap@.map_values(|x: SnapRow| snap_view(x));
        files.push(r.file_id);
        paths.push(r.path.clone());
        revision.push(
            match choice_for(choices, r.file_id) {
                Some(c) => Some(c.operation),
                None => None,
            },
        );
        let row: SnapRow = (
            r.file_id,
            r.is_keeper,
            r.path.clone(),
            r.role.clone(),
            r.size,
            r.mtime,
            copy_bytes(&r.content_hash),
            copy_bytes(&r.pixel_hash),
            copy_text(&r.pixel_source),
            copy_bytes(&r.partial_hash),
        );
        snap.push(row);
        proof {
            assert(files@ =~= Seq::new((t + 1) as nat, |u: int| rows@[ms[u]].file_id));
            assert(paths@.map_values(|p: String| p@) =~= pv.push(r.path@));
            assert(paths@.map_values(|p: String| p@) =~= Seq::new(
                (t + 1) as nat,
                |u: int| rows@[ms[u]].path@,
            ));
            assert(revision@ =~= Seq::new(
                (t + 1) as nat,
                |u: int|
                    match choice_of(choices@, rows@[ms[u]].file_id) {
                        Some(c) => Some(c.operation),
                        None => None,
                    },
            ));
            assert(snap@.map_values(|x: SnapRow| snap_view(x)) =~= sv.push(snap_view(row)));
            assert(snap_view(row) == snap_rows(rows@, ms)[t as int]);
            assert(snap@.map_values(|x: SnapRow| snap_view(x)) =~= snap_rows(rows@, ms).take(
                t + 1,
            ));
        }
        t = t + 1;
    }
    assert(snap_rows(rows@, ms).take(m@.len() as int) =~= snap_rows(rows@, ms));
    (files, paths, revision, snap)
}

/// What the queue reads, by its views.
pub open spec fn facts_of(
    rows: &[ReviewRow],
    family: Option<i64>,
    choices: &[(i64, ReviewChoice)],
    hand: &[i64],
    rejected: &[i64],
    marks: &Marks,
    cands: &[Candidate],
    refusals: &[(i64, String)],
) -> ReviewFacts {
    ReviewFacts {
        rows: rows@,
        family,
        choices: choices@,
        hand: hand@,
        rejected: rejected@,
        marks: *marks,
        cands: cands@,
        refusals: refusals@,
    }
}

/// The sizes of every family's rows other than the kept one add up within
/// the range of an `i64`.
pub open spec fn bytes_fit(rows: Seq<ReviewRow>) -> bool {
    forall|f: i64|
        i64::MIN <= #[trigger] family_bytes(rows, f, rows.len() as int) <= i64::MAX
}

fn group_of(
    rows: &[ReviewRow],
    family: Option<i64>,
    choices: &[(i64, ReviewChoice)],
    hand: &[i64],
    rejected: &[i64],
    marks: &Marks,
    cands: &[Candidate],
    refusals: &[(i64, String)],
    f: i64,
    m: &Vec<usize>,
) -> (r: Option<Group>)
    requires
        rows_of(rows@, m@),
        m@.len() >= 2,
        bytes_fit(rows@),
    ensures
        match snapshot_text(snap_rows(rows@, ints(m@))) {
            None => r is None,
            Some(s) => r matches Some(g) && g@ == group_spec(
                facts_of(rows, family, choices, hand, rejected, marks, cands, refusals),
                f,
                ints(m@),
                s,
            ),
        },
{
    let ghost ms = ints(m@);
    let (files, paths, revision, snap) = member_lists(rows, m, choices);
    let snapshot = match snapshot_json(snap.as_slice()) {
        Some(s) => s,
        None => {
            return None;
        },
    };
    let keeper = keeper_pos(rows, m);
    let exact = exact_exec(rows, m, keeper);
    let eligible = exact && rest_are_copies(rows, m, cands);
    let inherited = inherited_exec(rows, m, keeper, hand, rejected, marks);
    let state = state_exec(rows, m, choices, &snapshot, inherited.is_some());
    let untouched = inherited.is_none() && no_choices(rows, m, choices);
    let decision_source = if !str_is(state.as_str(), "pending") && !str_is(state.as_str(), "reviewed") {
        Some(String::from_str("queue"))
    } else {
        match inherited {
            Some(s) => Some(String::from_str(s)),
            None => None,
        }
    };
    let total = family_bytes_exec(rows, f);
    assert(i64::MIN <= family_bytes(rows@, f, rows@.len() as int) <= i64::MAX);
    let bytes = total as i64;
    let reasons = reasons_of(refusals, f);
    let g = Group {
        id: f,
        state,
        exact,
        eligible,
        bytes,
        files,
        snapshot,
        revision,
        paths,
        untouched,
        reasons,
        decision_source,
    };
    proof {
        let x = facts_of(rows, family, choices, hand, rejected, marks, cands, refusals);
        let s = g.snapshot@;
        let gs = group_spec(x, f, ms, s);
        assert(g@.files =~= gs.files);
        assert(g@.paths =~= gs.paths);
        assert(g@.revision =~= gs.revision);
        assert(g@.state == gs.state);
        assert(g@.untouched == gs.untouched);
        assert(g@.decision_source == gs.decision_source);
    }
    Some(g)
}

/// The review queue for `rows`, the present members of the index's
/// families (only family `family`'s, when one is named): one group for each
/// family with two members or more, in ascending order of family, its
/// members by file id. `choices` are the choices the queue remembers by
/// file, `hand` the files kept by hand and `rejected` those set aside by
/// hand, `marks` the folders marked as holding originals; the plan's
/// `candidates` tell which files it takes as exact copies, and `refusals`
/// why it refused members of each family. Nothing when a group's snapshot
/// cannot be written.
pub fn review_groups(
    rows: &[ReviewRow],
    family: Option<i64>,
    choices: &[(i64, ReviewChoice)],
    hand: &[i64],
    rejected: &[i64],
    marks: &Marks,
    candidates: &[Candidate],
    refusals: &[(i64, String)],
) -> (r: Option<Vec<Group>>)
    requires
        bytes_fit(rows@),
    ensures
        match groups_spec(facts_of(rows, family, choices, hand, rejected, marks, candidates, refusals)) {
            None => r is None,
            Some(gs) => r matches Some(v) && v@.map_values(|g: Group| g@) == gs,
        },
{
    let ghost x = facts_of(rows, family, choices, hand, rejected, marks, candidates, refusals);
    let ids = family_ids(rows, family);
    let mut out: Vec<Group> = Vec::new();
    let mut g: usize = 0;
    while g < ids.len()
        invariant
            g <= ids@.len(),
            ids@ == ids_upto(rows@, family, rows@.len() as int),
            x == facts_of(rows, family, choices, hand, rejected, marks, candidates, refusals),
            bytes_fit(rows@),
            groups_upto(x, g as int) == Some(out@.map_values(|v: Group| v@)),
        decreases ids@.len() - g,
    {
        let f = ids[g];
        let m = members_of(rows, f);
        if m.len() >= 2 {
            match group_of(rows, family, choices, hand, rejected, marks, candidates, refusals, f, &m) {
                None => {
                    proof {
                        lemma_groups_fail_on(x, g as int, ids@.len() as int);
                    }
                    return None;
                },
                Some(v) => {
                    let ghost before = out@.map_values(|v: Group| v@);
                    out.push(v);
                    assert(out@.map_values(|v: Group| v@) =~= before.push(v@));
                },
            }
        }
        g = g + 1;
    }
    Some(out)
}

proof fn lemma_groups_fail_on(x: ReviewFacts, g: int, n: int)
    requires
        0 <= g < n,
        groups_upto(x, g + 1) is None,
    ensures
        groups_upto(x, n) is None,
    decreases n - g,
{
    if g + 1 < n {
        lemma_groups_fail_on(x, g + 1, n);
    }
}

/// The groups by their views.
pub open spec fn group_views(gs: Seq<Group>) -> Seq<GroupView> {
    gs.map_values(|g: Group| g@)
}

/// Decision rows by their texts.
pub open spec fn row_views(v: Seq<(i64, String)>) -> Seq<(i64, Seq<char>)> {
    v.map_values(|p: (i64, String)| (p.0, p.1@))
}

/// Each of `files` with `snapshot`.
pub open spec fn file_rows(files: Seq<i64>, snapshot: Seq<char>) -> Seq<(i64, Seq<char>)> {
    files.map_values(|id: i64| (id, snapshot))
}

/// The decision rows for `gs`: each file of each group with the snapshot
/// of its group, group by group.
pub open spec fn decision_rows(gs: Seq<GroupView>) -> Seq<(i64, Seq<char>)>
    decreases gs.len(),
{
    if gs.len() == 0 {
        Seq::empty()
    } else {
        let g = gs.last();
        decision_rows(gs.drop_last()) + file_rows(g.files, g.snapshot)
    }
}

/// Why a decision on `gs` is refused, if it is: only groups verified as
/// exact copies may go into the plan.
pub open spec fn decision_refusal(gs: Seq<GroupView>, state: Seq<char>) -> Option<Seq<char>> {
    if state == "plan"@ && exists|i: int| 0 <= i < gs.len() && !(#[trigger] gs[i]).eligible {
        Some("Only verified exact-copy groups can be added to the plan"@)
    } else {
        None
    }
}

/// A decision `state` on the queue's `groups`: refused when it puts into the
/// plan a group that is not a verified exact copy; else the rows to record,
/// each file of each group with its group's snapshot, so that the decision
/// holds only for the members and evidence it was made on.
pub fn decision(groups: &[Group], state: &str) -> (r: Result<Vec<(i64, String)>, String>)
    ensures
        match decision_refusal(group_views(groups@), state@) {
            Some(m) => r matches Err(e) && e@ == m,
            None => r matches Ok(v) && row_views(v@) == decision_rows(group_views(groups@)),
        },
{
    let ghost gs = group_views(groups@);
    if str_is(state, "plan") {
        let mut i: usize = 0;
        while i < groups.len()
            invariant
                i <= groups@.len(),
                state@ == "plan"@,
                gs == group_views(groups@),
                forall|j: int| 0 <= j < i ==> (#[trigger] gs[j]).eligible,
            decreases groups@.len() - i,
        {
            if !groups[i].eligible {
                proof {
                    assert(!gs[i as int].eligible);
                }
                return Err(String::from_str("Only verified exact-copy groups can be added to the plan"));
            }
            i = i + 1;
        }
    }
    let mut out: Vec<(i64, String)> = Vec::new();
    let mut k: usize = 0;
    while k < groups.len()
        invariant
            k <= groups@.len(),
            gs == group_views(groups@),
            row_views(out@) == decision_rows(gs.take(k as int)),
        decreases groups@.len() - k,
    {
        let g = &groups[k];
        let ghost before = row_views(out@);
        let mut q: usize = 0;
        while q < g.files.len()
            invariant
                k < groups@.len(),
                *g == groups@[k as int],
                q <= g.files@.len(),
                row_views(out@) == before + file_rows(g.files@.take(q as int), g.snapshot@),
            decreases g.files@.len() - q,
        {
            let ghost prev = out@;
            out.push((g.files[q], g.snapshot.clone()));
            proof {
                assert(out@ == prev.push((g.files@[q as int], g.snapshot)));
                assert(row_views(out@) =~= row_views(prev).push((g.files@[q as int], g.snapshot@)));
                assert(file_rows(g.files@.take(q + 1), g.snapshot@) =~= file_rows(
                    g.files@.take(q as int),
                    g.snapshot@,
                ).push((g.files@[q as int], g.snapshot@)));
                assert(row_views(out@) =~= before + file_rows(g.files@.take(q + 1), g.snapshot@));
            }
            q = q + 1;
        }
        proof {
            assert(g.files@.take(g.files@.len() as int) =~= g.files@);
            assert(gs.take(k + 1).drop_last() =~= gs.take(k as int));
            assert(gs.take(k + 1).last() == g@);
        }
        k = k + 1;
    }
    proof {
        assert(gs.take(groups@.len() as int) =~= gs);
    }
    Ok(out)
}

} // verus!
