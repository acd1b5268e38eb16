//! Turning roles and a policy into a concrete list of files to move.
//!
//! Every refusal is recorded next to its reason. A plan that silently drops
//! candidates is one the user cannot audit.
use vstd::prelude::*;
use vstd::string::*;
use crate::db::files::PlanRow;
use crate::family::curation::{entry_views, lookup_in, model_of, CurationIndex, Curated};
use crate::family::roles::Role;
use crate::text::{chars_of, decimal, decimal_text, last_index_of, rfind_char, text_less, text_lt};

verus! {

#[derive(Debug, Clone)]
pub struct Policy {
    /// Roles the user has agreed to part with, none of them twice.
    pub remove_roles: Vec<Role>,
    /// A `resize` is only a candidate below this many pixels.
    pub resize_below_pixels: i64,
    /// Refuse to touch anything a live Lightroom catalog references.
    pub respect_lightroom: bool,
}

impl Policy {
    /// No role is listed twice.
    pub open spec fn wf(&self) -> bool {
        forall|i: int, j: int|
            0 <= i < j < self.remove_roles@.len() ==> self.remove_roles@[i]
                != self.remove_roles@[j]
    }
}

impl Default for Policy {
    /// Only exact copies, and nothing a catalog knows about. Everything else
    /// is a decision the user has to make deliberately.
    fn default() -> (p: Self)
        ensures
            p.wf(),
            p.remove_roles@ == seq![Role::Copy],
            p.resize_below_pixels == 2_000_000,
            p.respect_lightroom,
    {
        let mut remove_roles: Vec<Role> = Vec::new();
        remove_roles.push(Role::Copy);
        Policy { remove_roles, resize_below_pixels: 2_000_000, respect_lightroom: true }
    }
}

#[derive(Debug, Clone)]
pub struct Refusal {
    pub path: String,
    pub why: String,
}

/// Width times height of a row.
pub open spec fn area(r: PlanRow) -> int {
    r.width * r.height
}

/// The first member at or after `i` marked as the keeper.
pub open spec fn first_keeper_from(s: Seq<PlanRow>, i: int) -> Option<int>
    decreases s.len() - i,
{
    if i < 0 || i >= s.len() {
        None
    } else if s[i].is_keeper {
        Some(i)
    } else {
        first_keeper_from(s, i + 1)
    }
}

/// Among the first `n` members, the last one of the largest area.
pub open spec fn last_largest(s: Seq<PlanRow>, n: int) -> int
    decreases n,
{
    if n <= 1 {
        0
    } else {
        let m = last_largest(s, n - 1);
        if area(s[n - 1]) >= area(s[m]) {
            n - 1
        } else {
            m
        }
    }
}

/// Which member survives: the one marked as the keeper, or else the last
/// of the largest.
pub open spec fn keeper_index(s: Seq<PlanRow>) -> Option<int> {
    match first_keeper_from(s, 0) {
        Some(i) => Some(i),
        None => if s.len() == 0 {
            None
        } else {
            Some(last_largest(s, s.len() as int))
        },
    }
}

proof fn lemma_last_largest(s: Seq<PlanRow>, n: int)
    requires
        1 <= n <= s.len(),
    ensures
        0 <= last_largest(s, n) < n,
        forall|j: int| 0 <= j < n ==> #[trigger] area(s[j]) <= area(s[last_largest(s, n)]),
    decreases n,
{
    if n > 1 {
        lemma_last_largest(s, n - 1);
    }
}

/// The member whose survival makes removing the others safe.
pub fn keeper_of(members: &[PlanRow]) -> (r: Option<&PlanRow>)
    requires
        first_keeper_from(members@, 0) is None ==> forall|j: int|
            0 <= j < members@.len() ==> i64::MIN <= #[trigger] area(members@[j]) <= i64::MAX,
    ensures
        match keeper_index(members@) {
            None => r is None,
            Some(i) => r matches Some(x) && *x == members@[i],
        },
{
    let n = members.len();
    let mut i: usize = 0;
    while i < n
        invariant
            n == members@.len(),
            i <= n,
            first_keeper_from(members@, 0) == first_keeper_from(members@, i as int),
        decreases n - i,
    {
        if members[i].is_keeper {
            return Some(&members[i]);
        }
        i = i + 1;
    }
    if n == 0 {
        return None;
    }
    assert(first_keeper_from(members@, 0) is None);
    let mut best: usize = 0;
    let mut k: usize = 1;
    while k < n
        invariant
            n == members@.len(),
            1 <= k <= n,
            best == last_largest(members@, k as int),
            best < k,
            forall|j: int| 0 <= j < n ==> i64::MIN <= #[trigger] area(members@[j]) <= i64::MAX,
        decreases n - k,
    {
        proof {
            lemma_last_largest(members@, k as int);
            assert(i64::MIN <= area(members@[k as int]) <= i64::MAX);
            assert(i64::MIN <= area(members@[best as int]) <= i64::MAX);
        }
        let a = members[k].width * members[k].height;
        let b = members[best].width * members[best].height;
        if a >= b {
            best = k;
        }
        k = k + 1;
    }
    Some(&members[best])
}

/// A file proposed for moving, with the member whose survival makes that safe.
#[derive(Debug, Clone)]
pub struct Candidate {
    pub file_id: i64,
    pub family_id: i64,
    pub path: String,
    pub size: i64,
    pub role: Role,
    /// The member whose survival makes removing this one safe.
    pub keeper_id: i64,
    pub keeper_path: String,
    pub reason: String,
}

/// [`Candidate`] with its texts as characters.
pub struct CandidateView {
    pub file_id: i64,
    pub family_id: i64,
    pub path: Seq<char>,
    pub size: i64,
    pub role: Role,
    pub keeper_id: i64,
    pub keeper_path: Seq<char>,
    pub reason: Seq<char>,
}

impl View for Candidate {
    type V = CandidateView;

    open spec fn view(&self) -> CandidateView {
        CandidateView {
            file_id: self.file_id,
            family_id: self.family_id,
            path: self.path@,
            size: self.size,
            role: self.role,
            keeper_id: self.keeper_id,
            keeper_path: self.keeper_path@,
            reason: self.reason@,
        }
    }
}

/// [`Refusal`] with its texts as characters.
pub struct RefusalView {
    pub path: Seq<char>,
    pub why: Seq<char>,
}

impl View for Refusal {
    type V = RefusalView;

    open spec fn view(&self) -> RefusalView {
        RefusalView { path: self.path@, why: self.why@ }
    }
}

/// Every candidate and every refusal, each with its reason.
#[derive(Debug, Default)]
pub struct Plan {
    pub candidates: Vec<Candidate>,
    pub refusals: Vec<Refusal>,
}

/// The sizes of the first `m` candidates, added up.
pub open spec fn size_sum(c: Seq<Candidate>, m: int) -> int
    decreases m,
{
    if m <= 0 {
        0
    } else {
        size_sum(c, m - 1) + c[m - 1].size
    }
}

impl Plan {
    /// Every running total of the candidates' sizes fits an `i64`.
    pub open spec fn sizes_fit(&self) -> bool {
        forall|m: int| 0 <= m <= self.candidates@.len() ==> i64::MIN <= #[trigger] size_sum(
            self.candidates@,
            m,
        ) <= i64::MAX
    }

    /// How many bytes moving every candidate frees.
    pub fn bytes(&self) -> (r: i64)
        requires
            self.sizes_fit(),
        ensures
            r == size_sum(self.candidates@, self.candidates@.len() as int),
    {
        let mut total: i64 = 0;
        let mut i: usize = 0;
        while i < self.candidates.len()
            invariant
                self.sizes_fit(),
                i <= self.candidates@.len(),
                total == size_sum(self.candidates@, i as int),
            decreases self.candidates@.len() - i,
        {
            proof {
                assert(i64::MIN <= size_sum(self.candidates@, i + 1) <= i64::MAX);
            }
            total = total + self.candidates[i].size;
            i = i + 1;
        }
        total
    }
}

/// The last component of a path: what follows its last `/`.
pub open spec fn base_name(p: Seq<char>) -> Seq<char> {
    match last_index_of(p, '/') {
        Some(k) => p.subrange(k + 1, p.len() as int),
        None => p,
    }
}

/// The role a row's stored word names; an unknown word is an unknown role.
pub open spec fn role_of(m: PlanRow) -> Role {
    match Role::from_name(m.role@) {
        Some(r) => r,
        None => Role::Unknown,
    }
}

/// Why removing a member is safe, in no stronger words than are true: only
/// a copy is guaranteed to be the same pixels.
pub open spec fn reason_text(role: Role, m: PlanRow, keeper_path: Seq<char>) -> Seq<char> {
    let name = base_name(keeper_path);
    match role {
        Role::Copy => "точная копия, те же пиксели сохранены в "@ + name,
        Role::Resize => "уменьшенная версия "@ + decimal(m.width as int) + "×"@ + decimal(
            m.height as int,
        ) + ", полный кадр остаётся в "@ + name,
        _ => role.heading() + " — в семействе остаётся "@ + name,
    }
}

/// Why a file a Lightroom catalog knows about is refused.
pub open spec fn lightroom_why(c: Curated) -> Seq<char> {
    let stars = match c.rating {
        Some(r) => if r > 0 {
            ", "@ + decimal(r as int) + " звёзд"@
        } else {
            Seq::empty()
        },
        None => Seq::empty(),
    };
    "файл в каталоге Lightroom"@ + stars + if c.exact {
        Seq::empty()
    } else {
        " (совпадение по пути)"@
    }
}

/// The distinct families among the first `n` rows, in order of first appearance.
pub open spec fn family_order(rows: Seq<PlanRow>, n: int) -> Seq<i64>
    decreases n,
{
    if n <= 0 {
        Seq::empty()
    } else {
        let f = family_order(rows, n - 1);
        if f.contains(rows[n - 1].family_id) {
            f
        } else {
            f.push(rows[n - 1].family_id)
        }
    }
}

/// The positions among the first `n` rows that belong to family `fid`.
pub open spec fn members_of(rows: Seq<PlanRow>, fid: i64, n: int) -> Seq<int>
    decreases n,
{
    if n <= 0 {
        Seq::empty()
    } else if rows[n - 1].family_id == fid {
        members_of(rows, fid, n - 1).push(n - 1)
    } else {
        members_of(rows, fid, n - 1)
    }
}

/// The rows at the given positions.
pub open spec fn rows_at(rows: Seq<PlanRow>, idx: Seq<int>) -> Seq<PlanRow> {
    idx.map_values(|i: int| rows[i])
}

/// What becomes of one member of a family.
pub enum Verdict {
    Skip,
    Refuse(RefusalView),
    Take(CandidateView),
}

/// The decision for row `i`, a member of the family at positions `fam`.
pub open spec fn verdict(
    rows: Seq<PlanRow>,
    policy: Policy,
    paths: Map<Seq<char>, Option<i64>>,
    tails: Map<Seq<char>, Option<i64>>,
    fam: Seq<int>,
    i: int,
) -> Verdict {
    let m = rows[i];
    let fr = rows_at(rows, fam);
    let k = fr[keeper_index(fr).unwrap()];
    let role = role_of(m);
    if !policy.remove_roles@.contains(role) {
        Verdict::Skip
    } else if m.file_id == k.file_id {
        // The keeper is what makes removing the others safe.
        Verdict::Skip
    } else if fam.len() < 2 {
        // A family of one has nothing to fall back on.
        Verdict::Refuse(RefusalView { path: m.path@, why: "единственный файл в семействе"@ })
    } else if role == Role::Resize && m.width * m.height >= policy.resize_below_pixels {
        Verdict::Skip
    } else {
        match lookup_in(paths, tails, m.path@) {
            Some(c) => Verdict::Refuse(RefusalView { path: m.path@, why: lightroom_why(c) }),
            None => Verdict::Take(
                CandidateView {
                    file_id: m.file_id,
                    family_id: m.family_id,
                    path: m.path@,
                    size: m.size,
                    role,
                    keeper_id: k.file_id,
                    keeper_path: k.path@,
                    reason: reason_text(role, m, k.path@),
                },
            ),
        }
    }
}

/// The candidates among the first `j` members of a family, in member order.
pub open spec fn takes_in(
    rows: Seq<PlanRow>,
    policy: Policy,
    paths: Map<Seq<char>, Option<i64>>,
    tails: Map<Seq<char>, Option<i64>>,
    fam: Seq<int>,
    j: int,
) -> Seq<CandidateView>
    decreases j,
{
    if j <= 0 {
        Seq::empty()
    } else {
        let prev = takes_in(rows, policy, paths, tails, fam, j - 1);
        match verdict(rows, policy, paths, tails, fam, fam[j - 1]) {
            Verdict::Take(c) => prev.push(c),
            _ => prev,
        }
    }
}

/// The refusals among the first `j` members of a family, in member order.
pub open spec fn refusals_in(
    rows: Seq<PlanRow>,
    policy: Policy,
    paths: Map<Seq<char>, Option<i64>>,
    tails: Map<Seq<char>, Option<i64>>,
    fam: Seq<int>,
    j: int,
) -> Seq<RefusalView>
    decreases j,
{
    if j <= 0 {
        Seq::empty()
    } else {
        let prev = refusals_in(rows, policy, paths, tails, fam, j - 1);
        match verdict(rows, policy, paths, tails, fam, fam[j - 1]) {
            Verdict::Refuse(r) => prev.push(r),
            _ => prev,
        }
    }
}

/// The candidates of the first `k` families, family after family.
pub open spec fn takes_upto(
    rows: Seq<PlanRow>,
    policy: Policy,
    paths: Map<Seq<char>, Option<i64>>,
    tails: Map<Seq<char>, Option<i64>>,
    k: int,
) -> Seq<CandidateView>
    decreases k,
{
    if k <= 0 {
        Seq::empty()
    } else {
        let fam = members_of(rows, family_order(rows, rows.len() as int)[k - 1], rows.len() as int);
        takes_upto(rows, policy, paths, tails, k - 1) + takes_in(
            rows,
            policy,
            paths,
            tails,
            fam,
            fam.len() as int,
        )
    }
}

/// The refusals of the first `k` families, family after family.
pub open spec fn refusals_upto(
    rows: Seq<PlanRow>,
    policy: Policy,
    paths: Map<Seq<char>, Option<i64>>,
    tails: Map<Seq<char>, Option<i64>>,
    k: int,
) -> Seq<RefusalView>
    decreases k,
{
    if k <= 0 {
        Seq::empty()
    } else {
        let fam = members_of(rows, family_order(rows, rows.len() as int)[k - 1], rows.len() as int);
        refusals_upto(rows, policy, paths, tails, k - 1) + refusals_in(
            rows,
            policy,
            paths,
            tails,
            fam,
            fam.len() as int,
        )
    }
}

/// Where `x` goes among candidates already in order of falling size: after
/// every one at least as large.
pub open spec fn size_slot(s: Seq<CandidateView>, x: CandidateView, j: int) -> int
    decreases s.len() - j,
{
    if j >= s.len() || j < 0 {
        s.len() as int
    } else if s[j].size < x.size {
        j
    } else {
        size_slot(s, x, j + 1)
    }
}

/// Candidates in order of falling size; equal sizes keep their order.
pub open spec fn by_size(s: Seq<CandidateView>) -> Seq<CandidateView>
    decreases s.len(),
{
    if s.len() == 0 {
        s
    } else {
        let rest = by_size(s.drop_last());
        rest.insert(size_slot(rest, s.last(), 0), s.last())
    }
}

/// Where `x` goes among refusals already in order of path: after every one
/// whose path is not greater.
pub open spec fn path_slot(s: Seq<RefusalView>, x: RefusalView, j: int) -> int
    decreases s.len() - j,
{
    if j >= s.len() || j < 0 {
        s.len() as int
    } else if text_less(x.path, s[j].path) {
        j
    } else {
        path_slot(s, x, j + 1)
    }
}

/// Refusals in order of path; equal paths keep their order.
pub open spec fn by_path(s: Seq<RefusalView>) -> Seq<RefusalView>
    decreases s.len(),
{
    if s.len() == 0 {
        s
    } else {
        let rest = by_path(s.drop_last());
        rest.insert(path_slot(rest, s.last(), 0), s.last())
    }
}
/// The positions `fam` as integers.
pub open spec fn positions(fam: Seq<usize>) -> Seq<int> {
    fam.map_values(|u: usize| u as int)
}

fn family_ids(rows: &[PlanRow]) -> (f: Vec<i64>)
    ensures
        f@ == family_order(rows@, rows@.len() as int),
{
    let n = rows.len();
    let mut f: Vec<i64> = Vec::new();
    let mut i: usize = 0;
    while i < n
        invariant
            n == rows@.len(),
            i <= n,
            f@ == family_order(rows@, i as int),
        decreases n - i,
    {
        let fid = rows[i].family_id;
        let mut k: usize = 0;
        let mut seen = false;
        while k < f.len()
            invariant
                k <= f@.len(),
                seen == exists|j: int| 0 <= j < k && f@[j] == fid,
            decreases f@.len() - k,
        {
            if f[k] == fid {
                seen = true;
            }
            k = k + 1;
        }
        assert(seen == f@.contains(fid));
        if !seen {
            f.push(fid);
        }
        i = i + 1;
    }
    f
}

fn members(rows: &[PlanRow], fid: i64) -> (m: Vec<usize>)
    ensures
        positions(m@) == members_of(rows@, fid, rows@.len() as int),
        forall|j: int| 0 <= j < m@.len() ==> (#[trigger] m@[j]) < rows@.len(),
{
    let n = rows.len();
    let mut m: Vec<usize> = Vec::new();
    let mut i: usize = 0;
    while i < n
        invariant
            n == rows@.len(),
            i <= n,
            positions(m@) == members_of(rows@, fid, i as int),
            forall|j: int| 0 <= j < m@.len() ==> (#[trigger] m@[j]) < i,
        decreases n - i,
    {
        if rows[i].family_id == fid {
            let ghost before = m@;
            m.push(i);
            assert(positions(m@) =~= positions(before).push(i as int));
        }
        i = i + 1;
    }
    m
}

/// Which member of a family survives, as a position in `fam`.
fn keeper_among(rows: &[PlanRow], fam: &Vec<usize>) -> (p: usize)
    requires
        fam@.len() > 0,
        forall|j: int| 0 <= j < fam@.len() ==> (#[trigger] fam@[j]) < rows@.len(),
        forall|i: int| 0 <= i < rows@.len() ==> i64::MIN <= #[trigger] area(rows@[i]) <= i64::MAX,
    ensures
        keeper_index(rows_at(rows@, positions(fam@))) == Some(p as int),
        p < fam@.len(),
{
    let ghost fr = rows_at(rows@, positions(fam@));
    let n = fam.len();
    assert(fr.len() == n);
    assert forall|j: int| 0 <= j < n implies #[trigger] fr[j] == rows@[fam@[j] as int] by {}
    let mut i: usize = 0;
    while i < n
        invariant
            n == fam@.len(),
            fr.len() == n,
            i <= n,
            forall|j: int| 0 <= j < n ==> #[trigger] fr[j] == rows@[fam@[j] as int],
            forall|j: int| 0 <= j < fam@.len() ==> (#[trigger] fam@[j]) < rows@.len(),
            first_keeper_from(fr, 0) == first_keeper_from(fr, i as int),
            fr == rows_at(rows@, positions(fam@)),
        decreases n - i,
    {
        if rows[fam[i]].is_keeper {
            assert(fr[i as int] == rows@[fam@[i as int] as int]);
            assert(fr[i as int].is_keeper);
            assert(first_keeper_from(fr, i as int) == Some(i as int));
            return i;
        }
        i = i + 1;
    }
    let mut best: usize = 0;
    let mut k: usize = 1;
    while k < n
        invariant
            n == fam@.len(),
            fr.len() == n,
            1 <= k <= n,
            best < k,
            best == last_largest(fr, k as int),
            first_keeper_from(fr, 0) is None,
            fr == rows_at(rows@, positions(fam@)),
            forall|j: int| 0 <= j < n ==> #[trigger] fr[j] == rows@[fam@[j] as int],
            forall|j: int| 0 <= j < fam@.len() ==> (#[trigger] fam@[j]) < rows@.len(),
            forall|i: int| 0 <= i < rows@.len() ==> i64::MIN <= #[trigger] area(rows@[i]) <= i64::MAX,
        decreases n - k,
    {
        let a_row = &rows[fam[k]];
        let b_row = &rows[fam[best]];
        proof {
            assert(fr[k as int] == rows@[fam@[k as int] as int]);
            assert(fr[best as int] == rows@[fam@[best as int] as int]);
            assert(i64::MIN <= area(rows@[fam@[k as int] as int]) <= i64::MAX);
            assert(i64::MIN <= area(rows@[fam@[best as int] as int]) <= i64::MAX);
        }
        let a = a_row.width * a_row.height;
        let b = b_row.width * b_row.height;
        if a >= b {
            best = k;
        }
        k = k + 1;
    }
    best
}

fn contains_role(v: &Vec<Role>, r: Role) -> (b: bool)
    ensures
        b == v@.contains(r),
{
    let mut i: usize = 0;
    while i < v.len()
        invariant
            i <= v@.len(),
            forall|j: int| 0 <= j < i ==> v@[j] != r,
        decreases v@.len() - i,
    {
        if v[i] == r {
            return true;
        }
        i = i + 1;
    }
    false
}

fn base_name_of(p: &String) -> (r: String)
    ensures
        r@ == base_name(p@),
{
    let cs = chars_of(p.as_str());
    match rfind_char(cs.as_slice(), '/') {
        Some(k) => String::from_str(p.as_str().substring_char(k + 1, cs.len())),
        None => p.clone(),
    }
}

fn reason(role: Role, m: &PlanRow, keeper_path: &String) -> (r: String)
    ensures
        r@ == reason_text(role, *m, keeper_path@),
{
    let name = base_name_of(keeper_path);
    match role {
        Role::Copy => {
            let mut s = String::from_str("точная копия, те же пиксели сохранены в ");
            s.append(name.as_str());
            s
        },
        Role::Resize => {
            let mut s = String::from_str("уменьшенная версия ");
            let w = decimal_text(m.width);
            s.append(w.as_str());
            s.append("×");
            let h = decimal_text(m.height);
            s.append(h.as_str());
            s.append(", полный кадр остаётся в ");
            s.append(name.as_str());
            s
        },
        _ => {
            let mut s = String::from_str(role.label());
            s.append(" — в семействе остаётся ");
            s.append(name.as_str());
            s
        },
    }
}

fn lightroom_reason(c: Curated) -> (r: String)
    ensures
        r@ == lightroom_why(c),
{
    let mut s = String::from_str("файл в каталоге Lightroom");
    if let Some(r) = c.rating {
        if r > 0 {
            s.append(", ");
            let d = decimal_text(r);
            s.append(d.as_str());
            s.append(" звёзд");
        }
    }
    if !c.exact {
        s.append(" (совпадение по пути)");
    }
    proof {
        assert(s@ =~= lightroom_why(c));
    }
    s
}
/// Candidates by their views.
pub open spec fn candidate_views(s: Seq<Candidate>) -> Seq<CandidateView> {
    s.map_values(|c: Candidate| c@)
}

/// Refusals by their views.
pub open spec fn refusal_views(s: Seq<Refusal>) -> Seq<RefusalView> {
    s.map_values(|r: Refusal| r@)
}

fn sort_by_size(v: Vec<Candidate>) -> (r: Vec<Candidate>)
    ensures
        candidate_views(r@) == by_size(candidate_views(v@)),
{
    let ghost orig = candidate_views(v@);
    let mut v = v;
    let mut out: Vec<Candidate> = Vec::new();
    let ghost mut i: int = 0;
    while v.len() > 0
        invariant
            0 <= i <= orig.len(),
            candidate_views(v@) == orig.skip(i),
            candidate_views(out@) == by_size(orig.take(i)),
        decreases v@.len(),
    {
        let ghost vv = v@;
        proof {
            assert(candidate_views(vv).len() == vv.len());
            assert(candidate_views(vv)[0] == orig.skip(i)[0]);
        }
        let x = v.remove(0);
        proof {
            assert(x == vv[0]);
            assert(x@ == orig[i]);
            assert(orig.take(i + 1).drop_last() =~= orig.take(i));
            assert(orig.take(i + 1).last() == orig[i]);
            assert forall|q: int| 0 <= q < v@.len() implies #[trigger] candidate_views(v@)[q]
                == orig.skip(i + 1)[q] by {
                assert(v@[q] == vv[q + 1]);
                assert(candidate_views(vv)[q + 1] == orig.skip(i)[q + 1]);
            }
            assert(candidate_views(v@) =~= orig.skip(i + 1));
        }
        let ghost sorted = candidate_views(out@);
        let mut j: usize = 0;
        while j < out.len() && !(out[j].size < x.size)
            invariant
                j <= out@.len(),
                sorted == candidate_views(out@),
                size_slot(sorted, x@, 0) == size_slot(sorted, x@, j as int),
            decreases out@.len() - j,
        {
            j = j + 1;
        }
        out.insert(j, x);
        proof {
            assert(candidate_views(out@) =~= sorted.insert(j as int, x@));
            i = i + 1;
        }
    }
    assert(orig.take(orig.len() as int) =~= orig);
    out
}

fn sort_by_path(v: Vec<Refusal>) -> (r: Vec<Refusal>)
    ensures
        refusal_views(r@) == by_path(refusal_views(v@)),
{
    let ghost orig = refusal_views(v@);
    let mut v = v;
    let mut out: Vec<Refusal> = Vec::new();
    let ghost mut i: int = 0;
    while v.len() > 0
        invariant
            0 <= i <= orig.len(),
            refusal_views(v@) == orig.skip(i),
            refusal_views(out@) == by_path(orig.take(i)),
        decreases v@.len(),
    {
        let ghost vv = v@;
        proof {
            assert(refusal_views(vv).len() == vv.len());
            assert(refusal_views(vv)[0] == orig.skip(i)[0]);
        }
        let x = v.remove(0);
        proof {
            assert(x == vv[0]);
            assert(x@ == orig[i]);
            assert(orig.take(i + 1).drop_last() =~= orig.take(i));
            assert(orig.take(i + 1).last() == orig[i]);
            assert forall|q: int| 0 <= q < v@.len() implies #[trigger] refusal_views(v@)[q]
                == orig.skip(i + 1)[q] by {
                assert(v@[q] == vv[q + 1]);
                assert(refusal_views(vv)[q + 1] == orig.skip(i)[q + 1]);
            }
            assert(refusal_views(v@) =~= orig.skip(i + 1));
        }
        let ghost sorted = refusal_views(out@);
        let mut j: usize = 0;
        while j < out.len() && !text_lt(&x.path, &out[j].path)
            invariant
                j <= out@.len(),
                sorted == refusal_views(out@),
                path_slot(sorted, x@, 0) == path_slot(sorted, x@, j as int),
            decreases out@.len() - j,
        {
            j = j + 1;
        }
        out.insert(j, x);
        proof {
            assert(refusal_views(out@) =~= sorted.insert(j as int, x@));
            i = i + 1;
        }
    }
    assert(orig.take(orig.len() as int) =~= orig);
    out
}

proof fn lemma_family_order_present(rows: Seq<PlanRow>, n: int, k: int)
    requires
        0 <= n <= rows.len(),
        0 <= k < family_order(rows, n).len(),
    ensures
        exists|i: int| 0 <= i < n && rows[i].family_id == family_order(rows, n)[k],
    decreases n,
{
    if n > 0 {
        let f = family_order(rows, n - 1);
        if k < f.len() {
            lemma_family_order_present(rows, n - 1, k);
            assert(family_order(rows, n)[k] == f[k]);
        } else {
            assert(rows[n - 1].family_id == family_order(rows, n)[k]);
        }
    }
}

proof fn lemma_members_present(rows: Seq<PlanRow>, fid: i64, n: int, i: int)
    requires
        0 <= i < n <= rows.len(),
        rows[i].family_id == fid,
    ensures
        members_of(rows, fid, n).len() > 0,
    decreases n,
{
    if i < n - 1 {
        lemma_members_present(rows, fid, n - 1, i);
    }
}

/// What the plan treats as protected under `policy`: the masters a live
/// Lightroom catalog references (`catalogued`, each path with its rating),
/// when the policy respects Lightroom; nothing at all when it does not.
pub fn protection_index(policy: &Policy, catalogued: Vec<(String, Option<i64>)>) -> (idx:
    CurationIndex)
    ensures
        policy.respect_lightroom ==> (idx.paths(), idx.tails(), idx.ambiguous_tails()) == model_of(
            entry_views(catalogued@),
        ),
        !policy.respect_lightroom ==> forall|path: Seq<char>|
            #[trigger] lookup_in(idx.paths(), idx.tails(), path) is None,
{
    if policy.respect_lightroom {
        CurationIndex::build(catalogued)
    } else {
        let idx = CurationIndex::build(Vec::new());
        proof {
            assert(entry_views(Seq::<(String, Option<i64>)>::empty()) =~= Seq::empty());
        }
        idx
    }
}

/// The plan for `rows`: every member the policy would take, with the member
/// that makes taking it safe, largest first; and every member refused, with
/// why, in order of path. Families are taken in the order they first appear.
pub fn compute_plan(rows: &[PlanRow], policy: &Policy, protected: &CurationIndex) -> (p: Plan)
    requires
        forall|i: int| 0 <= i < rows@.len() ==> i64::MIN <= #[trigger] area(rows@[i]) <= i64::MAX,
    ensures
        candidate_views(p.candidates@) == by_size(
            takes_upto(
                rows@,
                *policy,
                protected.paths(),
                protected.tails(),
                family_order(rows@, rows@.len() as int).len() as int,
            ),
        ),
        refusal_views(p.refusals@) == by_path(
            refusals_upto(
                rows@,
                *policy,
                protected.paths(),
                protected.tails(),
                family_order(rows@, rows@.len() as int).len() as int,
            ),
        ),
{
    let ghost paths = protected.paths();
    let ghost tails = protected.tails();
    let ghost n = rows@.len() as int;
    let fams = family_ids(rows);
    let mut cands: Vec<Candidate> = Vec::new();
    let mut refs: Vec<Refusal> = Vec::new();
    let mut k: usize = 0;
    while k < fams.len()
        invariant
            k <= fams@.len(),
            n == rows@.len(),
            fams@ == family_order(rows@, n),
            paths == protected.paths(),
            tails == protected.tails(),
            forall|i: int| 0 <= i < rows@.len() ==> i64::MIN <= #[trigger] area(rows@[i]) <= i64::MAX,
            candidate_views(cands@) == takes_upto(rows@, *policy, paths, tails, k as int),
            refusal_views(refs@) == refusals_upto(rows@, *policy, paths, tails, k as int),
        decreases fams@.len() - k,
    {
        let fam = members(rows, fams[k]);
        let ghost famv = positions(fam@);
        proof {
            lemma_family_order_present(rows@, n, k as int);
            let i = choose|i: int| 0 <= i < n && rows@[i].family_id == family_order(rows@, n)[k as int];
            lemma_members_present(rows@, fams@[k as int], n, i);
        }
        let kp = keeper_among(rows, &fam);
        let keeper = &rows[fam[kp]];
        proof {
            assert(rows_at(rows@, famv)[kp as int] == rows@[fam@[kp as int] as int]);
        }
        let ghost c0 = candidate_views(cands@);
        let ghost r0 = refusal_views(refs@);
        let mut j: usize = 0;
        while j < fam.len()
            invariant
                j <= fam@.len(),
                n == rows@.len(),
                famv == positions(fam@),
                famv == members_of(rows@, fams@[k as int], n),
                forall|q: int| 0 <= q < fam@.len() ==> (#[trigger] fam@[q]) < rows@.len(),
                keeper_index(rows_at(rows@, famv)) == Some(kp as int),
                *keeper == rows_at(rows@, famv)[kp as int],
                paths == protected.paths(),
                tails == protected.tails(),
                forall|i: int| 0 <= i < rows@.len() ==> i64::MIN <= #[trigger] area(rows@[i]) <= i64::MAX,
                candidate_views(cands@) == c0 + takes_in(rows@, *policy, paths, tails, famv, j as int),
                refusal_views(refs@) == r0 + refusals_in(rows@, *policy, paths, tails, famv, j as int),
            decreases fam@.len() - j,
        {
            let i = fam[j];
            let m = &rows[i];
            let ghost v = verdict(rows@, *policy, paths, tails, famv, i as int);
            let ghost cb = candidate_views(cands@);
            let ghost rb = refusal_views(refs@);
            proof {
                assert(famv[j as int] == i as int);
                assert(i64::MIN <= area(rows@[i as int]) <= i64::MAX);
            }
            let role = match Role::parse(m.role.as_str()) {
                Some(r) => r,
                None => Role::Unknown,
            };
            if !contains_role(&policy.remove_roles, role) {
                assert(v is Skip);
            } else if m.file_id == keeper.file_id {
                assert(v is Skip);
            } else if fam.len() < 2 {
                refs.push(Refusal { path: m.path.clone(), why: String::from_str("единственный файл в семействе") });
                assert(refusal_views(refs@) =~= rb.push(
                    RefusalView { path: m.path@, why: "единственный файл в семействе"@ },
                ));
            } else if role == Role::Resize && m.width * m.height >= policy.resize_below_pixels {
                assert(v is Skip);
            } else {
                match protected.lookup(m.path.as_str()) {
                    Some(c) => {
                        let why = lightroom_reason(c);
                        refs.push(Refusal { path: m.path.clone(), why });
                        assert(refusal_views(refs@) =~= rb.push(
                            RefusalView { path: m.path@, why: lightroom_why(c) },
                        ));
                    },
                    None => {
                        let why = reason(role, m, &keeper.path);
                        cands.push(
                            Candidate {
                                file_id: m.file_id,
                                family_id: m.family_id,
                                path: m.path.clone(),
                                size: m.size,
                                role,
                                keeper_id: keeper.file_id,
                                keeper_path: keeper.path.clone(),
                                reason: why,
                            },
                        );
                        assert(candidate_views(cands@) =~= cb.push(
                            CandidateView {
                                file_id: m.file_id,
                                family_id: m.family_id,
                                path: m.path@,
                                size: m.size,
                                role,
                                keeper_id: keeper.file_id,
                                keeper_path: keeper.path@,
                                reason: reason_text(role, *m, keeper.path@),
                            },
                        ));
                    },
                }
            }
            proof {
                assert(c0 + takes_in(rows@, *policy, paths, tails, famv, j + 1) =~= candidate_views(cands@));
                assert(r0 + refusals_in(rows@, *policy, paths, tails, famv, j + 1) =~= refusal_views(refs@));
            }
            j = j + 1;
        }
        k = k + 1;
    }
    let candidates = sort_by_size(cands);
    let refusals = sort_by_path(refs);
    Plan { candidates, refusals }
}
/// A candidate the policy allows, that is not its family's keeper, and that
/// no Lightroom catalog knows about.
pub open spec fn safe_take(
    policy: Policy,
    paths: Map<Seq<char>, Option<i64>>,
    tails: Map<Seq<char>, Option<i64>>,
    c: CandidateView,
) -> bool {
    &&& policy.remove_roles@.contains(c.role)
    &&& c.file_id != c.keeper_id
    &&& lookup_in(paths, tails, c.path) is None
}

proof fn lemma_takes_in_safe(
    rows: Seq<PlanRow>,
    policy: Policy,
    paths: Map<Seq<char>, Option<i64>>,
    tails: Map<Seq<char>, Option<i64>>,
    fam: Seq<int>,
    j: int,
)
    ensures
        forall|q: int|
            0 <= q < takes_in(rows, policy, paths, tails, fam, j).len() ==> safe_take(
                policy,
                paths,
                tails,
                #[trigger] takes_in(rows, policy, paths, tails, fam, j)[q],
            ),
    decreases j,
{
    if j > 0 {
        lemma_takes_in_safe(rows, policy, paths, tails, fam, j - 1);
        let prev = takes_in(rows, policy, paths, tails, fam, j - 1);
        match verdict(rows, policy, paths, tails, fam, fam[j - 1]) {
            Verdict::Take(c) => {
                assert(safe_take(policy, paths, tails, c));
                assert forall|q: int| 0 <= q < prev.push(c).len() implies safe_take(
                    policy,
                    paths,
                    tails,
                    #[trigger] prev.push(c)[q],
                ) by {
                    if q < prev.len() {
                        assert(prev.push(c)[q] == prev[q]);
                    }
                }
            },
            _ => {},
        }
    }
}

proof fn lemma_takes_upto_safe(
    rows: Seq<PlanRow>,
    policy: Policy,
    paths: Map<Seq<char>, Option<i64>>,
    tails: Map<Seq<char>, Option<i64>>,
    k: int,
)
    ensures
        forall|q: int|
            0 <= q < takes_upto(rows, policy, paths, tails, k).len() ==> safe_take(
                policy,
                paths,
                tails,
                #[trigger] takes_upto(rows, policy, paths, tails, k)[q],
            ),
    decreases k,
{
    if k > 0 {
        lemma_takes_upto_safe(rows, policy, paths, tails, k - 1);
        let fam = members_of(rows, family_order(rows, rows.len() as int)[k - 1], rows.len() as int);
        lemma_takes_in_safe(rows, policy, paths, tails, fam, fam.len() as int);
        let a = takes_upto(rows, policy, paths, tails, k - 1);
        let b = takes_in(rows, policy, paths, tails, fam, fam.len() as int);
        assert forall|q: int| 0 <= q < (a + b).len() implies safe_take(
            policy,
            paths,
            tails,
            #[trigger] (a + b)[q],
        ) by {
            if q < a.len() {
                assert((a + b)[q] == a[q]);
            } else {
                assert((a + b)[q] == b[q - a.len()]);
            }
        }
    }
}

proof fn lemma_size_slot_bounds(s: Seq<CandidateView>, x: CandidateView, j: int)
    requires
        0 <= j <= s.len(),
    ensures
        j <= size_slot(s, x, j) <= s.len(),
    decreases s.len() - j,
{
    if j < s.len() && !(s[j].size < x.size) {
        lemma_size_slot_bounds(s, x, j + 1);
    }
}

/// Sorting by size neither adds nor drops a candidate.
proof fn lemma_by_size_members(s: Seq<CandidateView>)
    ensures
        by_size(s).len() == s.len(),
        forall|y: CandidateView| by_size(s).contains(y) <==> s.contains(y),
    decreases s.len(),
{
    if s.len() > 0 {
        let rest = by_size(s.drop_last());
        lemma_by_size_members(s.drop_last());
        let x = s.last();
        lemma_size_slot_bounds(rest, x, 0);
        let j = size_slot(rest, x, 0);
        rest.insert_ensures(j, x);
        let t = rest.insert(j, x);
        assert forall|y: CandidateView| t.contains(y) <==> s.contains(y) by {
            if t.contains(y) {
                let i = choose|i: int| 0 <= i < t.len() && t[i] == y;
                if i < j {
                    assert(rest[i] == y);
                    assert(s.drop_last().contains(y));
                    let w = choose|w: int| 0 <= w < s.drop_last().len() && s.drop_last()[w] == y;
                    assert(s[w] == y);
                } else if i == j {
                    assert(s[s.len() - 1] == y);
                } else {
                    assert(rest[i - 1] == y);
                    assert(s.drop_last().contains(y));
                    let w = choose|w: int| 0 <= w < s.drop_last().len() && s.drop_last()[w] == y;
                    assert(s[w] == y);
                }
            }
            if s.contains(y) {
                let w = choose|w: int| 0 <= w < s.len() && s[w] == y;
                if w == s.len() - 1 {
                    assert(t[j] == y);
                } else {
                    assert(s.drop_last()[w] == y);
                    assert(s.drop_last().contains(y));
                    assert(rest.contains(y));
                    let i = choose|i: int| 0 <= i < rest.len() && rest[i] == y;
                    if i < j {
                        assert(t[i] == y);
                    } else {
                        assert(t[i + 1] == y);
                    }
                }
            }
        }
    }
}

/// What the plan proposes to move is only ever what the policy lets go, never
/// the member that makes moving the others safe, and never a file a
/// Lightroom catalog knows about; sorting by size changes none of that.
pub proof fn law_planned_moves_are_safe(
    rows: Seq<PlanRow>,
    policy: Policy,
    paths: Map<Seq<char>, Option<i64>>,
    tails: Map<Seq<char>, Option<i64>>,
)
    ensures
        forall|c: CandidateView|
            #[trigger] by_size(
                takes_upto(rows, policy, paths, tails, family_order(rows, rows.len() as int).len() as int),
            ).contains(c) ==> safe_take(policy, paths, tails, c),
{
    let k = family_order(rows, rows.len() as int).len() as int;
    let t = takes_upto(rows, policy, paths, tails, k);
    lemma_takes_upto_safe(rows, policy, paths, tails, k);
    lemma_by_size_members(t);
    assert forall|c: CandidateView| #[trigger] by_size(t).contains(c) implies safe_take(
        policy,
        paths,
        tails,
        c,
    ) by {
        assert(t.contains(c));
        let q = choose|q: int| 0 <= q < t.len() && t[q] == c;
        assert(safe_take(policy, paths, tails, t[q]));
    }
}
/// Under a policy that parts only with exact copies, as the default one
/// does, everything the plan proposes to move is an exact copy.
pub proof fn law_default_policy_moves_only_copies(
    rows: Seq<PlanRow>,
    policy: Policy,
    paths: Map<Seq<char>, Option<i64>>,
    tails: Map<Seq<char>, Option<i64>>,
)
    requires
        policy.remove_roles@ == seq![Role::Copy],
    ensures
        forall|c: CandidateView|
            #[trigger] by_size(
                takes_upto(rows, policy, paths, tails, family_order(rows, rows.len() as int).len() as int),
            ).contains(c) ==> c.role == Role::Copy,
{
    law_planned_moves_are_safe(rows, policy, paths, tails);
    assert forall|c: CandidateView|
        #[trigger] by_size(
            takes_upto(rows, policy, paths, tails, family_order(rows, rows.len() as int).len() as int),
        ).contains(c) implies c.role == Role::Copy by {
        assert(policy.remove_roles@.contains(c.role));
        let i = choose|i: int| 0 <= i < policy.remove_roles@.len() && policy.remove_roles@[i] == c.role;
        assert(policy.remove_roles@[i] == Role::Copy);
    }
}

} // verus!
