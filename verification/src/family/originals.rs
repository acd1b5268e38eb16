//! Folders named as holding the archive's originals, applied to the groups.
//!
//! "The photographs live under `/foto`, everything in `/backup` is a copy
//! of them": said once, that settles every group with a file in the marked
//! folder — but only where the marked folder holds the same picture as the
//! group keeps, and never where a person already answered. What a mark
//! covers is [`Marks`]'s; this decides, group by group, what the rule does.
use vstd::prelude::*;
use crate::db::marks::Marks;
use crate::paths::{segments, split_segments};

verus! {

/// A present member of a group, as the rule reads it.
#[derive(Debug, Clone)]
pub struct SettleMember {
    pub file_id: i64,
    pub path: String,
    /// Where the member's quality stands among the group's: a higher rank
    /// is a better file.
    pub quality_rank: u64,
    /// The member is a copy of the picture the group keeps: what it has to
    /// match and what the kept file offers agree.
    pub same_picture: bool,
    /// A person set this file aside.
    pub rejected: bool,
}

/// A group, as the rule reads it.
#[derive(Debug, Clone)]
pub struct SettleFamily {
    pub family: i64,
    pub members: Vec<SettleMember>,
    /// A person chose the kept file by hand; no rule overrules that.
    pub by_hand: bool,
    /// The file the group keeps now, if any.
    pub keeper: Option<i64>,
}

/// What the rule does with one group.
#[derive(Debug, Clone, Copy, PartialEq, Eq, Structural)]
pub enum Settled {
    /// No mark covers any of its files.
    NotCovered,
    /// A person already answered it.
    ByHand,
    /// The marked folder holds a different picture, or only files set
    /// aside: it is left for a person.
    Untouched,
    /// The rule keeps this file.
    Keep(i64),
}

/// How specific the mark covering `path` is, in the components it names:
/// none when no mark covers it.
pub open spec fn member_depth(marks: Marks, path: Seq<char>) -> Option<nat> {
    match marks.covering_upto(path, marks.marks@.len() as int) {
        Some(i) => Some(segments(marks.marks@[i].path@).len()),
        None => None,
    }
}

/// The rule may choose `m`: a mark covers it, nobody set it aside, and it
/// is a copy of the kept picture.
pub open spec fn eligible(marks: Marks, m: SettleMember) -> bool {
    member_depth(marks, m.path@) is Some && !m.rejected && m.same_picture
}

/// `a` is preferred to `b`: covered by a deeper mark, or as deep and of a
/// higher quality, or as good and the older file.
pub open spec fn preferred(marks: Marks, a: SettleMember, b: SettleMember) -> bool {
    let da = member_depth(marks, a.path@).unwrap();
    let db = member_depth(marks, b.path@).unwrap();
    da > db || (da == db && (a.quality_rank > b.quality_rank || (a.quality_rank
        == b.quality_rank && a.file_id < b.file_id)))
}

/// Among the first `k` members, the one the rule prefers, first found
/// among equals.
pub open spec fn best_upto(marks: Marks, ms: Seq<SettleMember>, k: int) -> Option<int>
    decreases k,
{
    if k <= 0 {
        None
    } else {
        let prev = best_upto(marks, ms, k - 1);
        if !eligible(marks, ms[k - 1]) {
            prev
        } else {
            match prev {
                None => Some(k - 1),
                Some(b) => if preferred(marks, ms[k - 1], ms[b]) {
                    Some(k - 1)
                } else {
                    prev
                },
            }
        }
    }
}

/// What the rule does with the group whose members are `ms`.
pub open spec fn settle_spec(marks: Marks, ms: Seq<SettleMember>, by_hand: bool) -> Settled {
    if !(exists|i: int| 0 <= i < ms.len() && #[trigger] member_depth(marks, ms[i].path@) is Some) {
        Settled::NotCovered
    } else if by_hand {
        Settled::ByHand
    } else {
        match best_upto(marks, ms, ms.len() as int) {
            None => Settled::Untouched,
            Some(i) => Settled::Keep(ms[i].file_id),
        }
    }
}

fn depth_of_member(marks: &Marks, path: &str) -> (r: Option<usize>)
    ensures
        match member_depth(*marks, path@) {
            Some(d) => r is Some && r.unwrap() == d,
            None => r is None,
        },
{
    match marks.covering(path) {
        Some(m) => Some(split_segments(m.path.as_str()).len()),
        None => None,
    }
}

proof fn lemma_best_upto_bounds(marks: Marks, ms: Seq<SettleMember>, k: int)
    ensures
        best_upto(marks, ms, k) matches Some(b) ==> 0 <= b < k && eligible(marks, ms[b]),
        best_upto(marks, ms, k) is None ==> forall|j: int|
            0 <= j < k && j < ms.len() ==> !eligible(marks, #[trigger] ms[j]),
    decreases k,
{
    if k > 0 {
        lemma_best_upto_bounds(marks, ms, k - 1);
    }
}

/// What the rule does with the group `f`: nothing when no mark covers any
/// of its files; nothing but counting it when a person chose its kept file;
/// else the member it prefers among those a mark covers, nobody set aside,
/// and that are copies of the kept picture — the deepest mark first, then
/// quality, then the older file — or nothing when there is none.
pub fn settle_family(marks: &Marks, f: &SettleFamily) -> (r: Settled)
    ensures
        r == settle_spec(*marks, f.members@, f.by_hand),
{
    let ms = &f.members;
    let n = ms.len();
    let mut covered = false;
    let mut best: Option<usize> = None;
    let mut best_depth: usize = 0;
    let mut i: usize = 0;
    while i < n
        invariant
            n == ms@.len(),
            i <= n,
            covered <==> exists|j: int| 0 <= j < i && #[trigger] member_depth(*marks, ms@[j].path@) is Some,
            match best_upto(*marks, ms@, i as int) {
                Some(b) => best is Some && best.unwrap() == b && member_depth(*marks, ms@[b].path@)
                    is Some && member_depth(*marks, ms@[b].path@).unwrap() == best_depth,
                None => best is None,
            },
            forall|b: usize| best == Some(b) ==> b < i,
        decreases n - i,
    {
        proof {
            lemma_best_upto_bounds(*marks, ms@, i as int);
        }
        let m = &ms[i];
        let d = depth_of_member(marks, m.path.as_str());
        if let Some(depth) = d {
            covered = true;
            if !m.rejected && m.same_picture {
                let take = match best {
                    None => true,
                    Some(b) => {
                        let o = &ms[b];
                        depth > best_depth || (depth == best_depth && (m.quality_rank
                            > o.quality_rank || (m.quality_rank == o.quality_rank && m.file_id
                            < o.file_id)))
                    },
                };
                if take {
                    best = Some(i);
                    best_depth = depth;
                }
            }
        }
        proof {
            if d is Some {
                assert(member_depth(*marks, ms@[i as int].path@) is Some);
            }
        }
        i = i + 1;
    }
    if !covered {
        return Settled::NotCovered;
    }
    if f.by_hand {
        return Settled::ByHand;
    }
    match best {
        None => Settled::Untouched,
        Some(b) => Settled::Keep(ms[b].file_id),
    }
}

/// A group whose kept file the rule changes: the file it keeps from now
/// on, and the one it kept before.
#[derive(Debug, Clone, Copy, PartialEq, Eq, Structural)]
pub struct KeeperChange {
    pub family: i64,
    pub file: i64,
    pub was: Option<i64>,
}

/// What applying the marks did: the groups they reach, those a person had
/// answered, those left for a person, and those whose kept file moved.
#[derive(Debug, Clone, Copy, Default, PartialEq, Eq, Structural)]
pub struct SettleReport {
    pub groups: u64,
    pub moved: u64,
    pub untouched: u64,
    pub by_hand: u64,
}

/// The counts and changes over the first `k` groups.
pub open spec fn plan_upto(marks: Marks, fs: Seq<SettleFamily>, k: int) -> (
    SettleReport,
    Seq<KeeperChange>,
)
    decreases k,
{
    if k <= 0 {
        (SettleReport { groups: 0, moved: 0, untouched: 0, by_hand: 0 }, Seq::empty())
    } else {
        let (r, c) = plan_upto(marks, fs, k - 1);
        let f = fs[k - 1];
        match settle_spec(marks, f.members@, f.by_hand) {
            Settled::NotCovered => (r, c),
            Settled::ByHand => (
                SettleReport { groups: (r.groups + 1) as u64, by_hand: (r.by_hand + 1) as u64, ..r },
                c,
            ),
            Settled::Untouched => (
                SettleReport {
                    groups: (r.groups + 1) as u64,
                    untouched: (r.untouched + 1) as u64,
                    ..r
                },
                c,
            ),
            Settled::Keep(file) => (
                SettleReport { groups: (r.groups + 1) as u64, ..r },
                c.push(KeeperChange { family: f.family, file, was: f.keeper }),
            ),
        }
    }
}

/// Apply the marks to every group, in order: the kept files to set, and
/// the counts of groups reached, answered by hand and left for a person.
/// `moved` is counted as each change is written ([`SettleReport::count_move`]).
pub fn settle_plan(marks: &Marks, families: &[SettleFamily]) -> (r: (SettleReport, Vec<KeeperChange>))
    requires
        families@.len() <= u64::MAX,
    ensures
        (r.0, r.1@) == plan_upto(*marks, families@, families@.len() as int),
        r.0.moved == 0,
{
    let mut report = SettleReport { groups: 0, moved: 0, untouched: 0, by_hand: 0 };
    let mut changes: Vec<KeeperChange> = Vec::new();
    let mut k: usize = 0;
    while k < families.len()
        invariant
            k <= families@.len(),
            families@.len() <= u64::MAX,
            (report, changes@) == plan_upto(*marks, families@, k as int),
            report.groups <= k && report.by_hand <= k && report.untouched <= k,
            report.moved == 0,
        decreases families@.len() - k,
    {
        let f = &families[k];
        match settle_family(marks, f) {
            Settled::NotCovered => {},
            Settled::ByHand => {
                report.groups = report.groups + 1;
                report.by_hand = report.by_hand + 1;
            },
            Settled::Untouched => {
                report.groups = report.groups + 1;
                report.untouched = report.untouched + 1;
            },
            Settled::Keep(file) => {
                report.groups = report.groups + 1;
                changes.push(KeeperChange { family: f.family, file, was: f.keeper });
            },
        }
        k = k + 1;
    }
    (report, changes)
}

impl SettleReport {
    /// A change was written: `written` is whether the store took it. It
    /// moved the group's kept file when it was taken and named another file
    /// than the one kept before.
    pub fn count_move(&mut self, change: &KeeperChange, written: bool)
        requires
            old(self).moved < u64::MAX,
        ensures
            final(self).moved == old(self).moved + if written && change.was != Some(change.file) {
                1int
            } else {
                0int
            },
            final(self).groups == old(self).groups,
            final(self).untouched == old(self).untouched,
            final(self).by_hand == old(self).by_hand,
    {
        if written && change.was != Some(change.file) {
            self.moved = self.moved + 1;
        }
    }
}

/// The rule never overrules a person: a group whose kept file was chosen
/// by hand is never given another, and a file set aside is never chosen.
/// Whatever it chooses is covered by a mark and is a copy of the kept
/// picture, and no other such member is preferred to it.
pub proof fn law_a_mark_never_overrules_a_person(marks: Marks, ms: Seq<SettleMember>, by_hand: bool)
    ensures
        by_hand ==> !(settle_spec(marks, ms, by_hand) is Keep),
        settle_spec(marks, ms, by_hand) matches Settled::Keep(file) ==> exists|i: int|
            0 <= i < ms.len() && ms[i].file_id == file && eligible(marks, ms[i]) && forall|j: int|
                0 <= j < ms.len() && eligible(marks, #[trigger] ms[j]) ==> !preferred(
                    marks,
                    ms[j],
                    ms[i],
                ) || j == i,
{
    lemma_best_upto_bounds(marks, ms, ms.len() as int);
    if let Some(b) = best_upto(marks, ms, ms.len() as int) {
        lemma_best_is_best(marks, ms, ms.len() as int);
    }
}

/// The group `f` as the rule's answer leaves it once written: the file the
/// rule chose is the kept one, and everything else is as it was.
pub open spec fn after_settle(marks: Marks, f: SettleFamily) -> SettleFamily {
    match settle_spec(marks, f.members@, f.by_hand) {
        Settled::Keep(file) => SettleFamily { keeper: Some(file), ..f },
        _ => f,
    }
}

/// Settling twice is settling once. Run again on the groups as the first
/// run left them, the rule reaches, answers by hand and leaves for a person
/// the same groups, chooses the same file for each group it settles, and
/// each of those is the file the group already keeps, so the second run
/// moves nothing.
pub proof fn law_settling_twice_is_settling_once(marks: Marks, fs: Seq<SettleFamily>)
    ensures
        ({
            let n = fs.len() as int;
            let once = plan_upto(marks, fs, n);
            let twice = plan_upto(marks, fs.map_values(|f: SettleFamily| after_settle(marks, f)), n);
            &&& twice.0 == once.0
            &&& twice.1.len() == once.1.len()
            &&& forall|j: int|
                0 <= j < once.1.len() ==> #[trigger] twice.1[j].family == once.1[j].family
                    && twice.1[j].file == once.1[j].file && twice.1[j].was == Some(
                    twice.1[j].file,
                )
        }),
{
    lemma_settle_again(marks, fs, fs.len() as int);
}

proof fn lemma_settle_again(marks: Marks, fs: Seq<SettleFamily>, k: int)
    requires
        0 <= k <= fs.len(),
    ensures
        ({
            let once = plan_upto(marks, fs, k);
            let twice = plan_upto(marks, fs.map_values(|f: SettleFamily| after_settle(marks, f)), k);
            &&& twice.0 == once.0
            &&& twice.1.len() == once.1.len()
            &&& forall|j: int|
                0 <= j < once.1.len() ==> #[trigger] twice.1[j].family == once.1[j].family
                    && twice.1[j].file == once.1[j].file && twice.1[j].was == Some(
                    twice.1[j].file,
                )
        }),
    decreases k,
{
    if k > 0 {
        lemma_settle_again(marks, fs, k - 1);
        let gs = fs.map_values(|f: SettleFamily| after_settle(marks, f));
        let f = fs[k - 1];
        assert(gs[k - 1] == after_settle(marks, f));
        assert(gs[k - 1].members@ == f.members@);
        assert(gs[k - 1].by_hand == f.by_hand);
        assert(gs[k - 1].family == f.family);
        let once0 = plan_upto(marks, fs, k - 1);
        let twice0 = plan_upto(marks, gs, k - 1);
        let once = plan_upto(marks, fs, k);
        let twice = plan_upto(marks, gs, k);
        if let Settled::Keep(file) = settle_spec(marks, f.members@, f.by_hand) {
            assert(gs[k - 1].keeper == Some(file));
            assert(once.1 == once0.1.push(KeeperChange { family: f.family, file, was: f.keeper }));
            assert(twice.1 == twice0.1.push(
                KeeperChange { family: f.family, file, was: Some(file) },
            ));
            assert forall|j: int| 0 <= j < once.1.len() implies #[trigger] twice.1[j].family
                == once.1[j].family && twice.1[j].file == once.1[j].file && twice.1[j].was == Some(
                twice.1[j].file,
            ) by {
                if j < once0.1.len() {
                    assert(twice.1[j] == twice0.1[j]);
                    assert(once.1[j] == once0.1[j]);
                }
            }
        }
    }
}

/// With no folder marked, the rule reaches no group and changes nothing.
pub proof fn law_no_marks_no_answer(marks: Marks, fs: Seq<SettleFamily>)
    requires
        marks.marks@.len() == 0,
    ensures
        plan_upto(marks, fs, fs.len() as int) == (
            SettleReport { groups: 0, moved: 0, untouched: 0, by_hand: 0 },
            Seq::<KeeperChange>::empty(),
        ),
{
    lemma_no_marks(marks, fs, fs.len() as int);
}

proof fn lemma_no_marks(marks: Marks, fs: Seq<SettleFamily>, k: int)
    requires
        marks.marks@.len() == 0,
        0 <= k <= fs.len(),
    ensures
        plan_upto(marks, fs, k) == (
            SettleReport { groups: 0, moved: 0, untouched: 0, by_hand: 0 },
            Seq::<KeeperChange>::empty(),
        ),
    decreases k,
{
    if k > 0 {
        lemma_no_marks(marks, fs, k - 1);
        let ms = fs[k - 1].members@;
        assert forall|i: int| 0 <= i < ms.len() implies !(#[trigger] member_depth(
            marks,
            ms[i].path@,
        ) is Some) by {
            assert(marks.covering_upto(ms[i].path@, 0) is None);
        }
    }
}

proof fn lemma_best_is_best(marks: Marks, ms: Seq<SettleMember>, k: int)
    requires
        0 <= k <= ms.len(),
    ensures
        best_upto(marks, ms, k) matches Some(b) ==> forall|j: int|
            0 <= j < k && eligible(marks, #[trigger] ms[j]) ==> !preferred(marks, ms[j], ms[b]) || j
                == b,
    decreases k,
{
    if k > 0 {
        lemma_best_is_best(marks, ms, k - 1);
        lemma_best_upto_bounds(marks, ms, k - 1);
        lemma_best_upto_bounds(marks, ms, k);
        if let Some(b) = best_upto(marks, ms, k) {
            assert forall|j: int|
                0 <= j < k && eligible(marks, #[trigger] ms[j]) implies !preferred(
                marks,
                ms[j],
                ms[b],
            ) || j == b by {
                if let Some(p) = best_upto(marks, ms, k - 1) {
                    if j < k - 1 && b == k - 1 && preferred(marks, ms[j], ms[b]) {
                        // ms[b] is preferred to ms[p], which no earlier member beats.
                        lemma_preferred_transitive(marks, ms[j], ms[b], ms[p]);
                    }
                }
            }
        }
    }
}

proof fn lemma_preferred_transitive(marks: Marks, a: SettleMember, b: SettleMember, c: SettleMember)
    requires
        eligible(marks, a),
        eligible(marks, b),
        eligible(marks, c),
        preferred(marks, a, b),
        preferred(marks, b, c),
    ensures
        preferred(marks, a, c),
{
}

} // verus!
