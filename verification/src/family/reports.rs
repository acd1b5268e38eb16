//! What the family stages report back.
use vstd::prelude::*;
use crate::family::roles::Role;

verus! {

/// How many group members play each role.
#[derive(Debug, Default, Clone, Copy, PartialEq, Eq, Structural)]
pub struct RoleTally {
    pub original: usize,
    pub camera_jpeg: usize,
    pub converted: usize,
    pub export: usize,
    pub resize: usize,
    pub copy: usize,
    pub unknown: usize,
}

impl RoleTally {
    /// The count for `role`.
    pub open spec fn of(self, role: Role) -> usize {
        match role {
            Role::Original => self.original,
            Role::CameraJpeg => self.camera_jpeg,
            Role::Converted => self.converted,
            Role::Export => self.export,
            Role::Resize => self.resize,
            Role::Copy => self.copy,
            Role::Unknown => self.unknown,
        }
    }

    /// The count for `role`.
    pub fn count(&self, role: Role) -> (r: usize)
        ensures
            r == self.of(role),
    {
        match role {
            Role::Original => self.original,
            Role::CameraJpeg => self.camera_jpeg,
            Role::Converted => self.converted,
            Role::Export => self.export,
            Role::Resize => self.resize,
            Role::Copy => self.copy,
            Role::Unknown => self.unknown,
        }
    }

    /// One more member plays `role`.
    pub fn add(&mut self, role: Role)
        requires
            old(self).of(role) < usize::MAX,
        ensures
            forall|r: Role| #[trigger] final(self).of(r) == old(self).of(r) + if r == role {
                1int
            } else {
                0int
            },
    {
        match role {
            Role::Original => self.original = self.original + 1,
            Role::CameraJpeg => self.camera_jpeg = self.camera_jpeg + 1,
            Role::Converted => self.converted = self.converted + 1,
            Role::Export => self.export = self.export + 1,
            Role::Resize => self.resize = self.resize + 1,
            Role::Copy => self.copy = self.copy + 1,
            Role::Unknown => self.unknown = self.unknown + 1,
        }
    }
}

/// How many of `roles` are `role`.
pub open spec fn members_as(roles: Seq<Role>, role: Role) -> nat
    decreases roles.len(),
{
    if roles.len() == 0 {
        0
    } else {
        members_as(roles.drop_last(), role) + if roles.last() == role {
            1nat
        } else {
            0nat
        }
    }
}

/// The bytes of the members of `roles` that a plan removes by default:
/// the copies.
pub open spec fn removable_bytes_of(roles: Seq<Role>, sizes: Seq<i64>) -> int
    decreases roles.len(),
{
    if roles.len() == 0 {
        0
    } else {
        removable_bytes_of(roles.drop_last(), sizes) + if roles.last() == Role::Copy {
            sizes[roles.len() - 1] as int
        } else {
            0int
        }
    }
}

#[derive(Debug, Default)]
pub struct BuildReport {
    pub files: usize,
    pub families: usize,
    pub multi_member: usize,
    pub exact_links: usize,
    pub perceptual_candidates: usize,
    pub perceptual_verified: usize,
    pub rejected_by_ssim: u64,
    pub rejected_as_blank: u64,
    pub rejected_as_series: u64,
    pub by_role: RoleTally,
    pub removable_files: usize,
    pub removable_bytes: i64,
}

impl BuildReport {
    /// One group is written: its members are counted under their roles
    /// (`roles`, with the members' `sizes` in the same order), the copies
    /// among them, which a plan removes by default, with their bytes, and
    /// the group itself, as one with several members when it has them.
    pub fn count_family(&mut self, roles: &[Role], sizes: &[i64])
        requires
            roles@.len() == sizes@.len(),
            old(self).families < usize::MAX,
            old(self).multi_member < usize::MAX,
            forall|r: Role| old(self).by_role.of(r) + #[trigger] members_as(roles@, r) <= usize::MAX,
            old(self).removable_files + members_as(roles@, Role::Copy) <= usize::MAX,
            i64::MIN <= old(self).removable_bytes + removable_bytes_of(roles@, sizes@) <= i64::MAX,
        ensures
            final(self).families == old(self).families + 1,
            final(self).multi_member == old(self).multi_member + if roles@.len() > 1 {
                1int
            } else {
                0int
            },
            forall|r: Role| #[trigger] final(self).by_role.of(r) == old(self).by_role.of(r) + members_as(roles@, r),
            final(self).removable_files == old(self).removable_files + members_as(roles@, Role::Copy),
            final(self).removable_bytes == old(self).removable_bytes + removable_bytes_of(roles@, sizes@),
            final(self).files == old(self).files,
            final(self).exact_links == old(self).exact_links,
            final(self).perceptual_candidates == old(self).perceptual_candidates,
            final(self).perceptual_verified == old(self).perceptual_verified,
            final(self).rejected_by_ssim == old(self).rejected_by_ssim,
            final(self).rejected_as_blank == old(self).rejected_as_blank,
            final(self).rejected_as_series == old(self).rejected_as_series,
    {
        let ghost start = *self;
        let mut bytes: i128 = 0;
        let mut i: usize = 0;
        while i < roles.len()
            invariant
                roles@.len() == sizes@.len(),
                i <= roles@.len(),
                forall|r: Role| start.by_role.of(r) + #[trigger] members_as(roles@, r) <= usize::MAX,
                start.removable_files + members_as(roles@, Role::Copy) <= usize::MAX,
                forall|r: Role| #[trigger] self.by_role.of(r) == start.by_role.of(r) + members_as(
                    roles@.take(i as int),
                    r,
                ),
                self.removable_files == start.removable_files + members_as(
                    roles@.take(i as int),
                    Role::Copy,
                ),
                bytes == removable_bytes_of(roles@.take(i as int), sizes@),
                -(i as int) * 0x8000_0000_0000_0000 <= bytes <= (i as int) * 0x8000_0000_0000_0000,
                self.removable_bytes == start.removable_bytes,
                self.families == start.families,
                self.multi_member == start.multi_member,
                self.files == start.files,
                self.exact_links == start.exact_links,
                self.perceptual_candidates == start.perceptual_candidates,
                self.perceptual_verified == start.perceptual_verified,
                self.rejected_by_ssim == start.rejected_by_ssim,
                self.rejected_as_blank == start.rejected_as_blank,
                self.rejected_as_series == start.rejected_as_series,
            decreases roles@.len() - i,
        {
            let role = roles[i];
            proof {
                let t = roles@.take(i + 1);
                assert(t.drop_last() =~= roles@.take(i as int));
                assert(t.last() == role);
                lemma_members_as_prefix(roles@, role, i as int + 1);
                lemma_members_as_prefix(roles@, Role::Copy, i as int + 1);
            }
            self.by_role.add(role);
            if role.removable_by_default() {
                self.removable_files = self.removable_files + 1;
                bytes = bytes + sizes[i] as i128;
            }
            i = i + 1;
        }
        proof {
            assert(roles@.take(roles@.len() as int) =~= roles@);
        }
        self.removable_bytes = (self.removable_bytes as i128 + bytes) as i64;
        self.families = self.families + 1;
        if roles.len() > 1 {
            self.multi_member = self.multi_member + 1;
        }
    }
}

proof fn lemma_members_as_prefix(roles: Seq<Role>, role: Role, k: int)
    requires
        0 <= k <= roles.len(),
    ensures
        members_as(roles.take(k), role) <= members_as(roles, role),
    decreases roles.len() - k,
{
    if k < roles.len() {
        lemma_members_as_prefix(roles, role, k + 1);
        assert(roles.take(k + 1).drop_last() =~= roles.take(k));
    } else {
        assert(roles.take(k) =~= roles);
    }
}

/// What moving kept files into the marked original folders did.
#[derive(Debug, Default, Clone, Copy, PartialEq, Eq)]
pub struct Report {
    /// Groups the marked folders have a file in, whatever happened next.
    pub groups: u64,
    /// Groups whose kept file this moved into a marked folder.
    pub moved: u64,
    /// Groups where the marked folder holds a different picture, not a copy
    /// of the one being kept; nothing measurable settles those.
    pub untouched: u64,
    /// Groups a person had already answered.
    pub by_hand: u64,
}

/// One group as the review queue shows it.
#[derive(Debug, Clone)]
pub struct Group {
    pub id: i64,
    pub state: String,
    pub exact: bool,
    pub eligible: bool,
    pub bytes: i64,
    pub files: Vec<i64>,
    pub snapshot: String,
    pub revision: Vec<Option<i64>>,
    pub paths: Vec<String>,
    pub untouched: bool,
    pub reasons: Vec<String>,
    pub decision_source: Option<String>,
}

} // verus!
