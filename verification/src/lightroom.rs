//! What the library needs from Lightroom Classic catalogs: how a catalog
//! spells a master's path, and whether every master is still reachable.
use vstd::prelude::*;
use vstd::string::*;
use crate::text::chars_of;

verus! {

/// `s` without the slashes at its end.
pub open spec fn trim_end_slashes(s: Seq<char>) -> Seq<char>
    decreases s.len(),
{
    if s.len() > 0 && s.last() == '/' {
        trim_end_slashes(s.drop_last())
    } else {
        s
    }
}

/// `s` without the slashes at its start.
pub open spec fn trim_start_slashes(s: Seq<char>) -> Seq<char>
    decreases s.len(),
{
    if s.len() > 0 && s[0] == '/' {
        trim_start_slashes(s.drop_first())
    } else {
        s
    }
}

/// The absolute path of a master: the root without its trailing slashes,
/// the folder below the root (if any) without slashes at either end, and the
/// file name, joined by single slashes.
pub open spec fn catalog_path(root: Seq<char>, rel: Seq<char>, file: Seq<char>) -> Seq<char> {
    let r = trim_start_slashes(trim_end_slashes(rel));
    trim_end_slashes(root) + (if r.len() > 0 {
        seq!['/'] + r
    } else {
        Seq::empty()
    }) + seq!['/'] + file
}

/// Where `s` ends once its trailing slashes are gone.
fn end_without_slashes(s: &[char]) -> (e: usize)
    ensures
        e <= s@.len(),
        s@.subrange(0, e as int) == trim_end_slashes(s@),
{
    let mut e = s.len();
    assert(s@.subrange(0, e as int) =~= s@);
    while e > 0 && s[e - 1] == '/'
        invariant
            e <= s@.len(),
            trim_end_slashes(s@.subrange(0, e as int)) == trim_end_slashes(s@),
        decreases e,
    {
        assert(s@.subrange(0, e as int).drop_last() =~= s@.subrange(0, e - 1));
        e = e - 1;
    }
    e
}

/// Where `s[..end]` starts once its leading slashes are gone.
fn start_without_slashes(s: &[char], end: usize) -> (b: usize)
    requires
        end <= s@.len(),
    ensures
        b <= end,
        s@.subrange(b as int, end as int) == trim_start_slashes(s@.subrange(0, end as int)),
{
    let mut b: usize = 0;
    while b < end && s[b] == '/'
        invariant
            b <= end <= s@.len(),
            trim_start_slashes(s@.subrange(b as int, end as int)) == trim_start_slashes(
                s@.subrange(0, end as int),
            ),
        decreases end - b,
    {
        assert(s@.subrange(b as int, end as int).drop_first() =~= s@.subrange(b + 1, end as int));
        b = b + 1;
    }
    b
}

/// Lightroom stores `absolutePath` and `pathFromRoot` with trailing slashes,
/// but not consistently across versions.
pub fn join_catalog_path(root: &str, rel: &str, file: &str) -> (p: String)
    ensures
        p@ == catalog_path(root@, rel@, file@),
{
    proof {
        reveal_strlit("/");
    }
    let rc = chars_of(root);
    let re = end_without_slashes(rc.as_slice());
    let mut s = String::from_str(root.substring_char(0, re));
    let lc = chars_of(rel);
    let le = end_without_slashes(lc.as_slice());
    let lb = start_without_slashes(lc.as_slice(), le);
    if lb < le {
        s.append("/");
        s.append(rel.substring_char(lb, le));
    }
    s.append("/");
    s.append(file);
    proof {
        let r = trim_start_slashes(trim_end_slashes(rel@));
        assert(r == rel@.subrange(lb as int, le as int));
        assert(r.len() > 0 <==> lb < le);
    }
    s
}

/// One master file as the catalog sees it.
#[derive(Debug, Clone)]
pub struct CatalogEntry {
    pub path: String,
    /// Stars, 0 to 5.
    pub rating: Option<i64>,
    /// Flag: 1 picked, -1 rejected.
    pub pick: Option<i64>,
    pub format: Option<String>,
}

/// Result of checking whether a catalog's masters are all reachable.
#[derive(Debug, Clone, Copy)]
pub struct OriginalsCheck {
    pub total: u64,
    pub missing: u64,
}

impl OriginalsCheck {
    pub fn all_present(&self) -> (r: bool)
        ensures
            r == (self.missing == 0),
    {
        self.missing == 0
    }
}

/// How many of the flags are false.
pub open spec fn count_missing(present: Seq<bool>) -> nat
    decreases present.len(),
{
    if present.len() == 0 {
        0
    } else {
        count_missing(present.drop_last()) + if present.last() {
            0nat
        } else {
            1nat
        }
    }
}

proof fn lemma_count_missing_bound(present: Seq<bool>)
    ensures
        count_missing(present) <= present.len(),
    decreases present.len(),
{
    if present.len() > 0 {
        lemma_count_missing_bound(present.drop_last());
    }
}

/// Whether every master of a catalog is still reachable, which decides
/// whether its smart previews may be deleted. `present` holds, for every
/// master the catalog points at, whether it exists on disk.
pub fn check_originals(present: &[bool]) -> (c: OriginalsCheck)
    ensures
        c.total == present@.len(),
        c.missing == count_missing(present@),
{
    let n = present.len();
    let mut missing: u64 = 0;
    let mut i: usize = 0;
    while i < n
        invariant
            n == present@.len(),
            i <= n,
            missing == count_missing(present@.take(i as int)),
        decreases n - i,
    {
        proof {
            assert(present@.take(i + 1).drop_last() =~= present@.take(i as int));
            lemma_count_missing_bound(present@.take(i as int));
        }
        if !present[i] {
            missing = missing + 1;
        }
        i = i + 1;
    }
    assert(present@.take(n as int) =~= present@);
    OriginalsCheck { total: n as u64, missing }
}

/// Every master is reachable exactly when no flag is false.
pub proof fn law_all_present_iff_none_missing(present: Seq<bool>)
    ensures
        (count_missing(present) == 0) <==> (forall|i: int| 0 <= i < present.len() ==> present[i]),
    decreases present.len(),
{
    if present.len() > 0 {
        law_all_present_iff_none_missing(present.drop_last());
        assert(forall|i: int| 0 <= i < present.len() - 1 ==> present.drop_last()[i] == present[i]);
    }
}

} // verus!
