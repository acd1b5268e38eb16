//! The part a file plays in its family.
//!
//! "Duplicate" is the wrong word for most of what a photographer's archive
//! contains. A raw frame, the JPEG the camera wrote beside it, a DNG
//! conversion and a Lightroom export are four different objects describing
//! one photograph, and only an exact copy of one of them is rubbish.
use vstd::prelude::*;
use vstd::utf8::encode_utf8;
use crate::family::links::{stem_lower, stem_of};
use crate::family::plan::positions;
use crate::sniff::bytes_eq;
use crate::text::{
    chars_of, lemma_text_less_irreflexive, lemma_text_less_total, lemma_text_less_transitive, lowercase,
    str_is, text_less, text_lt, to_lowercase,
};

verus! {

#[derive(Debug, Clone, Copy, PartialEq, Eq, Structural, PartialOrd, Ord, Hash)]
pub enum Role {
    Original,
    CameraJpeg,
    Converted,
    Export,
    Resize,
    Copy,
    Unknown,
}

impl Role {
    /// The word stored for this role.
    pub open spec fn name(self) -> Seq<char> {
        match self {
            Role::Original => "original"@,
            Role::CameraJpeg => "camera-jpg"@,
            Role::Converted => "converted"@,
            Role::Export => "export"@,
            Role::Resize => "resize"@,
            Role::Copy => "copy"@,
            Role::Unknown => "unknown"@,
        }
    }

    /// The role a stored word names, if any.
    pub open spec fn from_name(s: Seq<char>) -> Option<Role> {
        if s == "original"@ {
            Some(Role::Original)
        } else if s == "camera-jpg"@ {
            Some(Role::CameraJpeg)
        } else if s == "converted"@ {
            Some(Role::Converted)
        } else if s == "export"@ {
            Some(Role::Export)
        } else if s == "resize"@ {
            Some(Role::Resize)
        } else if s == "copy"@ {
            Some(Role::Copy)
        } else if s == "unknown"@ {
            Some(Role::Unknown)
        } else {
            None
        }
    }

    /// The heading shown above a file of this role.
    pub open spec fn heading(self) -> Seq<char> {
        match self {
            Role::Original => "ORIGINAL"@,
            Role::CameraJpeg => "CAMERA JPG"@,
            Role::Converted => "CONVERTED"@,
            Role::Export => "EXPORT"@,
            Role::Resize => "RESIZE"@,
            Role::Copy => "COPY"@,
            Role::Unknown => "?"@,
        }
    }

    pub fn as_str(self) -> (r: &'static str)
        ensures
            r@ == self.name(),
    {
        match self {
            Role::Original => "original",
            Role::CameraJpeg => "camera-jpg",
            Role::Converted => "converted",
            Role::Export => "export",
            Role::Resize => "resize",
            Role::Copy => "copy",
            Role::Unknown => "unknown",
        }
    }

    pub fn label(self) -> (r: &'static str)
        ensures
            r@ == self.heading(),
    {
        match self {
            Role::Original => "ORIGINAL",
            Role::CameraJpeg => "CAMERA JPG",
            Role::Converted => "CONVERTED",
            Role::Export => "EXPORT",
            Role::Resize => "RESIZE",
            Role::Copy => "COPY",
            Role::Unknown => "?",
        }
    }

    pub fn parse(s: &str) -> (r: Option<Role>)
        ensures
            r == Role::from_name(s@),
    {
        if str_is(s, "original") {
            Some(Role::Original)
        } else if str_is(s, "camera-jpg") {
            Some(Role::CameraJpeg)
        } else if str_is(s, "converted") {
            Some(Role::Converted)
        } else if str_is(s, "export") {
            Some(Role::Export)
        } else if str_is(s, "resize") {
            Some(Role::Resize)
        } else if str_is(s, "copy") {
            Some(Role::Copy)
        } else if str_is(s, "unknown") {
            Some(Role::Unknown)
        } else {
            None
        }
    }

    /// Only an exact copy is rubbish by default. Everything else is a
    /// distinct rendition of the photograph and is kept unless the user
    /// decides otherwise.
    pub fn removable_by_default(self) -> (r: bool)
        ensures
            r == (self == Role::Copy),
    {
        self == Role::Copy
    }
}

/// The stored word of every role reads back as that role.
pub proof fn law_role_round_trip(r: Role)
    ensures
        Role::from_name(r.name()) == Some(r),
{
    reveal_strlit("original");
    reveal_strlit("camera-jpg");
    reveal_strlit("converted");
    reveal_strlit("export");
    reveal_strlit("resize");
    reveal_strlit("copy");
    reveal_strlit("unknown");
    assert("original"@.len() == 8);
    assert("camera-jpg"@.len() == 10);
    assert("converted"@.len() == 9);
    assert("export"@.len() == 6);
    assert("resize"@.len() == 6);
    assert("copy"@.len() == 4);
    assert("unknown"@.len() == 7);
    assert("export"@[0] != "resize"@[0]);
}

/// What assigning roles reads about one file.
#[derive(Debug, Clone, Default)]
pub struct FileFacts {
    pub path: String,
    pub name: String,
    pub container: String,
    pub pixel_source: String,
    pub width: i64,
    pub height: i64,
    pub pixel_hash: Option<Vec<u8>>,
    pub camera_model: Option<String>,
    pub software: Option<String>,
    pub derived_from: Option<String>,
    pub dng_original_raw: Option<String>,
}

/// A raw frame: a TIFF-family container whose pixels came from its preview.
pub open spec fn is_raw(f: FileFacts) -> bool {
    f.container@ == "tiff"@ && f.pixel_source@ == "preview"@
}

pub open spec fn pixels_of(f: FileFacts) -> int {
    f.width * f.height
}

/// The editors whose name in the software tag marks a file as edited.
pub open spec fn editors() -> Seq<Seq<char>> {
    seq!["lightroom"@, "photoshop"@, "capture one"@, "camera raw"@, "gimp"@, "affinity"@]
}

/// `needle` occurs somewhere in `hay`.
pub open spec fn holds_text(hay: Seq<char>, needle: Seq<char>) -> bool {
    exists|k: int| 0 <= k && k + needle.len() <= hay.len() && #[trigger] hay.subrange(k, k + needle.len()) == needle
}

/// A file that names what it was derived from, or that an editor wrote.
pub open spec fn looks_edited(f: FileFacts) -> bool {
    f.derived_from is Some || names_editor(f.software)
}

/// A file's pixel hash, if it has one.
pub open spec fn hash_of(f: FileFacts) -> Option<Seq<u8>> {
    match f.pixel_hash {
        Some(h) => Some(h@),
        None => None,
    }
}

/// How many `/` a path holds.
pub open spec fn slashes(p: Seq<char>) -> int
    decreases p.len(),
{
    if p.len() == 0 {
        0
    } else {
        slashes(p.drop_last()) + if p.last() == '/' {
            1int
        } else {
            0int
        }
    }
}

/// The member at position `i`.
pub open spec fn member(files: Seq<FileFacts>, ms: Seq<usize>, i: int) -> FileFacts {
    files[ms[i] as int]
}

/// The positions below `n` whose file carries the pixel hash `h`.
pub open spec fn twins(files: Seq<FileFacts>, ms: Seq<usize>, h: Seq<u8>, n: int) -> Seq<int>
    decreases n,
{
    if n <= 0 {
        Seq::empty()
    } else if hash_of(member(files, ms, n - 1)) == Some(h) {
        twins(files, ms, h, n - 1).push(n - 1)
    } else {
        twins(files, ms, h, n - 1)
    }
}

/// Among identical twins, `x` is preferred to `y`: a better quality rank,
/// then fewer folders deep, then a shorter path in bytes, then the path that
/// sorts first.
pub open spec fn preferred(files: Seq<FileFacts>, ms: Seq<usize>, rank: Seq<u64>, x: int, y: int) -> bool {
    let px = member(files, ms, x).path@;
    let py = member(files, ms, y).path@;
    if rank[x] != rank[y] {
        rank[x] > rank[y]
    } else if slashes(px) != slashes(py) {
        slashes(px) < slashes(py)
    } else if encode_utf8(px).len() != encode_utf8(py).len() {
        encode_utf8(px).len() < encode_utf8(py).len()
    } else {
        text_less(px, py)
    }
}

/// The twin that survives among the first `k` of `tw`: a later one replaces
/// the one kept so far unless the one kept is preferred to it.
pub open spec fn best_of(files: Seq<FileFacts>, ms: Seq<usize>, rank: Seq<u64>, tw: Seq<int>, k: int) -> int
    decreases k,
{
    if k <= 1 {
        tw[0]
    } else {
        let b = best_of(files, ms, rank, tw, k - 1);
        if preferred(files, ms, rank, b, tw[k - 1]) {
            b
        } else {
            tw[k - 1]
        }
    }
}

/// Roles and claimed positions after the exact-copy pass has looked at the
/// first `pos` positions.
pub open spec fn copy_pass(files: Seq<FileFacts>, ms: Seq<usize>, rank: Seq<u64>, pos: int) -> (
    Seq<Role>,
    Seq<bool>,
)
    decreases pos,
{
    let n = ms.len() as int;
    if pos <= 0 {
        (Seq::new(n as nat, |i: int| Role::Unknown), Seq::new(n as nat, |i: int| false))
    } else {
        let (roles, claimed) = copy_pass(files, ms, rank, pos - 1);
        let p = pos - 1;
        if claimed[p] {
            (roles, claimed)
        } else {
            match hash_of(member(files, ms, p)) {
                None => (roles, claimed),
                Some(h) => {
                    let tw = twins(files, ms, h, n);
                    if tw.len() < 2 {
                        (roles, claimed)
                    } else {
                        let b = best_of(files, ms, rank, tw, tw.len() as int);
                        (
                            Seq::new(
                                n as nat,
                                |i: int|
                                    if tw.contains(i) && i != b {
                                        Role::Copy
                                    } else {
                                        roles[i]
                                    },
                            ),
                            Seq::new(n as nat, |i: int| if tw.contains(i) { true } else { claimed[i] }),
                        )
                    }
                },
            }
        }
    }
}

/// A member that may be the family's original: not a copy, not a file that
/// names the raw it was converted from, and either raw or straight from a
/// camera without an editor's hand on it.
pub open spec fn may_be_original(f: FileFacts, r: Role) -> bool {
    r != Role::Copy && f.dng_original_raw is None && (is_raw(f) || (f.camera_model is Some
        && !looks_edited(f)))
}

/// The original among the first `k` positions: the last of those that may
/// be one with the highest (raw, pixels).
pub open spec fn original_upto(files: Seq<FileFacts>, ms: Seq<usize>, roles: Seq<Role>, k: int) -> Option<int>
    decreases k,
{
    if k <= 0 {
        None
    } else {
        let o = original_upto(files, ms, roles, k - 1);
        let i = k - 1;
        let f = member(files, ms, i);
        if !may_be_original(f, roles[i]) {
            o
        } else {
            match o {
                None => Some(i),
                Some(j) => {
                    let g = member(files, ms, j);
                    if (is_raw(f) && !is_raw(g)) || (is_raw(f) == is_raw(g) && pixels_of(f) >= pixels_of(g)) {
                        Some(i)
                    } else {
                        Some(j)
                    }
                },
            }
        }
    }
}

/// The largest pixel count among the first `k` members, and never below one.
pub open spec fn best_pixels_upto(files: Seq<FileFacts>, ms: Seq<usize>, k: int) -> int
    decreases k,
{
    if k <= 0 {
        1
    } else {
        let b = best_pixels_upto(files, ms, k - 1);
        let p = pixels_of(member(files, ms, k - 1));
        if p > b {
            p
        } else {
            b
        }
    }
}

/// The role of a member the earlier passes left unknown.
pub open spec fn later_role(f: FileFacts, original_stem: Option<Seq<char>>, best: int) -> Role {
    if f.dng_original_raw is Some {
        Role::Converted
    } else if looks_edited(f) {
        Role::Export
    } else if (original_stem matches Some(s) && s == lowercase(stem_of(f.name@))) && f.camera_model is Some
        && pixels_of(f) * 10 >= best * 6 {
        Role::CameraJpeg
    } else if pixels_of(f) * 10 < best * 6 {
        Role::Resize
    } else if is_raw(f) {
        Role::Original
    } else if f.camera_model is Some {
        Role::CameraJpeg
    } else {
        Role::Unknown
    }
}

/// The role of every member of a family.
pub open spec fn roles_spec(files: Seq<FileFacts>, ms: Seq<usize>, rank: Seq<u64>) -> Seq<Role> {
    let n = ms.len() as int;
    let roles1 = copy_pass(files, ms, rank, n).0;
    let original = original_upto(files, ms, roles1, n);
    let roles2 = match original {
        Some(i) => roles1.update(i, Role::Original),
        None => roles1,
    };
    let stem = match original {
        Some(i) => Some(lowercase(stem_of(member(files, ms, i).name@))),
        None => None,
    };
    let best = best_pixels_upto(files, ms, n);
    Seq::new(
        n as nat,
        |i: int|
            if roles2[i] != Role::Unknown {
                roles2[i]
            } else {
                later_role(member(files, ms, i), stem, best)
            },
    )
}

fn contains_text(hay: &[char], needle: &str) -> (r: bool)
    ensures
        r == holds_text(hay@, needle@),
{
    let nd = chars_of(needle);
    let m = nd.len();
    let n = hay.len();
    if m > n {
        return false;
    }
    let mut k: usize = 0;
    while k <= n - m
        invariant
            nd@ == needle@,
            m == nd@.len(),
            n == hay@.len(),
            m <= n,
            k <= n - m + 1,
            forall|j: int| 0 <= j < k ==> #[trigger] hay@.subrange(j, j + m) != needle@,
        decreases n - k,
    {
        let mut i: usize = 0;
        let mut same = true;
        while i < m
            invariant
                nd@ == needle@,
                m == nd@.len(),
                n == hay@.len(),
                k + m <= n,
                i <= m,
                same == (forall|q: int| 0 <= q < i ==> hay@[k + q] == nd@[q]),
            decreases m - i,
        {
            if hay[k + i] != nd[i] {
                same = false;
            }
            i = i + 1;
        }
        if same {
            assert(hay@.subrange(k as int, k + m) =~= needle@);
            return true;
        }
        proof {
            if hay@.subrange(k as int, k + m) == needle@ {
                assert forall|q: int| 0 <= q < m implies hay@[k + q] == nd@[q] by {
                    assert(hay@.subrange(k as int, k + m)[q] == hay@[k + q]);
                }
            }
        }
        k = k + 1;
    }
    assert forall|j: int| 0 <= j && j + m <= n implies #[trigger] hay@.subrange(j, j + m) != needle@ by {
        assert(j < k);
    }
    false
}

/// The software field names one of the editors.
pub open spec fn names_editor(software: Option<String>) -> bool {
    match software {
        Some(s) => exists|e: int| 0 <= e < editors().len() && holds_text(lowercase(s@), #[trigger] editors()[e]),
        None => false,
    }
}

/// Whether the software field names one of the editors, in any case.
pub(crate) fn by_editor(software: &Option<String>) -> (r: bool)
    ensures
        r == names_editor(*software),
{
    match software {
        None => false,
        Some(s) => {
            let low = to_lowercase(chars_of(s.as_str()).as_slice());
            let lc = chars_of(low.as_str());
            let hay = lc.as_slice();
            let found = contains_text(hay, "lightroom") || contains_text(hay, "photoshop")
                || contains_text(hay, "capture one") || contains_text(hay, "camera raw")
                || contains_text(hay, "gimp") || contains_text(hay, "affinity");
            proof {
                let e = editors();
                assert(e[0] == "lightroom"@ && e[1] == "photoshop"@ && e[2] == "capture one"@
                    && e[3] == "camera raw"@ && e[4] == "gimp"@ && e[5] == "affinity"@);
                if found {
                    if holds_text(low@, "lightroom"@) {
                        assert(holds_text(low@, e[0]));
                    } else if holds_text(low@, "photoshop"@) {
                        assert(holds_text(low@, e[1]));
                    } else if holds_text(low@, "capture one"@) {
                        assert(holds_text(low@, e[2]));
                    } else if holds_text(low@, "camera raw"@) {
                        assert(holds_text(low@, e[3]));
                    } else if holds_text(low@, "gimp"@) {
                        assert(holds_text(low@, e[4]));
                    } else {
                        assert(holds_text(low@, e[5]));
                    }
                } else {
                    assert forall|k: int| 0 <= k < e.len() implies !holds_text(low@, #[trigger] e[k]) by {}
                }
            }
            found
        },
    }
}

fn edited(f: &FileFacts) -> (r: bool)
    ensures
        r == looks_edited(*f),
{
    f.derived_from.is_some() || by_editor(&f.software)
}

fn raw(f: &FileFacts) -> (r: bool)
    ensures
        r == is_raw(*f),
{
    str_is(f.container.as_str(), "tiff") && str_is(f.pixel_source.as_str(), "preview")
}

fn slash_count(p: &String) -> (r: usize)
    ensures
        r == slashes(p@),
{
    let cs = chars_of(p.as_str());
    let mut c: usize = 0;
    let mut i: usize = 0;
    while i < cs.len()
        invariant
            cs@ == p@,
            i <= cs@.len(),
            c == slashes(cs@.take(i as int)),
            c <= i,
        decreases cs@.len() - i,
    {
        assert(cs@.take(i + 1).drop_last() =~= cs@.take(i as int));
        if cs[i] == '/' {
            c = c + 1;
        }
        i = i + 1;
    }
    assert(cs@.take(cs@.len() as int) =~= cs@);
    c
}

fn prefers(files: &[FileFacts], members: &[usize], rank: &[u64], x: usize, y: usize) -> (r: bool)
    requires
        x < members@.len(),
        y < members@.len(),
        members@.len() <= rank@.len(),
        members@[x as int] < files@.len(),
        members@[y as int] < files@.len(),
    ensures
        r == preferred(files@, members@, rank@, x as int, y as int),
{
    let px = &files[members[x]].path;
    let py = &files[members[y]].path;
    if rank[x] != rank[y] {
        return rank[x] > rank[y];
    }
    let sx = slash_count(px);
    let sy = slash_count(py);
    if sx != sy {
        return sx < sy;
    }
    let lx = px.as_str().as_bytes().len();
    let ly = py.as_str().as_bytes().len();
    if lx != ly {
        return lx < ly;
    }
    text_lt(px, py)
}

fn twin_positions(files: &[FileFacts], members: &[usize], h: &Vec<u8>) -> (tw: Vec<usize>)
    requires
        forall|i: int| 0 <= i < members@.len() ==> (#[trigger] members@[i]) < files@.len(),
    ensures
        positions(tw@) == twins(files@, members@, h@, members@.len() as int),
        forall|k: int| 0 <= k < tw@.len() ==> (#[trigger] tw@[k]) < members@.len(),
{
    let n = members.len();
    let mut tw: Vec<usize> = Vec::new();
    let mut q: usize = 0;
    while q < n
        invariant
            n == members@.len(),
            q <= n,
            forall|i: int| 0 <= i < members@.len() ==> (#[trigger] members@[i]) < files@.len(),
            positions(tw@) == twins(files@, members@, h@, q as int),
            forall|k: int| 0 <= k < tw@.len() ==> (#[trigger] tw@[k]) < q,
        decreases n - q,
    {
        let same = match &files[members[q]].pixel_hash {
            Some(h2) => bytes_eq(h2.as_slice(), h.as_slice()),
            None => false,
        };
        if same {
            let ghost before = tw@;
            tw.push(q);
            assert(positions(tw@) =~= positions(before).push(q as int));
        }
        q = q + 1;
    }
    tw
}

/// Assign a role to every member of one family; `members` indexes into
/// `files`. `quality_rank` orders the members' quality scores — a higher rank
/// for a better score, the same rank for the same score — and decides which
/// of several byte-identical members survives as the real thing.
pub fn assign(files: &[FileFacts], members: &[usize], quality_rank: &[u64]) -> (roles: Vec<Role>)
    requires
        members@.len() <= quality_rank@.len(),
        forall|i: int| 0 <= i < members@.len() ==> (#[trigger] members@[i]) < files@.len(),
        forall|i: int|
            0 <= i < members@.len() ==> -922337203685477580 <= #[trigger] pixels_of(
                member(files@, members@, i),
            ) <= 922337203685477580,
    ensures
        roles@ == roles_spec(files@, members@, quality_rank@),
{
    let n = members.len();
    let ghost fs = files@;
    let ghost ms = members@;
    let ghost rk = quality_rank@;
    let mut roles: Vec<Role> = Vec::new();
    let mut claimed: Vec<bool> = Vec::new();
    let mut i: usize = 0;
    while i < n
        invariant
            n == ms.len(),
            i <= n,
            roles@ == Seq::new(i as nat, |j: int| Role::Unknown),
            claimed@ == Seq::new(i as nat, |j: int| false),
        decreases n - i,
    {
        roles.push(Role::Unknown);
        claimed.push(false);
        assert(roles@ =~= Seq::new((i + 1) as nat, |j: int| Role::Unknown));
        assert(claimed@ =~= Seq::new((i + 1) as nat, |j: int| false));
        i = i + 1;
    }
    if n == 0 {
        assert(roles@ =~= roles_spec(fs, ms, rk));
        return roles;
    }
    // Exact copies first: among members sharing pixels, the preferred one
    // stays and the rest are copies of it.
    let mut pos: usize = 0;
    while pos < n
        invariant
            n == ms.len(),
            n > 0,
            ms == members@,
            fs == files@,
            rk == quality_rank@,
            members@.len() <= quality_rank@.len(),
            forall|i: int| 0 <= i < members@.len() ==> (#[trigger] members@[i]) < files@.len(),
            pos <= n,
            (roles@, claimed@) == copy_pass(fs, ms, rk, pos as int),
            roles@.len() == n,
            claimed@.len() == n,
        decreases n - pos,
    {
        let ghost r0 = roles@;
        let ghost c0 = claimed@;
        if !claimed[pos] {
            match &files[members[pos]].pixel_hash {
                None => {},
                Some(h) => {
                    let tw = twin_positions(files, members, h);
                    let ghost twv = positions(tw@);
                    if tw.len() >= 2 {
                        let mut best = tw[0];
                        let mut k: usize = 1;
                        while k < tw.len()
                            invariant
                                twv == positions(tw@),
                                tw@.len() >= 2,
                                1 <= k <= tw@.len(),
                                forall|q: int| 0 <= q < tw@.len() ==> (#[trigger] tw@[q]) < members@.len(),
                                members@.len() <= quality_rank@.len(),
                                forall|i: int| 0 <= i < members@.len() ==> (#[trigger] members@[i]) < files@.len(),
                                fs == files@,
                                ms == members@,
                                rk == quality_rank@,
                                best as int == best_of(fs, ms, rk, twv, k as int),
                                best < members@.len(),
                            decreases tw@.len() - k,
                        {
                            if !prefers(files, members, quality_rank, best, tw[k]) {
                                best = tw[k];
                            }
                            k = k + 1;
                        }
                        let mut k: usize = 0;
                        while k < tw.len()
                            invariant
                                twv == positions(tw@),
                                k <= tw@.len(),
                                forall|q: int| 0 <= q < tw@.len() ==> (#[trigger] tw@[q]) < members@.len(),
                                n == members@.len(),
                                roles@ == Seq::new(
                                    n as nat,
                                    |i: int|
                                        if twv.take(k as int).contains(i) && i != best {
                                            Role::Copy
                                        } else {
                                            r0[i]
                                        },
                                ),
                                claimed@ == Seq::new(
                                    n as nat,
                                    |i: int| if twv.take(k as int).contains(i) { true } else { c0[i] },
                                ),
                                r0.len() == n,
                                c0.len() == n,
                            decreases tw@.len() - k,
                        {
                            let t = tw[k];
                            let ghost rb = roles@;
                            let ghost cb = claimed@;
                            claimed.set(t, true);
                            if t != best {
                                roles.set(t, Role::Copy);
                            }
                            proof {
                                assert(twv.take(k + 1) =~= twv.take(k as int).push(t as int));
                                assert forall|i: int| 0 <= i < n implies twv.take(k + 1).contains(i)
                                    == (twv.take(k as int).contains(i) || i == t) by {
                                    if i == t {
                                        assert(twv.take(k + 1)[k as int] == i);
                                    }
                                    if twv.take(k + 1).contains(i) && i != t {
                                        let w = choose|w: int| 0 <= w < k + 1 && #[trigger] twv.take(k + 1)[w] == i;
                                        assert(twv.take(k as int)[w] == i);
                                    }
                                    if twv.take(k as int).contains(i) {
                                        let w = choose|w: int| 0 <= w < k && #[trigger] twv.take(k as int)[w] == i;
                                        assert(twv.take(k + 1)[w] == i);
                                    }
                                }
                                assert forall|i: int| 0 <= i < n implies roles@[i] == (if twv.take(k + 1).contains(i)
                                    && i != best {
                                    Role::Copy
                                } else {
                                    r0[i]
                                }) by {
                                    if i == t {
                                        assert(twv[k as int] == t as int);
                                        assert(twv.take(k + 1)[k as int] == i);
                                        assert(twv.take(k + 1).contains(i));
                                    } else {
                                        assert(roles@[i] == rb[i]);
                                    }
                                }
                                assert forall|i: int| 0 <= i < n implies claimed@[i] == (if twv.take(k + 1).contains(i) {
                                    true
                                } else {
                                    c0[i]
                                }) by {
                                    if i == t {
                                        assert(twv[k as int] == t as int);
                                        assert(twv.take(k + 1)[k as int] == i);
                                        assert(twv.take(k + 1).contains(i));
                                    } else {
                                        assert(claimed@[i] == cb[i]);
                                    }
                                }
                                assert(roles@ =~= Seq::new(
                                    n as nat,
                                    |i: int|
                                        if twv.take(k + 1).contains(i) && i != best {
                                            Role::Copy
                                        } else {
                                            r0[i]
                                        },
                                ));
                                assert(claimed@ =~= Seq::new(
                                    n as nat,
                                    |i: int| if twv.take(k + 1).contains(i) { true } else { c0[i] },
                                ));
                            }
                            k = k + 1;
                        }
                        assert(twv.take(tw@.len() as int) =~= twv);
                    }
                },
            }
        }
        pos = pos + 1;
    }
    let ghost roles1 = roles@;
    // The original, if the family even contains one.
    let mut original: Option<usize> = None;
    let mut i: usize = 0;
    while i < n
        invariant
            n == ms.len(),
            ms == members@,
            fs == files@,
            forall|i: int| 0 <= i < members@.len() ==> (#[trigger] members@[i]) < files@.len(),
            forall|i: int|
                0 <= i < members@.len() ==> -922337203685477580 <= #[trigger] pixels_of(
                    member(files@, members@, i),
                ) <= 922337203685477580,
            roles@ == roles1,
            roles1.len() == n,
            i <= n,
            match original {
                None => original_upto(fs, ms, roles1, i as int) is None,
                Some(j) => original_upto(fs, ms, roles1, i as int) == Some(j as int) && j < i,
            },
        decreases n - i,
    {
        let f = &files[members[i]];
        if roles[i] != Role::Copy && f.dng_original_raw.is_none() && (raw(f) || (
        f.camera_model.is_some() && !edited(f))) {
            original = match original {
                None => Some(i),
                Some(j) => {
                    let g = &files[members[j]];
                    proof {
                        assert(pixels_of(member(fs, ms, i as int)) == f.width * f.height);
                        assert(pixels_of(member(fs, ms, j as int)) == g.width * g.height);
                    }
                    let rf = raw(f);
                    let rg = raw(g);
                    if (rf && !rg) || (rf == rg && f.width * f.height >= g.width * g.height) {
                        Some(i)
                    } else {
                        Some(j)
                    }
                },
            };
        }
        i = i + 1;
    }
    if let Some(o) = original {
        roles.set(o, Role::Original);
    }
    let ghost roles2 = roles@;
    let mut best_pixels: i64 = 1;
    let mut i: usize = 0;
    while i < n
        invariant
            n == ms.len(),
            ms == members@,
            fs == files@,
            forall|i: int| 0 <= i < members@.len() ==> (#[trigger] members@[i]) < files@.len(),
            forall|i: int|
                0 <= i < members@.len() ==> -922337203685477580 <= #[trigger] pixels_of(
                    member(files@, members@, i),
                ) <= 922337203685477580,
            i <= n,
            best_pixels == best_pixels_upto(fs, ms, i as int),
            1 <= best_pixels <= 922337203685477580,
        decreases n - i,
    {
        let f = &files[members[i]];
        proof {
            assert(pixels_of(member(fs, ms, i as int)) == f.width * f.height);
        }
        let p = f.width * f.height;
        if p > best_pixels {
            best_pixels = p;
        }
        i = i + 1;
    }
    let stem: Option<String> = match original {
        Some(o) => Some(stem_lower(files[members[o]].name.as_str())),
        None => None,
    };
    let ghost stem_view: Option<Seq<char>> = match &stem {
        Some(s) => Some(s@),
        None => None,
    };
    let mut i: usize = 0;
    while i < n
        invariant
            n == ms.len(),
            ms == members@,
            fs == files@,
            forall|i: int| 0 <= i < members@.len() ==> (#[trigger] members@[i]) < files@.len(),
            forall|i: int|
                0 <= i < members@.len() ==> -922337203685477580 <= #[trigger] pixels_of(
                    member(files@, members@, i),
                ) <= 922337203685477580,
            i <= n,
            roles2.len() == n,
            1 <= best_pixels <= 922337203685477580,
            best_pixels == best_pixels_upto(fs, ms, n as int),
            stem_view == match &stem {
                Some(s) => Some(s@),
                None => None::<Seq<char>>,
            },
            roles@ == Seq::new(
                n as nat,
                |j: int|
                    if j < i && roles2[j] == Role::Unknown {
                        later_role(member(fs, ms, j), stem_view, best_pixels as int)
                    } else {
                        roles2[j]
                    },
            ),
        decreases n - i,
    {
        if roles[i] == Role::Unknown {
            let f = &files[members[i]];
            proof {
                assert(pixels_of(member(fs, ms, i as int)) == f.width * f.height);
            }
            let px = f.width * f.height;
            let r = if f.dng_original_raw.is_some() {
                Role::Converted
            } else if edited(f) {
                Role::Export
            } else {
                let same_name = match &stem {
                    Some(s) => {
                        let mine = stem_lower(f.name.as_str());
                        *s == mine
                    },
                    None => false,
                };
                if same_name && f.camera_model.is_some() && px * 10 >= best_pixels * 6 {
                    Role::CameraJpeg
                } else if px * 10 < best_pixels * 6 {
                    Role::Resize
                } else if raw(f) {
                    Role::Original
                } else if f.camera_model.is_some() {
                    Role::CameraJpeg
                } else {
                    Role::Unknown
                }
            };
            roles.set(i, r);
        }
        proof {
            assert(roles@ =~= Seq::new(
                n as nat,
                |j: int|
                    if j < i + 1 && roles2[j] == Role::Unknown {
                        later_role(member(fs, ms, j), stem_view, best_pixels as int)
                    } else {
                        roles2[j]
                    },
            ));
        }
        i = i + 1;
    }
    assert(roles@ =~= roles_spec(fs, ms, rk));
    roles
}

proof fn lemma_twins(files: Seq<FileFacts>, ms: Seq<usize>, h: Seq<u8>, n: int)
    requires
        0 <= n <= ms.len(),
    ensures
        forall|q: int| #[trigger] twins(files, ms, h, n).contains(q) <==> (0 <= q < n && hash_of(
            member(files, ms, q),
        ) == Some(h)),
    decreases n,
{
    if n > 0 {
        lemma_twins(files, ms, h, n - 1);
        let t = twins(files, ms, h, n - 1);
        if hash_of(member(files, ms, n - 1)) == Some(h) {
            assert forall|q: int| #[trigger] t.push(n - 1).contains(q) <==> (t.contains(q) || q == n - 1) by {
                if t.push(n - 1).contains(q) {
                    let w = choose|w: int| 0 <= w < t.len() + 1 && #[trigger] t.push(n - 1)[w] == q;
                    if w < t.len() {
                        assert(t[w] == q);
                    }
                }
                if t.contains(q) {
                    let w = choose|w: int| 0 <= w < t.len() && #[trigger] t[w] == q;
                    assert(t.push(n - 1)[w] == q);
                }
                if q == n - 1 {
                    assert(t.push(n - 1)[t.len() as int] == q);
                }
            }
        }
    }
}

proof fn lemma_best_of_in(files: Seq<FileFacts>, ms: Seq<usize>, rank: Seq<u64>, tw: Seq<int>, k: int)
    requires
        1 <= k <= tw.len(),
    ensures
        tw.contains(best_of(files, ms, rank, tw, k)),
    decreases k,
{
    if k > 1 {
        lemma_best_of_in(files, ms, rank, tw, k - 1);
        let b = best_of(files, ms, rank, tw, k);
        if b == tw[k - 1] {
            assert(tw[k - 1] == b);
        }
    } else {
        assert(tw[0] == best_of(files, ms, rank, tw, k));
    }
}

/// What the exact-copy pass keeps true: a copy is claimed and has an
/// identical twin that is claimed and not a copy, and a claimed hash is
/// claimed in every member that carries it.
pub open spec fn copies_have_keepers(files: Seq<FileFacts>, ms: Seq<usize>, roles: Seq<Role>, claimed: Seq<bool>) -> bool {
    let n = ms.len() as int;
    &&& roles.len() == n
    &&& claimed.len() == n
    &&& forall|i: int| 0 <= i < n && #[trigger] claimed[i] ==> hash_of(member(files, ms, i)) is Some
    &&& forall|i: int, j: int|
        0 <= i < n && 0 <= j < n && #[trigger] claimed[i] && hash_of(member(files, ms, j)) == hash_of(
            member(files, ms, i),
        ) ==> #[trigger] claimed[j]
    &&& forall|i: int|
        0 <= i < n && #[trigger] roles[i] == Role::Copy ==> claimed[i] && exists|b: int|
            0 <= b < n && b != i && claimed[b] && roles[b] != Role::Copy && hash_of(member(files, ms, b))
                == hash_of(member(files, ms, i))
}

proof fn lemma_copy_pass(files: Seq<FileFacts>, ms: Seq<usize>, rank: Seq<u64>, pos: int)
    requires
        0 <= pos <= ms.len(),
    ensures
        copies_have_keepers(files, ms, copy_pass(files, ms, rank, pos).0, copy_pass(files, ms, rank, pos).1),
    decreases pos,
{
    let n = ms.len() as int;
    if pos > 0 {
        lemma_copy_pass(files, ms, rank, pos - 1);
        let (roles, claimed) = copy_pass(files, ms, rank, pos - 1);
        let p = pos - 1;
        if !claimed[p] {
            match hash_of(member(files, ms, p)) {
                None => {},
                Some(h) => {
                    let tw = twins(files, ms, h, n);
                    if tw.len() >= 2 {
                        lemma_twins(files, ms, h, n);
                        let b = best_of(files, ms, rank, tw, tw.len() as int);
                        lemma_best_of_in(files, ms, rank, tw, tw.len() as int);
                        let (r2, c2) = copy_pass(files, ms, rank, pos);
                        // No member of the group was claimed before: a claimed
                        // one would have claimed `p` too.
                        assert forall|t: int| #[trigger] tw.contains(t) implies !claimed[t] by {
                            if claimed[t] {
                                assert(claimed[p]);
                            }
                        }
                        assert(0 <= b < n);
                        assert(!claimed[b]);
                        assert(roles[b] != Role::Copy);
                        assert(r2[b] == roles[b]);
                        assert(c2[b]);
                        assert forall|i: int, j: int|
                            0 <= i < n && 0 <= j < n && #[trigger] c2[i] && hash_of(member(files, ms, j))
                                == hash_of(member(files, ms, i)) implies #[trigger] c2[j] by {
                            if tw.contains(i) {
                                assert(tw.contains(j));
                            } else {
                                assert(claimed[i]);
                                assert(claimed[j]);
                            }
                        }
                        assert forall|i: int|
                            0 <= i < n && #[trigger] r2[i] == Role::Copy implies c2[i] && exists|c: int|
                                0 <= c < n && c != i && c2[c] && r2[c] != Role::Copy && hash_of(
                                    member(files, ms, c),
                                ) == hash_of(member(files, ms, i)) by {
                            if tw.contains(i) && i != b {
                                assert(hash_of(member(files, ms, b)) == hash_of(member(files, ms, i)));
                            } else {
                                assert(roles[i] == Role::Copy);
                                let c = choose|c: int|
                                    0 <= c < n && c != i && claimed[c] && roles[c] != Role::Copy && hash_of(
                                        member(files, ms, c),
                                    ) == hash_of(member(files, ms, i));
                                assert(!tw.contains(c));
                                assert(r2[c] == roles[c]);
                                assert(c2[c]);
                            }
                        }
                    }
                },
            }
        }
    }
}

/// Only an exact copy is rubbish, and never the last of its kind: every
/// member called a copy shares its pixels with another member of the family
/// that is not a copy.
pub proof fn law_every_copy_leaves_its_twin(files: Seq<FileFacts>, ms: Seq<usize>, rank: Seq<u64>, i: int)
    requires
        0 <= i < ms.len(),
        roles_spec(files, ms, rank)[i] == Role::Copy,
    ensures
        hash_of(member(files, ms, i)) is Some,
        exists|b: int|
            0 <= b < ms.len() && b != i && roles_spec(files, ms, rank)[b] != Role::Copy && hash_of(
                member(files, ms, b),
            ) == hash_of(member(files, ms, i)),
{
    let n = ms.len() as int;
    lemma_copy_pass(files, ms, rank, n);
    let roles1 = copy_pass(files, ms, rank, n).0;
    let claimed = copy_pass(files, ms, rank, n).1;
    let original = original_upto(files, ms, roles1, n);
    lemma_original_not_copy(files, ms, roles1, n);
    let fin = roles_spec(files, ms, rank);
    // The later passes never make a copy, and never unmake one.
    assert(roles1[i] == Role::Copy);
    let b = choose|b: int|
        0 <= b < n && b != i && claimed[b] && roles1[b] != Role::Copy && hash_of(member(files, ms, b))
            == hash_of(member(files, ms, i));
    assert(fin[b] != Role::Copy);
}

proof fn lemma_original_not_copy(files: Seq<FileFacts>, ms: Seq<usize>, roles: Seq<Role>, k: int)
    ensures
        original_upto(files, ms, roles, k) matches Some(o) ==> 0 <= o < k && may_be_original(
            member(files, ms, o),
            roles[o],
        ),
    decreases k,
{
    if k > 0 {
        lemma_original_not_copy(files, ms, roles, k - 1);
    }
}

/// Nothing is called the original without evidence for it: the original is
/// a raw frame, or a file straight from a camera that no editor touched, and
/// never a file that names the raw it was converted from.
pub proof fn law_originals_have_evidence(files: Seq<FileFacts>, ms: Seq<usize>, rank: Seq<u64>, i: int)
    requires
        0 <= i < ms.len(),
        roles_spec(files, ms, rank)[i] == Role::Original,
    ensures
        member(files, ms, i).dng_original_raw is None,
        is_raw(member(files, ms, i)) || (member(files, ms, i).camera_model is Some && !looks_edited(
            member(files, ms, i),
        )),
{
    let n = ms.len() as int;
    let roles1 = copy_pass(files, ms, rank, n).0;
    lemma_original_not_copy(files, ms, roles1, n);
    lemma_copy_pass_roles(files, ms, rank, n);
}

proof fn lemma_copy_pass_roles(files: Seq<FileFacts>, ms: Seq<usize>, rank: Seq<u64>, pos: int)
    ensures
        copy_pass(files, ms, rank, pos).0.len() == ms.len(),
        forall|i: int|
            0 <= i < ms.len() ==> #[trigger] copy_pass(files, ms, rank, pos).0[i] == Role::Unknown
                || copy_pass(files, ms, rank, pos).0[i] == Role::Copy,
    decreases pos,
{
    if pos > 0 {
        lemma_copy_pass_roles(files, ms, rank, pos - 1);
    }
}

/// Member `j` is at least as good a file to keep as member `i`, by what the
/// files are: a better quality rank, or as good and fewer folders deep, or as
/// deep and a shorter path in bytes, or as long and a path that does not sort
/// after `i`'s.
pub open spec fn kept_over(files: Seq<FileFacts>, ms: Seq<usize>, rank: Seq<u64>, j: int, i: int) -> bool {
    let pj = member(files, ms, j).path@;
    let pi = member(files, ms, i).path@;
    rank[j] > rank[i] || (rank[j] == rank[i] && (slashes(pj) < slashes(pi) || (slashes(pj)
        == slashes(pi) && (encode_utf8(pj).len() < encode_utf8(pi).len() || (encode_utf8(pj).len()
        == encode_utf8(pi).len() && !text_less(pi, pj))))))
}

proof fn lemma_kept_over_steps(files: Seq<FileFacts>, ms: Seq<usize>, rank: Seq<u64>, a: int, b: int, c: int)
    requires
        kept_over(files, ms, rank, a, b),
        kept_over(files, ms, rank, b, c),
    ensures
        kept_over(files, ms, rank, a, c),
{
    let pa = member(files, ms, a).path@;
    let pb = member(files, ms, b).path@;
    let pc = member(files, ms, c).path@;
    if rank[a] == rank[b] && rank[b] == rank[c] && slashes(pa) == slashes(pb) && slashes(pb) == slashes(pc)
        && encode_utf8(pa).len() == encode_utf8(pb).len() && encode_utf8(pb).len() == encode_utf8(pc).len() {
        if text_less(pc, pa) {
            lemma_text_less_total(pb, pa);
            lemma_text_less_total(pc, pb);
            if pb != pa {
                lemma_text_less_transitive(pc, pa, pb);
            }
        }
    }
}

proof fn lemma_preferred_kept_over(files: Seq<FileFacts>, ms: Seq<usize>, rank: Seq<u64>, x: int, y: int)
    ensures
        preferred(files, ms, rank, x, y) ==> kept_over(files, ms, rank, x, y),
        !preferred(files, ms, rank, x, y) ==> kept_over(files, ms, rank, y, x),
{
    let px = member(files, ms, x).path@;
    let py = member(files, ms, y).path@;
    lemma_text_less_total(px, py);
    lemma_text_less_irreflexive(px);
}

proof fn lemma_best_of_kept_over(files: Seq<FileFacts>, ms: Seq<usize>, rank: Seq<u64>, tw: Seq<int>, k: int)
    requires
        1 <= k <= tw.len(),
    ensures
        forall|t: int| 0 <= t < k ==> kept_over(files, ms, rank, best_of(files, ms, rank, tw, k), #[trigger] tw[t]),
    decreases k,
{
    if k > 1 {
        lemma_best_of_kept_over(files, ms, rank, tw, k - 1);
        let b = best_of(files, ms, rank, tw, k - 1);
        let x = tw[k - 1];
        lemma_preferred_kept_over(files, ms, rank, b, x);
        if !preferred(files, ms, rank, b, x) {
            assert forall|t: int| 0 <= t < k implies kept_over(files, ms, rank, x, #[trigger] tw[t]) by {
                if t < k - 1 {
                    lemma_kept_over_steps(files, ms, rank, x, b, tw[t]);
                } else {
                    lemma_text_less_irreflexive(member(files, ms, x).path@);
                }
            }
        }
    } else {
        lemma_text_less_irreflexive(member(files, ms, tw[0]).path@);
    }
}

#[verifier::spinoff_prover]
#[verifier::rlimit(60)]
proof fn lemma_copy_pass_kept_over(files: Seq<FileFacts>, ms: Seq<usize>, rank: Seq<u64>, pos: int)
    requires
        0 <= pos <= ms.len(),
    ensures
        ({
            let roles = copy_pass(files, ms, rank, pos).0;
            forall|i: int, j: int|
                0 <= i < ms.len() && 0 <= j < ms.len() && #[trigger] roles[i] == Role::Copy
                    && #[trigger] roles[j] != Role::Copy && hash_of(member(files, ms, i)) == hash_of(
                    member(files, ms, j),
                ) ==> kept_over(files, ms, rank, j, i)
        }),
    decreases pos,
{
    let n = ms.len() as int;
    if pos > 0 {
        lemma_copy_pass_kept_over(files, ms, rank, pos - 1);
        lemma_copy_pass(files, ms, rank, pos - 1);
        let (roles, claimed) = copy_pass(files, ms, rank, pos - 1);
        let p = pos - 1;
        if !claimed[p] {
            match hash_of(member(files, ms, p)) {
                None => {},
                Some(h) => {
                    let tw = twins(files, ms, h, n);
                    if tw.len() >= 2 {
                        lemma_twins(files, ms, h, n);
                        let b = best_of(files, ms, rank, tw, tw.len() as int);
                        lemma_best_of_in(files, ms, rank, tw, tw.len() as int);
                        lemma_best_of_kept_over(files, ms, rank, tw, tw.len() as int);
                        let r2 = copy_pass(files, ms, rank, pos).0;
                        assert forall|t: int| #[trigger] tw.contains(t) implies !claimed[t] by {
                            if claimed[t] {
                                assert(claimed[p]);
                            }
                        }
                        assert forall|i: int, j: int|
                            0 <= i < n && 0 <= j < n && #[trigger] r2[i] == Role::Copy
                                && #[trigger] r2[j] != Role::Copy && hash_of(member(files, ms, i))
                                == hash_of(member(files, ms, j)) implies kept_over(files, ms, rank, j, i) by {
                            if tw.contains(i) && i != b {
                                assert(tw.contains(j));
                                assert(j == b);
                                let t = choose|t: int| 0 <= t < tw.len() && tw[t] == i;
                                assert(kept_over(files, ms, rank, b, tw[t]));
                            } else {
                                assert(roles[i] == Role::Copy);
                                assert(claimed[i]);
                                assert(!tw.contains(i));
                                assert(!tw.contains(j));
                                assert(r2[j] == roles[j]);
                            }
                        }
                    }
                },
            }
        }
    }
}

/// Of byte-identical twins the better file is the one kept: a member left
/// standing beside a twin called a copy has at least the copy's quality
/// rank; with the same rank it lies no deeper in folders; as deep, its
/// path is no longer in bytes than the copy's; and as long, the copy's path
/// does not sort before it.
pub proof fn law_the_kept_twin_is_the_better_file(files: Seq<FileFacts>, ms: Seq<usize>, rank: Seq<u64>, i: int, j: int)
    requires
        0 <= i < ms.len(),
        0 <= j < ms.len(),
        roles_spec(files, ms, rank)[i] == Role::Copy,
        roles_spec(files, ms, rank)[j] != Role::Copy,
        hash_of(member(files, ms, i)) == hash_of(member(files, ms, j)),
    ensures
        rank[j] >= rank[i],
        rank[j] == rank[i] ==> slashes(member(files, ms, j).path@) <= slashes(member(files, ms, i).path@),
        rank[j] == rank[i] && slashes(member(files, ms, j).path@) == slashes(member(files, ms, i).path@)
            ==> encode_utf8(member(files, ms, j).path@).len() <= encode_utf8(member(files, ms, i).path@).len(),
        rank[j] == rank[i] && slashes(member(files, ms, j).path@) == slashes(member(files, ms, i).path@)
            && encode_utf8(member(files, ms, j).path@).len() == encode_utf8(member(files, ms, i).path@).len()
            ==> !text_less(member(files, ms, i).path@, member(files, ms, j).path@),
{
    let n = ms.len() as int;
    lemma_copy_pass_kept_over(files, ms, rank, n);
    lemma_copy_pass_roles(files, ms, rank, n);
    let roles1 = copy_pass(files, ms, rank, n).0;
    lemma_original_not_copy(files, ms, roles1, n);
    // The later passes never make a copy, and never unmake one.
    assert(roles1[i] == Role::Copy);
    assert(roles1[j] != Role::Copy);
    assert(kept_over(files, ms, rank, j, i));
}

#[verifier::spinoff_prover]
#[verifier::rlimit(60)]
proof fn lemma_copy_pass_one_kept(files: Seq<FileFacts>, ms: Seq<usize>, rank: Seq<u64>, pos: int)
    requires
        0 <= pos <= ms.len(),
    ensures
        ({
            let (roles, claimed) = copy_pass(files, ms, rank, pos);
            &&& forall|i: int, j: int|
                0 <= i < ms.len() && 0 <= j < ms.len() && i != j && #[trigger] claimed[i] && hash_of(
                    member(files, ms, i),
                ) == #[trigger] hash_of(member(files, ms, j)) ==> roles[i] == Role::Copy || roles[j]
                    == Role::Copy
            &&& forall|q: int, r: int|
                0 <= q < pos && 0 <= r < ms.len() && q != r && hash_of(member(files, ms, q)) is Some
                    && #[trigger] hash_of(member(files, ms, r)) == #[trigger] hash_of(member(files, ms, q))
                    ==> claimed[q]
        }),
    decreases pos,
{
    let n = ms.len() as int;
    if pos > 0 {
        lemma_copy_pass_one_kept(files, ms, rank, pos - 1);
        lemma_copy_pass(files, ms, rank, pos - 1);
        let (roles, claimed) = copy_pass(files, ms, rank, pos - 1);
        let p = pos - 1;
        if !claimed[p] {
            match hash_of(member(files, ms, p)) {
                None => {},
                Some(h) => {
                    let tw = twins(files, ms, h, n);
                    lemma_twins(files, ms, h, n);
                    if tw.len() < 2 {
                        assert forall|r: int|
                            0 <= r < n && r != p implies hash_of(member(files, ms, r)) != hash_of(
                            member(files, ms, p),
                        ) by {
                            if hash_of(member(files, ms, r)) == hash_of(member(files, ms, p)) {
                                assert(tw.contains(r) && tw.contains(p));
                                let wr = choose|w: int| 0 <= w < tw.len() && tw[w] == r;
                                let wp = choose|w: int| 0 <= w < tw.len() && tw[w] == p;
                                assert(wr != wp);
                            }
                        }
                    } else {
                        let b = best_of(files, ms, rank, tw, tw.len() as int);
                        let (r2, c2) = copy_pass(files, ms, rank, pos);
                        assert forall|t: int| #[trigger] tw.contains(t) implies !claimed[t] by {
                            if claimed[t] {
                                assert(claimed[p]);
                            }
                        }
                        assert forall|i: int, j: int|
                            0 <= i < n && 0 <= j < n && i != j && #[trigger] c2[i] && hash_of(
                                member(files, ms, i),
                            ) == #[trigger] hash_of(member(files, ms, j)) implies r2[i] == Role::Copy
                            || r2[j] == Role::Copy by {
                            if tw.contains(i) {
                                assert(tw.contains(j));
                            } else {
                                assert(claimed[i]);
                                assert(!tw.contains(j));
                                assert(r2[i] == roles[i] && r2[j] == roles[j]);
                            }
                        }
                        assert forall|q: int, r: int|
                            0 <= q < pos && 0 <= r < n && q != r && hash_of(member(files, ms, q)) is Some
                                && #[trigger] hash_of(member(files, ms, r)) == #[trigger] hash_of(
                                member(files, ms, q),
                            ) implies c2[q] by {
                            if q < p {
                                assert(claimed[q]);
                            } else {
                                assert(tw.contains(q));
                            }
                        }
                    }
                },
            }
        }
    }
}

/// Of byte-identical twins one file is kept: of any two members whose pixel
/// hashes are known and equal, at least one is called a copy (and, by
/// [`law_every_copy_leaves_its_twin`], not every one of them is).
pub proof fn law_one_of_identical_twins_is_kept(files: Seq<FileFacts>, ms: Seq<usize>, rank: Seq<u64>, i: int, j: int)
    requires
        0 <= i < ms.len(),
        0 <= j < ms.len(),
        i != j,
        hash_of(member(files, ms, i)) is Some,
        hash_of(member(files, ms, i)) == hash_of(member(files, ms, j)),
    ensures
        roles_spec(files, ms, rank)[i] == Role::Copy || roles_spec(files, ms, rank)[j] == Role::Copy,
{
    let n = ms.len() as int;
    lemma_copy_pass_one_kept(files, ms, rank, n);
    lemma_copy_pass_roles(files, ms, rank, n);
    let (roles1, claimed) = copy_pass(files, ms, rank, n);
    lemma_original_not_copy(files, ms, roles1, n);
    assert(claimed[i]);
    assert(roles1[i] == Role::Copy || roles1[j] == Role::Copy);
    let fin = roles_spec(files, ms, rank);
    if roles1[i] == Role::Copy {
        assert(fin[i] == Role::Copy);
    } else {
        assert(fin[j] == Role::Copy);
    }
}

} // verus!
