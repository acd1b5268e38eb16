//! Folders the user has named as holding the archive's originals.
//!
//! A mark is one of two things: `Absolute` — this folder on this disk,
//! nothing else — or `EveryRoot` — this path relative to a root, under
//! every root the archive is configured with.
use vstd::prelude::*;
use crate::paths::{
    begins_with, is_under, part_views, parts_begin_with, same_dir, same_place, segments,
    split_segments, under,
};
use crate::text::{
    chars_of, lemma_text_less_irreflexive, lemma_text_less_total, lemma_text_less_transitive,
    str_is, text_less, text_lt,
};
use vstd::string::*;
use vstd::utf8::encode_utf8;

verus! {

#[derive(Debug, Clone, Copy, PartialEq, Eq, Structural)]
pub enum MarkScope {
    /// One folder, named in full.
    Absolute,
    /// A path relative to a root, meaning that folder under all of them.
    EveryRoot,
}

impl MarkScope {
    /// The word stored for this scope.
    pub open spec fn name(self) -> Seq<char> {
        match self {
            MarkScope::Absolute => "absolute"@,
            MarkScope::EveryRoot => "every-root"@,
        }
    }

    /// The scope a stored word names; anything unknown reads as absolute.
    pub open spec fn from_name(s: Seq<char>) -> MarkScope {
        if s == "every-root"@ {
            MarkScope::EveryRoot
        } else {
            MarkScope::Absolute
        }
    }

    pub fn as_str(self) -> (r: &'static str)
        ensures
            r@ == self.name(),
    {
        match self {
            MarkScope::Absolute => "absolute",
            MarkScope::EveryRoot => "every-root",
        }
    }

    pub fn parse(s: &str) -> (r: MarkScope)
        ensures
            r == MarkScope::from_name(s@),
    {
        if str_is(s, "every-root") {
            MarkScope::EveryRoot
        } else {
            MarkScope::Absolute
        }
    }
}

/// A stored scope reads back as itself.
pub proof fn law_scope_round_trip(m: MarkScope)
    ensures
        MarkScope::from_name(m.name()) == m,
{
    reveal_strlit("absolute");
    reveal_strlit("every-root");
    assert("absolute"@.len() == 8);
    assert("every-root"@.len() == 10);
}

#[derive(Debug, Clone)]
pub struct Mark {
    /// Absolute for `Absolute`, relative to a root for `EveryRoot`.
    pub path: String,
    pub scope: MarkScope,
}

/// Every mark, with the roots a relative one is read against.
#[derive(Debug, Clone, Default)]
pub struct Marks {
    pub marks: Vec<Mark>,
    /// Longest first, so a root nested inside another wins.
    pub roots: Vec<String>,
}

/// The first of `roots` from `k` on that `path` lies under.
pub open spec fn root_from(roots: Seq<String>, path: Seq<char>, k: nat) -> Option<int>
    decreases roots.len() - k,
{
    if k >= roots.len() {
        None
    } else if under(path, roots[k as int]@) {
        Some(k as int)
    } else {
        root_from(roots, path, k + 1)
    }
}

proof fn lemma_root_from(roots: Seq<String>, path: Seq<char>, k: nat)
    ensures
        root_from(roots, path, k) matches Some(j) ==> k <= j < roots.len() && under(
            path,
            roots[j]@,
        ),
    decreases roots.len() - k,
{
    if k < roots.len() && !under(path, roots[k as int]@) {
        lemma_root_from(roots, path, k + 1);
    }
}

impl Marks {
    proof fn lemma_covering_upto(self, path: Seq<char>, m: int)
        requires
            m <= self.marks@.len(),
        ensures
            self.covering_upto(path, m) matches Some(i) ==> 0 <= i < m && self.covers_path(
                self.marks@[i],
                path,
            ),
        decreases m,
    {
        if m > 0 {
            self.lemma_covering_upto(path, m - 1);
        }
    }

    proof fn lemma_relative_upto(self, rel: Seq<char>, m: int)
        requires
            m <= self.marks@.len(),
        ensures
            self.relative_upto(rel, m) matches Some(i) ==> 0 <= i < m,
        decreases m,
    {
        if m > 0 {
            self.lemma_relative_upto(rel, m - 1);
        }
    }

    proof fn lemma_most_specific(self, path: Seq<char>, m: int)
        requires
            0 <= m <= self.marks@.len(),
        ensures
            self.covering_upto(path, m) is None <==> forall|i: int|
                0 <= i < m ==> !self.covers_path(#[trigger] self.marks@[i], path),
            self.covering_upto(path, m) matches Some(b) ==> forall|i: int|
                0 <= i < m && self.covers_path(#[trigger] self.marks@[i], path) ==> self.outranks(
                    self.marks@[b],
                    self.marks@[i],
                    path,
                ),
        decreases m,
    {
        if m > 0 {
            self.lemma_most_specific(path, m - 1);
            self.lemma_covering_upto(path, m - 1);
        }
    }

    pub fn is_empty(&self) -> (r: bool)
        ensures
            r == (self.marks@.len() == 0),
    {
        self.marks.len() == 0
    }

    /// The root `path` lies under: the first of them in order, which with
    /// the roots kept longest first is the most specific one.
    pub open spec fn root_of(self, path: Seq<char>) -> Option<int> {
        root_from(self.roots@, path, 0)
    }

    /// The components of `path` below its root.
    pub open spec fn rest_of(self, path: Seq<char>) -> Option<Seq<Seq<char>>> {
        match self.root_of(path) {
            Some(k) => Some(segments(path).skip(segments(self.roots@[k]@).len() as int)),
            None => None,
        }
    }

    /// Mark `m`, taken alone, covers `path`.
    pub open spec fn covers_path(self, m: Mark, path: Seq<char>) -> bool {
        match m.scope {
            MarkScope::Absolute => under(path, m.path@),
            MarkScope::EveryRoot => match self.rest_of(path) {
                Some(r) => begins_with(r, segments(m.path@)),
                None => false,
            },
        }
    }

    /// How many components below the root of `path` mark `m` names; an
    /// absolute mark outside that root counts none.
    pub open spec fn depth_of(self, m: Mark, path: Seq<char>) -> nat {
        match m.scope {
            MarkScope::Absolute => match self.root_of(path) {
                Some(k) => if under(m.path@, self.roots@[k]@) {
                    (segments(m.path@).len() - segments(self.roots@[k]@).len()) as nat
                } else {
                    0
                },
                None => 0,
            },
            MarkScope::EveryRoot => segments(m.path@).len(),
        }
    }

    /// Mark `a` speaks for `path` at least as specifically as mark `b`: it
    /// is deeper, or as deep and not a relative mark against an absolute one.
    pub open spec fn outranks(self, a: Mark, b: Mark, path: Seq<char>) -> bool {
        let da = self.depth_of(a, path);
        let db = self.depth_of(b, path);
        da > db || (da == db && (a.scope == MarkScope::Absolute || b.scope
            == MarkScope::EveryRoot))
    }

    /// Among the first `m` marks, the one that speaks for `path`: of those
    /// covering it the most specific, the later one between equals.
    pub open spec fn covering_upto(self, path: Seq<char>, m: int) -> Option<int>
        decreases m,
    {
        if m <= 0 {
            None
        } else {
            let b = self.covering_upto(path, m - 1);
            let x = self.marks@[m - 1];
            if !self.covers_path(x, path) {
                b
            } else {
                match b {
                    Some(i) => if self.outranks(x, self.marks@[i], path) {
                        Some(m - 1)
                    } else {
                        b
                    },
                    None => Some(m - 1),
                }
            }
        }
    }

    /// Among the first `m` marks, the relative one that speaks for a path
    /// already relative to a root: the deepest covering it, the later one
    /// between equals.
    pub open spec fn relative_upto(self, rel: Seq<char>, m: int) -> Option<int>
        decreases m,
    {
        if m <= 0 {
            None
        } else {
            let b = self.relative_upto(rel, m - 1);
            let x = self.marks@[m - 1];
            if !(x.scope == MarkScope::EveryRoot && under(rel, x.path@)) {
                b
            } else {
                match b {
                    Some(i) => if segments(x.path@).len() >= segments(
                        self.marks@[i].path@,
                    ).len() {
                        Some(m - 1)
                    } else {
                        b
                    },
                    None => Some(m - 1),
                }
            }
        }
    }

    fn root_index(&self, path: &str) -> (r: Option<usize>)
        ensures
            r is None <==> self.root_of(path@) is None,
            r matches Some(j) ==> j < self.roots@.len() && self.root_of(path@) == Some(j as int)
                && under(path@, self.roots@[j as int]@),
    {
        proof {
            lemma_root_from(self.roots@, path@, 0);
        }
        let mut k: usize = 0;
        while k < self.roots.len()
            invariant
                k <= self.roots@.len(),
                self.root_of(path@) == root_from(self.roots@, path@, k as nat),
            decreases self.roots@.len() - k,
        {
            if is_under(path, self.roots[k].as_str()) {
                return Some(k);
            }
            k = k + 1;
        }
        None
    }

    /// The root this path lies under, and the components of the path below
    /// it. With no root configured but the empty one, a path is read
    /// against nothing and is its own relative form.
    pub fn split<'a>(&'a self, path: &str) -> (r: Option<(&'a str, Vec<Vec<char>>)>)
        ensures
            match self.root_of(path@) {
                Some(k) => r is Some && r.unwrap().0@ == self.roots@[k]@ && part_views(
                    r.unwrap().1@,
                ) == self.rest_of(path@).unwrap(),
                None => r is None,
            },
    {
        match self.root_index(path) {
            Some(k) => {
                let parts = split_segments(path);
                let skip = split_segments(self.roots[k].as_str()).len();
                let rest = skip_parts(&parts, skip);
                Some((self.roots[k].as_str(), rest))
            },
            None => None,
        }
    }

    /// Whether this one mark covers this path, ignoring every other.
    pub fn covers(&self, mark: &Mark, path: &str) -> (r: bool)
        ensures
            r == self.covers_path(*mark, path@),
    {
        match mark.scope {
            MarkScope::Absolute => is_under(path, mark.path.as_str()),
            MarkScope::EveryRoot => match self.split(path) {
                Some((_, rest)) => parts_begin_with(&rest, &split_segments(mark.path.as_str())),
                None => false,
            },
        }
    }

    fn depth(&self, mark: &Mark, path: &str) -> (r: usize)
        ensures
            r == self.depth_of(*mark, path@),
    {
        match mark.scope {
            MarkScope::Absolute => match self.root_index(path) {
                Some(k) => {
                    let root = self.roots[k].as_str();
                    if is_under(mark.path.as_str(), root) {
                        split_segments(mark.path.as_str()).len() - split_segments(root).len()
                    } else {
                        0
                    }
                },
                None => 0,
            },
            MarkScope::EveryRoot => split_segments(mark.path.as_str()).len(),
        }
    }

    fn outranks_exec(&self, a: &Mark, b: &Mark, path: &str) -> (r: bool)
        ensures
            r == self.outranks(*a, *b, path@),
    {
        let da = self.depth(a, path);
        let db = self.depth(b, path);
        da > db || (da == db && (a.scope == MarkScope::Absolute || b.scope
            == MarkScope::EveryRoot))
    }

    /// The mark covering this path, if any. When several do, the deeper one
    /// wins: naming a folder inside another marked folder is the narrower
    /// statement. At equal depth an absolute mark wins, because naming one
    /// disk is more specific than naming all of them.
    pub fn covering(&self, path: &str) -> (r: Option<&Mark>)
        ensures
            match self.covering_upto(path@, self.marks@.len() as int) {
                Some(i) => r is Some && *r.unwrap() == self.marks@[i],
                None => r is None,
            },
    {
        let mut best: Option<usize> = None;
        let mut i: usize = 0;
        while i < self.marks.len()
            invariant
                i <= self.marks@.len(),
                match self.covering_upto(path@, i as int) {
                    Some(b) => best == Some(b as usize),
                    None => best is None,
                },
                forall|b: usize| best == Some(b) ==> b < i,
            decreases self.marks@.len() - i,
        {
            proof {
                self.lemma_covering_upto(path@, i as int);
            }
            if self.covers(&self.marks[i], path) {
                match best {
                    Some(b) => {
                        if self.outranks_exec(&self.marks[i], &self.marks[b], path) {
                            best = Some(i);
                        }
                    },
                    None => {
                        best = Some(i);
                    },
                }
            }
            i = i + 1;
        }
        proof {
            self.lemma_covering_upto(path@, self.marks@.len() as int);
        }
        match best {
            Some(b) => Some(&self.marks[b]),
            None => None,
        }
    }

    /// The relative mark covering a node of the merged tree, whose path is
    /// already relative to a root. An absolute mark speaks about one disk's
    /// copy of such a node, and the merged node is all of them.
    pub fn covering_relative(&self, rel: &str) -> (r: Option<&Mark>)
        ensures
            match self.relative_upto(rel@, self.marks@.len() as int) {
                Some(i) => r is Some && *r.unwrap() == self.marks@[i],
                None => r is None,
            },
    {
        let mut best: Option<usize> = None;
        let mut best_len: usize = 0;
        let mut i: usize = 0;
        while i < self.marks.len()
            invariant
                i <= self.marks@.len(),
                match self.relative_upto(rel@, i as int) {
                    Some(b) => best == Some(b as usize) && best_len == segments(
                        self.marks@[b].path@,
                    ).len(),
                    None => best is None,
                },
                forall|b: usize| best == Some(b) ==> b < i,
            decreases self.marks@.len() - i,
        {
            proof {
                self.lemma_relative_upto(rel@, i as int);
            }
            let m = &self.marks[i];
            if m.scope == MarkScope::EveryRoot && is_under(rel, m.path.as_str()) {
                let len = split_segments(m.path.as_str()).len();
                match best {
                    Some(_) => {
                        if len >= best_len {
                            best = Some(i);
                            best_len = len;
                        }
                    },
                    None => {
                        best = Some(i);
                        best_len = len;
                    },
                }
            }
            i = i + 1;
        }
        proof {
            self.lemma_relative_upto(rel@, self.marks@.len() as int);
        }
        match best {
            Some(b) => Some(&self.marks[b]),
            None => None,
        }
    }

    /// True when this folder is marked in its own right, rather than covered
    /// by one further up, however either of them is spelled.
    pub fn marked(&self, path: &str, scope: MarkScope) -> (r: bool)
        ensures
            r == exists|i: int|
                0 <= i < self.marks@.len() && #[trigger] self.marks@[i].scope == scope
                    && same_place(self.marks@[i].path@, path@),
    {
        let mut i: usize = 0;
        while i < self.marks.len()
            invariant
                i <= self.marks@.len(),
                forall|k: int|
                    0 <= k < i ==> !(#[trigger] self.marks@[k].scope == scope && same_place(
                        self.marks@[k].path@,
                        path@,
                    )),
            decreases self.marks@.len() - i,
        {
            if self.marks[i].scope == scope && same_dir(self.marks[i].path.as_str(), path) {
                return true;
            }
            i = i + 1;
        }
        false
    }
}

/// The paths of the first `m` marks of `scope` that lie under `path`, in
/// order: those a new mark on `path` absorbs.
pub open spec fn absorbed_upto(marks: Seq<Mark>, path: Seq<char>, scope: MarkScope, m: int) -> Seq<
    Seq<char>,
>
    decreases m,
{
    if m <= 0 {
        Seq::empty()
    } else {
        absorbed_upto(marks, path, scope, m - 1) + if marks[m - 1].scope == scope && under(
            marks[m - 1].path@,
            path,
        ) {
            seq![marks[m - 1].path@]
        } else {
            Seq::empty()
        }
    }
}

/// The (file, group) of the first `m` rows whose path no mark covers.
pub open spec fn uncovered_upto(marks: Marks, rows: Seq<(i64, i64, String)>, m: int) -> Seq<
    (i64, i64),
>
    decreases m,
{
    if m <= 0 {
        Seq::empty()
    } else {
        uncovered_upto(marks, rows, m - 1) + if marks.covering_upto(
            rows[m - 1].2@,
            marks.marks@.len() as int,
        ) is None {
            seq![(rows[m - 1].0, rows[m - 1].1)]
        } else {
            Seq::empty()
        }
    }
}

impl Marks {
    /// What naming `path` as holding originals, with `scope`, changes. A
    /// folder a mark of the same kind already covers is not written down
    /// again: `None`. Otherwise the marks of the same kind below it, which
    /// the new mark absorbs and replaces. The two kinds do not absorb each
    /// other.
    pub fn absorbed_by(&self, path: &str, scope: MarkScope) -> (r: Option<Vec<String>>)
        ensures
            r is None <==> exists|i: int|
                0 <= i < self.marks@.len() && #[trigger] self.marks@[i].scope == scope && under(
                    path@,
                    self.marks@[i].path@,
                ),
            r matches Some(v) ==> v@.map_values(|x: String| x@) == absorbed_upto(
                self.marks@,
                path@,
                scope,
                self.marks@.len() as int,
            ),
    {
        let mut i: usize = 0;
        while i < self.marks.len()
            invariant
                i <= self.marks@.len(),
                forall|k: int|
                    0 <= k < i ==> !(#[trigger] self.marks@[k].scope == scope && under(
                        path@,
                        self.marks@[k].path@,
                    )),
            decreases self.marks@.len() - i,
        {
            if self.marks[i].scope == scope && is_under(path, self.marks[i].path.as_str()) {
                return None;
            }
            i = i + 1;
        }
        let mut out: Vec<String> = Vec::new();
        let mut i: usize = 0;
        while i < self.marks.len()
            invariant
                i <= self.marks@.len(),
                out@.map_values(|x: String| x@) == absorbed_upto(self.marks@, path@, scope, i as int),
            decreases self.marks@.len() - i,
        {
            let m = &self.marks[i];
            if m.scope == scope && is_under(m.path.as_str(), path) {
                let ghost before = out@;
                out.push(m.path.clone());
                assert(out@.map_values(|x: String| x@) =~= before.map_values(|x: String| x@).push(
                    self.marks@[i as int].path@,
                ));
            }
            i = i + 1;
        }
        Some(out)
    }

    /// Of rows (file, group, path) kept because a mark chose them, those no
    /// mark covers any more, as (file, group): the decisions to take back.
    pub fn uncovered(&self, rows: &[(i64, i64, String)]) -> (r: Vec<(i64, i64)>)
        ensures
            r@ == uncovered_upto(*self, rows@, rows@.len() as int),
    {
        let mut out: Vec<(i64, i64)> = Vec::new();
        let mut i: usize = 0;
        while i < rows.len()
            invariant
                i <= rows@.len(),
                out@ == uncovered_upto(*self, rows@, i as int),
            decreases rows@.len() - i,
        {
            let (file, family, path) = &rows[i];
            if self.covering(path.as_str()).is_none() {
                out.push((*file, *family));
            }
            i = i + 1;
        }
        out
    }
}

/// A configured root with its trailing separators taken off.
pub open spec fn trim_trailing(s: Seq<char>) -> Seq<char>
    decreases s.len(),
{
    if s.len() > 0 && s.last() == '/' {
        trim_trailing(s.drop_last())
    } else {
        s
    }
}

/// Root `a` is tried before root `b`: it is longer in bytes, or as long and
/// first by name. A root nested inside another is longer, so the most
/// specific root is found first.
pub open spec fn tried_before(a: Seq<char>, b: Seq<char>) -> bool {
    let la = encode_utf8(a).len();
    let lb = encode_utf8(b).len();
    la > lb || (la == lb && text_less(a, b))
}

/// Some configured root, trimmed, reads `x`.
pub open spec fn configured(raw: Seq<String>, x: Seq<char>, n: int) -> bool {
    exists|k: int| 0 <= k < n && #[trigger] trim_trailing(raw[k]@) == x
}

/// One of `v` reads `x`.
pub open spec fn listed(v: Seq<String>, x: Seq<char>) -> bool {
    exists|i: int| 0 <= i < v.len() && #[trigger] v[i]@ == x
}

proof fn lemma_tried_before_order(a: Seq<char>, b: Seq<char>, c: Seq<char>)
    ensures
        !tried_before(a, a),
        a != b ==> tried_before(a, b) || tried_before(b, a),
        !(tried_before(a, b) && tried_before(b, a)),
        tried_before(a, b) && tried_before(b, c) ==> tried_before(a, c),
{
    lemma_text_less_irreflexive(a);
    lemma_text_less_total(a, b);
    if tried_before(a, b) && tried_before(b, c) && text_less(a, b) && text_less(b, c) {
        lemma_text_less_transitive(a, b, c);
    }
}

fn trim_root(s: &str) -> (r: String)
    ensures
        r@ == trim_trailing(s@),
{
    let cs = chars_of(s);
    let mut end: usize = cs.len();
    proof {
        assert(s@.subrange(0, end as int) =~= s@);
    }
    while end > 0 && cs[end - 1] == '/'
        invariant
            cs@ == s@,
            end <= cs@.len(),
            trim_trailing(s@) == trim_trailing(s@.subrange(0, end as int)),
        decreases end,
    {
        proof {
            assert(s@.subrange(0, end as int).drop_last() =~= s@.subrange(0, end - 1));
        }
        end = end - 1;
    }
    String::from_str(s.substring_char(0, end))
}

fn tried_first(a: &String, b: &String) -> (r: bool)
    ensures
        r == tried_before(a@, b@),
{
    let la = a.as_str().as_bytes().len();
    let lb = b.as_str().as_bytes().len();
    la > lb || (la == lb && text_lt(a, b))
}

/// The roots a relative mark is read against, in the order they are tried:
/// each configured root without its trailing separators, empty ones left
/// out, every root once, longest first and then by name. With none left
/// there is one implicit root, the empty one, against which a path is
/// read as itself.
pub fn ordered_roots(raw: &[String]) -> (roots: Vec<String>)
    ensures
        (exists|x: Seq<char>| x.len() > 0 && configured(raw@, x, raw@.len() as int)) ==> {
            &&& forall|i: int, j: int|
                0 <= i < j < roots@.len() ==> tried_before(roots@[i]@, roots@[j]@)
            &&& forall|x: Seq<char>|
                #![trigger listed(roots@, x)]
                #![trigger configured(raw@, x, raw@.len() as int)]
                listed(roots@, x) <==> (x.len() > 0 && configured(raw@, x, raw@.len() as int))
        },
        !(exists|x: Seq<char>| x.len() > 0 && configured(raw@, x, raw@.len() as int)) ==> (
        roots@.len() == 1 && roots@[0]@ == Seq::<char>::empty()),
{
    let mut out: Vec<String> = Vec::new();
    let mut k: usize = 0;
    while k < raw.len()
        invariant
            k <= raw@.len(),
            forall|i: int, j: int| 0 <= i < j < out@.len() ==> tried_before(out@[i]@, out@[j]@),
            forall|x: Seq<char>|
                #![trigger listed(out@, x)]
                #![trigger configured(raw@, x, k as int)]
                listed(out@, x) <==> (x.len() > 0 && configured(raw@, x, k as int)),
        decreases raw@.len() - k,
    {
        let t = trim_root(raw[k].as_str());
        let ghost before = out@;
        let ghost tv = t@;
        proof {
            assert(trim_trailing(raw@[k as int]@) == tv);
        }
        if !t.as_str().is_empty() {
            let mut p: usize = 0;
            while p < out.len() && tried_first(&out[p], &t)
                invariant
                    out@ == before,
                    t@ == tv,
                    p <= out@.len(),
                    forall|i: int| 0 <= i < p ==> tried_before(out@[i]@, tv),
                decreases out@.len() - p,
            {
                p = p + 1;
            }
            if p < out.len() && out[p] == t {
                proof {
                    assert forall|x: Seq<char>|
                        listed(out@, x) <==> (x.len()
                            > 0 && configured(raw@, x, k + 1) ) by {
                        if x.len() > 0 && configured(raw@, x, k + 1) && !configured(raw@, x, k as int) {
                            let w = choose|w: int| 0 <= w < k + 1 && #[trigger] trim_trailing(raw@[w]@) == x;
                            assert(w == k);
                            assert(out@[p as int]@ == x);
                        }
                        if listed(out@, x) {
                            assert(configured(raw@, x, k as int));
                            let w = choose|w: int| 0 <= w < k && #[trigger] trim_trailing(raw@[w]@) == x;
                            assert(0 <= w < k + 1 && trim_trailing(raw@[w]@) == x);
                        }
                    }
                }
            } else {
                proof {
                    if p < out@.len() {
                        lemma_tried_before_order(out@[p as int]@, tv, tv);
                        assert(tried_before(tv, out@[p as int]@));
                        assert forall|j: int| p <= j < out@.len() implies tried_before(tv, out@[j]@) by {
                            lemma_tried_before_order(tv, out@[p as int]@, out@[j]@);
                        }
                    }
                }
                out.insert(p, t);
                proof {
                    assert forall|i: int, j: int| 0 <= i < j < out@.len() implies tried_before(
                        out@[i]@,
                        out@[j]@,
                    ) by {
                        if i < p && j > p {
                            lemma_tried_before_order(out@[i]@, tv, out@[j]@);
                        }
                    }
                    assert forall|x: Seq<char>|
                        listed(out@, x) <==> (x.len()
                            > 0 && configured(raw@, x, k + 1)) by {
                        if x.len() > 0 && configured(raw@, x, k + 1) {
                            if configured(raw@, x, k as int) {
                                let i = choose|i: int| 0 <= i < before.len() && #[trigger] before[i]@ == x;
                                if i < p {
                                    assert(out@[i]@ == x);
                                } else {
                                    assert(out@[i + 1]@ == x);
                                }
                            } else {
                                assert(out@[p as int]@ == x);
                            }
                        }
                        if listed(out@, x) {
                            let i = choose|i: int| 0 <= i < out@.len() && #[trigger] out@[i]@ == x;
                            if i == p {
                                assert(trim_trailing(raw@[k as int]@) == x);
                            } else if i < p {
                                assert(before[i]@ == x);
                            } else {
                                assert(before[i - 1]@ == x);
                            }
                            if !(x.len() > 0 && configured(raw@, x, k + 1)) {
                                if i != p {
                                    assert(configured(raw@, x, k as int));
                                    let w = choose|w: int| 0 <= w < k && #[trigger] trim_trailing(raw@[w]@) == x;
                                    assert(0 <= w < k + 1 && trim_trailing(raw@[w]@) == x);
                                }
                            }
                        }
                    }
                }
            }
        } else {
            proof {
                assert forall|x: Seq<char>|
                    listed(out@, x) <==> (x.len()
                        > 0 && configured(raw@, x, k + 1)) by {
                    if x.len() > 0 && configured(raw@, x, k + 1) {
                        let w = choose|w: int| 0 <= w < k + 1 && #[trigger] trim_trailing(raw@[w]@) == x;
                        assert(w != k);
                        assert(configured(raw@, x, k as int));
                    }
                    if listed(out@, x) {
                        assert(configured(raw@, x, k as int));
                        let w = choose|w: int| 0 <= w < k && #[trigger] trim_trailing(raw@[w]@) == x;
                        assert(0 <= w < k + 1 && trim_trailing(raw@[w]@) == x);
                    }
                }
            }
        }
        k = k + 1;
    }
    if out.len() == 0 {
        proof {
            assert forall|x: Seq<char>| !(x.len() > 0 && configured(raw@, x, raw@.len() as int)) by {
                if x.len() > 0 && configured(raw@, x, raw@.len() as int) {
                    assert(listed(out@, x));
                }
            }
        }
        out.push(String::new());
    } else {
        proof {
            let x = out@[0]@;
            assert(listed(out@, x));
            assert(x.len() > 0 && configured(raw@, x, raw@.len() as int));
        }
    }
    out
}

/// The mark that speaks for a path covers it and is at least as specific as
/// every other mark covering it; there is none exactly when no mark covers
/// the path.
pub proof fn law_the_most_specific_mark_speaks(marks: Marks, path: Seq<char>)
    ensures
        ({
            let n = marks.marks@.len() as int;
            &&& marks.covering_upto(path, n) is None <==> forall|i: int|
                0 <= i < n ==> !marks.covers_path(#[trigger] marks.marks@[i], path)
            &&& marks.covering_upto(path, n) matches Some(b) ==> {
                &&& 0 <= b < n
                &&& marks.covers_path(marks.marks@[b], path)
                &&& forall|i: int|
                    0 <= i < n && marks.covers_path(#[trigger] marks.marks@[i], path)
                        ==> marks.outranks(marks.marks@[b], marks.marks@[i], path)
            }
        }),
{
    marks.lemma_most_specific(path, marks.marks@.len() as int);
    marks.lemma_covering_upto(path, marks.marks@.len() as int);
}

/// The components of `v` from the `k`-th on.
fn skip_parts(v: &Vec<Vec<char>>, k: usize) -> (r: Vec<Vec<char>>)
    ensures
        k <= v@.len() ==> part_views(r@) == part_views(v@).skip(k as int),
        k > v@.len() ==> r@.len() == 0,
{
    let mut r: Vec<Vec<char>> = Vec::new();
    let mut i: usize = k;
    while i < v.len()
        invariant
            k <= i || v@.len() <= i,
            i <= v@.len() || k > v@.len(),
            k <= v@.len() ==> part_views(r@) == part_views(v@).subrange(k as int, i as int),
            k > v@.len() ==> r@.len() == 0,
        decreases v@.len() - i,
    {
        let c = v[i].clone();
        let ghost before = r@;
        r.push(c);
        proof {
            assert(part_views(r@) =~= part_views(before).push(v@[i as int]@));
            assert(part_views(v@).subrange(k as int, i + 1) =~= part_views(v@).subrange(
                k as int,
                i as int,
            ).push(v@[i as int]@));
        }
        i = i + 1;
    }
    proof {
        if k <= v@.len() {
            assert(part_views(v@).subrange(k as int, v@.len() as int) =~= part_views(v@).skip(
                k as int,
            ));
        }
    }
    r
}

} // verus!
