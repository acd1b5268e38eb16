//! Matching files on disk to the frames a Lightroom catalog curated.
//!
//! The paths will not agree. A catalog records what the machine that wrote
//! it saw, and that is rarely what we walk: on Unraid a catalog says
//! `/mnt/user/data/media/foto/...` — the FUSE share — while the scan reads
//! `/mnt/disk3/data/media/foto/...` directly. On macOS `/var` resolves to
//! `/private/var`. Comparing full paths therefore silently protects nothing.
//!
//! So the match falls back to the tail of the path, which is identical
//! across every one of those cases. A wrong match here over-protects, which
//! is the harmless direction; a missed match deletes something curated.
use vstd::prelude::*;
use vstd::hash_map::StringHashMap;
use crate::text::{chars_of, lowercase, to_lowercase};
use crate::paths::{segments, split_segments};

verus! {

/// How many trailing components must agree for a fallback match. Enough to
/// survive a Sony body reusing `DSC01234` across years and folders.
pub const TAIL: usize = 3;

/// Components joined with `/` between them.
pub open spec fn join_slash(p: Seq<Seq<char>>) -> Seq<char>
    decreases p.len(),
{
    if p.len() == 0 {
        Seq::empty()
    } else if p.len() == 1 {
        p[0]
    } else {
        join_slash(p.drop_last()) + seq!['/'] + p.last()
    }
}

/// The last `TAIL` components of a path (all of them when there are fewer),
/// joined with `/`.
pub open spec fn tail_text(path: Seq<char>) -> Seq<char> {
    let p = segments(path);
    let from = if p.len() >= TAIL {
        p.len() - TAIL
    } else {
        0
    };
    join_slash(p.subrange(from, p.len() as int))
}

/// The key a path is matched by when the whole path does not match.
pub open spec fn tail_of(path: Seq<char>) -> Seq<char> {
    lowercase(tail_text(path))
}

proof fn lemma_join_push(p: Seq<Seq<char>>, x: Seq<char>)
    ensures
        join_slash(p.push(x)) == if p.len() == 0 {
            x
        } else {
            join_slash(p) + seq!['/'] + x
        },
{
    assert(p.push(x).drop_last() =~= p);
}

pub fn tail_key(path: &str) -> (r: String)
    ensures
        r@ == tail_of(path@),
{
    let parts = split_segments(path);
    let ghost segs = segments(path@);
    assert(parts@.map_values(|v: Vec<char>| v@) == segs);
    let m = parts.len();
    let from = m.saturating_sub(TAIL);
    let ghost sub = segs.subrange(from as int, m as int);
    let mut out: Vec<char> = Vec::new();
    let mut j = from;
    while j < m
        invariant
            from <= j <= m,
            m == parts@.len(),
            parts@.map_values(|v: Vec<char>| v@) == segs,
            sub == segs.subrange(from as int, m as int),
            out@ == join_slash(sub.take(j - from)),
        decreases m - j,
    {
        let part = &parts[j];
        let ghost before = out@;
        if j > from {
            out.push('/');
        }
        let k_end = part.len();
        let mut k: usize = 0;
        while k < k_end
            invariant
                k <= k_end,
                k_end == part@.len(),
                out@ == (if j > from {
                    before + seq!['/']
                } else {
                    before
                }) + part@.take(k as int),
            decreases k_end - k,
        {
            out.push(part[k]);
            assert(part@.take(k + 1) =~= part@.take(k as int).push(part@[k as int]));
            k = k + 1;
        }
        proof {
            assert(part@.take(k_end as int) =~= part@);
            assert(segs[j as int] == part@);
            assert(sub.take(j + 1 - from) =~= sub.take(j - from).push(part@));
            lemma_join_push(sub.take(j - from), part@);
        }
        j = j + 1;
    }
    assert(sub.take(m - from) =~= sub);
    to_lowercase(out.as_slice())
}

/// Keeps the better of two ratings; a rating beats none.
pub open spec fn better(prev: Option<i64>, r: Option<i64>) -> Option<i64> {
    match (prev, r) {
        (Some(a), Some(b)) => Some(
            if a >= b {
                a
            } else {
                b
            },
        ),
        (Some(a), None) => Some(a),
        (None, b) => b,
    }
}

#[derive(Debug, Clone, Copy, Default, PartialEq, Eq, Structural)]
pub struct Curated {
    pub rating: Option<i64>,
    /// True when the paths agreed outright rather than by their tails.
    pub exact: bool,
}

/// The catalogued paths in lower case, the tails of those paths, and the
/// tails that more than one catalogued file shares, after taking in `entries`.
pub open spec fn model_of(entries: Seq<(Seq<char>, Option<i64>)>) -> (
    Map<Seq<char>, Option<i64>>,
    Map<Seq<char>, Option<i64>>,
    Set<Seq<char>>,
)
    decreases entries.len(),
{
    if entries.len() == 0 {
        (Map::empty(), Map::empty(), Set::empty())
    } else {
        let (p, t, a) = model_of(entries.drop_last());
        let (path, rating) = entries.last();
        let tail = tail_of(path);
        if t.contains_key(tail) {
            (p.insert(lowercase(path), rating), t.insert(tail, better(t[tail], rating)), a.insert(tail))
        } else {
            (p.insert(lowercase(path), rating), t.insert(tail, rating), a)
        }
    }
}

/// The catalog entries as text and rating.
pub open spec fn entry_views(entries: Seq<(String, Option<i64>)>) -> Seq<(Seq<char>, Option<i64>)> {
    entries.map_values(|e: (String, Option<i64>)| (e.0@, e.1))
}

/// What a lookup of `path` finds in the given tables.
pub open spec fn lookup_in(
    paths: Map<Seq<char>, Option<i64>>,
    tails: Map<Seq<char>, Option<i64>>,
    path: Seq<char>,
) -> Option<Curated> {
    if paths.contains_key(lowercase(path)) {
        Some(Curated { rating: paths[lowercase(path)], exact: true })
    } else if tails.contains_key(tail_of(path)) {
        Some(Curated { rating: tails[tail_of(path)], exact: false })
    } else {
        None
    }
}

pub struct CurationIndex {
    by_path: StringHashMap<Option<i64>>,
    by_tail: StringHashMap<Option<i64>>,
    /// Tails that more than one catalogued file shares; too ambiguous to use.
    ambiguous: StringHashMap<bool>,
}

impl CurationIndex {

    /// Catalogued paths, in lower case, with their ratings.
    pub closed spec fn paths(&self) -> Map<Seq<char>, Option<i64>> {
        self.by_path@
    }

    /// Path tails with the best rating among the files that share each.
    pub closed spec fn tails(&self) -> Map<Seq<char>, Option<i64>> {
        self.by_tail@
    }

    /// Tails shared by more than one catalogued file.
    pub closed spec fn ambiguous_tails(&self) -> Set<Seq<char>> {
        self.ambiguous@.dom()
    }

    pub fn build(entries: Vec<(String, Option<i64>)>) -> (idx: CurationIndex)
        ensures
            (idx.paths(), idx.tails(), idx.ambiguous_tails()) == model_of(entry_views(entries@)),
    {
        let mut idx = CurationIndex {
            by_path: StringHashMap::new(),
            by_tail: StringHashMap::new(),
            ambiguous: StringHashMap::new(),
        };
        let n = entries.len();
        for i in 0..n
            invariant
                n == entries@.len(),
                (idx.paths(), idx.tails(), idx.ambiguous_tails()) == model_of(
                    entry_views(entries@.take(i as int)),
                ),
        {
            let path = &entries[i].0;
            let rating = entries[i].1;
            proof {
                assert(entry_views(entries@.take(i + 1)).drop_last() =~= entry_views(
                    entries@.take(i as int),
                ));
                assert(entry_views(entries@.take(i + 1)).last() == (path@, rating));
            }
            let tail = tail_key(path.as_str());
            match idx.by_tail.get(tail.as_str()) {
                Some(p) => {
                    let prev = *p;
                    let best = match (prev, rating) {
                        (Some(a), Some(b)) => Some(
                            if a >= b {
                                a
                            } else {
                                b
                            },
                        ),
                        (Some(a), None) => Some(a),
                        (None, b) => b,
                    };
                    let tail2 = tail.clone();
                    idx.by_tail.insert(tail2, best);
                    idx.ambiguous.insert(tail, true);
                },
                None => {
                    idx.by_tail.insert(tail, rating);
                },
            }
            let pc = chars_of(path.as_str());
            let lower = to_lowercase(pc.as_slice());
            idx.by_path.insert(lower, rating);
        }
        assert(entries@.take(n as int) =~= entries@);
        idx
    }

    pub fn is_empty(&self) -> (r: bool)
        ensures
            r == (self.paths().dom() == Set::<Seq<char>>::empty()),
    {
        let r = self.by_path.is_empty();
        proof {
            if !r {
                let k = choose|k: Seq<char>| self.by_path@.dom().contains(k);
                assert(self.by_path@.dom().contains(k));
            } else {
                assert(self.by_path@.dom() =~= Set::<Seq<char>>::empty());
            }
        }
        r
    }

    pub fn lookup(&self, path: &str) -> (r: Option<Curated>)
        ensures
            r == lookup_in(self.paths(), self.tails(), path@),
    {
        let pc = chars_of(path);
        let lower = to_lowercase(pc.as_slice());
        if let Some(rating) = self.by_path.get(lower.as_str()) {
            return Some(Curated { rating: *rating, exact: true });
        }
        // An ambiguous tail still protects: over-protecting costs the user a
        // decision, under-protecting costs them a photograph.
        let tail = tail_key(path);
        match self.by_tail.get(tail.as_str()) {
            Some(rating) => Some(Curated { rating: *rating, exact: false }),
            None => None,
        }
    }
}

/// Every catalogued path is found again by its own text, as an exact match,
/// whatever else the catalog holds.
pub proof fn law_catalogued_path_is_found(entries: Seq<(Seq<char>, Option<i64>)>, j: int)
    requires
        0 <= j < entries.len(),
    ensures
        ({
            let (p, t, a) = model_of(entries);
            lookup_in(p, t, entries[j].0) matches Some(c) && c.exact
        }),
    decreases entries.len(),
{
    if j < entries.len() - 1 {
        law_catalogued_path_is_found(entries.drop_last(), j);
        assert(entries.drop_last()[j] == entries[j]);
    }
}

/// A path whose tail is catalogued is always protected: the lookup finds
/// something, exact or by its tail.
pub proof fn law_catalogued_tail_protects(entries: Seq<(Seq<char>, Option<i64>)>, path: Seq<char>)
    requires
        exists|j: int| 0 <= j < entries.len() && tail_of(entries[j].0) == tail_of(path),
    ensures
        ({
            let (p, t, a) = model_of(entries);
            lookup_in(p, t, path) is Some
        }),
    decreases entries.len(),
{
    let j = choose|j: int| 0 <= j < entries.len() && tail_of(entries[j].0) == tail_of(path);
    if j < entries.len() - 1 {
        assert(entries.drop_last()[j] == entries[j]);
        law_catalogued_tail_protects(entries.drop_last(), path);
    }
}


/// `best` is a rating at least `r`.
pub open spec fn covers(best: Option<i64>, r: i64) -> bool {
    match best {
        Some(b) => b >= r,
        None => false,
    }
}

/// The best rating among the entries whose path has `tail`: the highest
/// of those that have one, else none.
pub open spec fn best_rating(entries: Seq<(Seq<char>, Option<i64>)>, tail: Seq<char>) -> Option<i64>
    decreases entries.len(),
{
    if entries.len() == 0 {
        None
    } else {
        let prev = best_rating(entries.drop_last(), tail);
        if tail_of(entries.last().0) == tail {
            better(prev, entries.last().1)
        } else {
            prev
        }
    }
}

proof fn lemma_tails_are_best(entries: Seq<(Seq<char>, Option<i64>)>, tail: Seq<char>)
    ensures
        model_of(entries).1.contains_key(tail) <==> exists|j: int|
            0 <= j < entries.len() && tail_of(entries[j].0) == tail,
        model_of(entries).1.contains_key(tail) ==> model_of(entries).1[tail] == best_rating(
            entries,
            tail,
        ),
        !model_of(entries).1.contains_key(tail) ==> best_rating(entries, tail) is None,
        forall|j: int|
            0 <= j < entries.len() && tail_of(entries[j].0) == tail && entries[j].1 is Some
                ==> covers(best_rating(entries, tail), entries[j].1.unwrap()),
        best_rating(entries, tail) matches Some(b) ==> exists|j: int|
            0 <= j < entries.len() && tail_of(entries[j].0) == tail && entries[j].1 == Some(b),
    decreases entries.len(),
{
    if entries.len() > 0 {
        let rest = entries.drop_last();
        lemma_tails_are_best(rest, tail);
        assert forall|j: int| 0 <= j < rest.len() implies rest[j] == entries[j] by {}
        let n = entries.len() - 1;
        if let Some(b) = best_rating(rest, tail) {
            let j = choose|j: int|
                0 <= j < rest.len() && tail_of(rest[j].0) == tail && rest[j].1 == Some(b);
            assert(entries[j] == rest[j]);
        }
        if exists|j: int| 0 <= j < rest.len() && tail_of(rest[j].0) == tail {
            let j = choose|j: int| 0 <= j < rest.len() && tail_of(rest[j].0) == tail;
            assert(entries[j] == rest[j]);
        }
        assert forall|j: int|
            0 <= j < entries.len() && tail_of(entries[j].0) == tail && entries[j].1 is Some
                implies covers(best_rating(entries, tail), entries[j].1.unwrap()) by {
            if j < n {
                assert(rest[j] == entries[j]);
            }
        }
        if exists|j: int| 0 <= j < entries.len() && tail_of(entries[j].0) == tail {
            let j = choose|j: int| 0 <= j < entries.len() && tail_of(entries[j].0) == tail;
            if j < n {
                assert(rest[j] == entries[j]);
            }
        }
        if tail_of(entries.last().0) == tail {
            assert(tail_of(entries[n].0) == tail);
        }
    }
}

/// A path found by its tail alone reports the best rating among the
/// catalogued files that share that tail: the highest any of them has, or
/// none when none has one. Two masters in other folders that share a tail
/// protect a third with the stronger of their ratings.
pub proof fn law_an_ambiguous_tail_keeps_the_stronger_rating(
    entries: Seq<(Seq<char>, Option<i64>)>,
    path: Seq<char>,
)
    requires
        !model_of(entries).0.contains_key(lowercase(path)),
        exists|j: int| 0 <= j < entries.len() && tail_of(entries[j].0) == tail_of(path),
    ensures
        ({
            let (p, t, a) = model_of(entries);
            lookup_in(p, t, path) == Some(
                Curated { rating: best_rating(entries, tail_of(path)), exact: false },
            )
        }),
        forall|j: int|
            0 <= j < entries.len() && tail_of(entries[j].0) == tail_of(path) && entries[j].1 is Some
                ==> covers(best_rating(entries, tail_of(path)), entries[j].1.unwrap()),
        best_rating(entries, tail_of(path)) matches Some(b) ==> exists|j: int|
            0 <= j < entries.len() && tail_of(entries[j].0) == tail_of(path) && entries[j].1 == Some(b),
{
    lemma_tails_are_best(entries, tail_of(path));
}
} // verus!
