//! Perceptual candidates, and when looking alike can mean one photograph.
//!
//! Hashes propose, similarity disposes: a pair of close hashes is only a
//! candidate. The structural similarity itself is floating point and is
//! measured beside this; what is decided here is which pairs are worth
//! measuring, and which measured pairs can be one photograph at all.
use vstd::prelude::*;
use crate::family::links::stem_of;
use crate::family::roles::{by_editor, names_editor};
use crate::hash::{crop_distance, hamming, hamming_spec};
use crate::text::{chars_of, str_is};

verus! {

/// The whole-frame distance that still counts as a lead, by default.
pub const PHASH_MAX: u32 = 10;
/// The distance on the regional hashes that still counts, by default.
pub const CROP_MAX: u32 = 6;
/// At most this many leads per file, by default, against a pathological
/// file dragging in thousands.
pub const MAX_CANDIDATES_PER_FILE: usize = 64;

/// A pair of files worth comparing on their pixels.
#[derive(Debug, Clone, Copy, PartialEq, Eq, Structural)]
pub struct Candidate {
    pub a: usize,
    pub b: usize,
    /// Hamming distance between the whole-frame hashes.
    pub phash_distance: u32,
    /// Proposed by a region of the frame rather than the whole: a crop.
    pub via_crop: bool,
}

/// Some region of one frame is within `max` bits of some region of the
/// other; the closest distance counts as 64 at most.
pub open spec fn crops_meet(a: Seq<u64>, b: Seq<u64>, max: u32) -> bool {
    max >= 64 || exists|i: int, j: int|
        0 <= i < a.len() && 0 <= j < b.len() && #[trigger] hamming_spec(a[i], b[j]) <= max
}

/// The lead file `i` has on file `j`: close whole-frame hashes, else a
/// close region, which is how a crop is caught.
pub open spec fn lead(
    phash: Seq<u64>,
    crops: Seq<[u64; 5]>,
    phash_max: u32,
    crop_max: u32,
    i: int,
    j: int,
) -> Option<Candidate> {
    let d = hamming_spec(phash[i], phash[j]);
    if d <= phash_max {
        Some(Candidate { a: i as usize, b: j as usize, phash_distance: d as u32, via_crop: false })
    } else if crops_meet(crops[i]@, crops[j]@, crop_max) {
        Some(Candidate { a: i as usize, b: j as usize, phash_distance: d as u32, via_crop: true })
    } else {
        None
    }
}

/// The leads of file `i` on the files after it and below `m`, in order.
pub open spec fn leads_upto(
    phash: Seq<u64>,
    crops: Seq<[u64; 5]>,
    phash_max: u32,
    crop_max: u32,
    i: int,
    m: int,
) -> Seq<Candidate>
    decreases m - i,
{
    if m <= i + 1 {
        Seq::empty()
    } else {
        leads_upto(phash, crops, phash_max, crop_max, i, m - 1) + match lead(
            phash,
            crops,
            phash_max,
            crop_max,
            i,
            m - 1,
        ) {
            Some(c) => seq![c],
            None => Seq::empty(),
        }
    }
}

/// Lead `x` comes before lead `y`: closer, or as close and met earlier.
pub open spec fn before(x: Candidate, y: Candidate) -> bool {
    x.phash_distance < y.phash_distance || (x.phash_distance == y.phash_distance && x.b < y.b)
}

/// How many of the first `m` of `leads` come before `c`.
pub open spec fn ahead(leads: Seq<Candidate>, c: Candidate, m: int) -> nat
    decreases m,
{
    if m <= 0 {
        0
    } else {
        ahead(leads, c, m - 1) + if before(leads[m - 1], c) {
            1nat
        } else {
            0nat
        }
    }
}

/// Of the first `m` of `leads`, those with fewer than `max` leads before
/// them: the `max` closest, in their order.
pub open spec fn closest(leads: Seq<Candidate>, max: usize, m: int) -> Seq<Candidate>
    decreases m,
{
    if m <= 0 {
        Seq::empty()
    } else {
        closest(leads, max, m - 1) + if ahead(leads, leads[m - 1], leads.len() as int) < max {
            seq![leads[m - 1]]
        } else {
            Seq::empty()
        }
    }
}

/// The candidates of the first `k` files, each file keeping its `max`
/// closest leads, by file and then by the other file.
pub open spec fn candidates_upto(
    phash: Seq<u64>,
    crops: Seq<[u64; 5]>,
    phash_max: u32,
    crop_max: u32,
    max: usize,
    k: int,
) -> Seq<Candidate>
    decreases k,
{
    if k <= 0 {
        Seq::empty()
    } else {
        let l = leads_upto(phash, crops, phash_max, crop_max, k - 1, phash.len() as int);
        candidates_upto(phash, crops, phash_max, crop_max, max, k - 1) + closest(
            l,
            max,
            l.len() as int,
        )
    }
}

fn lead_of(
    phash: &[u64],
    crops: &[[u64; 5]],
    phash_max: u32,
    crop_max: u32,
    i: usize,
    j: usize,
) -> (r: Option<Candidate>)
    requires
        i < phash@.len(),
        j < phash@.len(),
        crops@.len() == phash@.len(),
    ensures
        r == lead(phash@, crops@, phash_max, crop_max, i as int, j as int),
{
    let d = hamming(phash[i], phash[j]);
    if d <= phash_max {
        return Some(Candidate { a: i, b: j, phash_distance: d, via_crop: false });
    }
    let cd = crop_distance(&crops[i], &crops[j]);
    proof {
        let a = crops@[i as int]@;
        let b = crops@[j as int]@;
        if cd <= crop_max && crop_max < 64 {
            let (x, y) = choose|x: int, y: int|
                0 <= x < a.len() && 0 <= y < b.len() && cd == #[trigger] hamming_spec(a[x], b[y]);
            assert(hamming_spec(a[x], b[y]) <= crop_max);
        }
        if crops_meet(a, b, crop_max) && crop_max < 64 {
            let (x, y) = choose|x: int, y: int|
                0 <= x < a.len() && 0 <= y < b.len() && #[trigger] hamming_spec(a[x], b[y]) <= crop_max;
            assert(cd <= hamming_spec(a[x], b[y]));
        }
    }
    if cd <= crop_max {
        Some(Candidate { a: i, b: j, phash_distance: d, via_crop: true })
    } else {
        None
    }
}

/// All pairs worth looking at, by brute force: for each file, the files
/// after it whose whole-frame hashes are within `phash_max` bits, or failing
/// that whose closest regions are within `crop_max` bits. A file keeps at
/// most `max_per_file` of them, the closest first and, between equally
/// close ones, the earlier. The pairs come ordered by their first file and
/// then their second.
pub fn candidates(
    phash: &[u64],
    crops: &[[u64; 5]],
    phash_max: u32,
    crop_max: u32,
    max_per_file: usize,
) -> (out: Vec<Candidate>)
    requires
        crops@.len() == phash@.len(),
    ensures
        out@ == candidates_upto(
            phash@,
            crops@,
            phash_max,
            crop_max,
            max_per_file,
            phash@.len() as int,
        ),
{
    let n = phash.len();
    let mut out: Vec<Candidate> = Vec::new();
    let mut i: usize = 0;
    while i < n
        invariant
            n == phash@.len(),
            crops@.len() == n,
            i <= n,
            out@ == candidates_upto(phash@, crops@, phash_max, crop_max, max_per_file, i as int),
        decreases n - i,
    {
        let mut leads: Vec<Candidate> = Vec::new();
        let mut j: usize = i + 1;
        while j < n
            invariant
                n == phash@.len(),
                crops@.len() == n,
                i < n,
                i + 1 <= j <= n,
                leads@ == leads_upto(phash@, crops@, phash_max, crop_max, i as int, j as int),
            decreases n - j,
        {
            match lead_of(phash, crops, phash_max, crop_max, i, j) {
                Some(c) => {
                    leads.push(c);
                },
                None => {},
            }
            j = j + 1;
        }
        let ghost base = out@;
        let ghost l = leads@;
        let mut p: usize = 0;
        while p < leads.len()
            invariant
                l == leads@,
                p <= l.len(),
                out@ == base + closest(l, max_per_file, p as int),
            decreases l.len() - p,
        {
            let c = leads[p];
            let mut count: usize = 0;
            let mut q: usize = 0;
            while q < leads.len()
                invariant
                    l == leads@,
                    p < l.len(),
                    c == l[p as int],
                    q <= l.len(),
                    count == ahead(l, c, q as int),
                    count <= q,
                decreases l.len() - q,
            {
                let x = leads[q];
                if x.phash_distance < c.phash_distance || (x.phash_distance == c.phash_distance
                    && x.b < c.b) {
                    count = count + 1;
                }
                q = q + 1;
            }
            if count < max_per_file {
                out.push(c);
            }
            proof {
                assert(out@ =~= base + closest(l, max_per_file, p + 1));
            }
            p = p + 1;
        }
        i = i + 1;
    }
    out
}

proof fn lemma_leads_are_leads(
    phash: Seq<u64>,
    crops: Seq<[u64; 5]>,
    phash_max: u32,
    crop_max: u32,
    i: int,
    m: int,
    k: int,
)
    requires
        0 <= k < leads_upto(phash, crops, phash_max, crop_max, i, m).len(),
    ensures
        exists|j: int|
            i < j < m && #[trigger] lead(phash, crops, phash_max, crop_max, i, j) == Some(
                leads_upto(phash, crops, phash_max, crop_max, i, m)[k],
            ),
    decreases m - i,
{
    let prev = leads_upto(phash, crops, phash_max, crop_max, i, m - 1);
    if k < prev.len() {
        lemma_leads_are_leads(phash, crops, phash_max, crop_max, i, m - 1, k);
        let j = choose|j: int|
            i < j < m - 1 && #[trigger] lead(phash, crops, phash_max, crop_max, i, j) == Some(
                leads_upto(phash, crops, phash_max, crop_max, i, m - 1)[k],
            );
        assert(leads_upto(phash, crops, phash_max, crop_max, i, m)[k] == prev[k]);
        assert(i < j < m);
    } else {
        assert(lead(phash, crops, phash_max, crop_max, i, m - 1) == Some(
            leads_upto(phash, crops, phash_max, crop_max, i, m)[k],
        ));
    }
}

proof fn lemma_closest_from(leads: Seq<Candidate>, max: usize, m: int, k: int)
    requires
        0 <= m <= leads.len(),
        0 <= k < closest(leads, max, m).len(),
    ensures
        exists|q: int| 0 <= q < m && #[trigger] leads[q] == closest(leads, max, m)[k],
    decreases m,
{
    let prev = closest(leads, max, m - 1);
    if k < prev.len() {
        lemma_closest_from(leads, max, m - 1, k);
        let q = choose|q: int| 0 <= q < m - 1 && #[trigger] leads[q] == prev[k];
        assert(closest(leads, max, m)[k] == prev[k]);
        assert(leads[q] == closest(leads, max, m)[k]);
    } else {
        assert(leads[m - 1] == closest(leads, max, m)[k]);
    }
}

proof fn lemma_candidates_from(
    phash: Seq<u64>,
    crops: Seq<[u64; 5]>,
    phash_max: u32,
    crop_max: u32,
    max: usize,
    n: int,
    k: int,
)
    requires
        0 <= n,
        0 <= k < candidates_upto(phash, crops, phash_max, crop_max, max, n).len(),
    ensures
        exists|i: int, j: int|
            0 <= i < n && i < j < phash.len() && #[trigger] lead(phash, crops, phash_max, crop_max, i, j)
                == Some(candidates_upto(phash, crops, phash_max, crop_max, max, n)[k]),
    decreases n,
{
    let prev = candidates_upto(phash, crops, phash_max, crop_max, max, n - 1);
    let c = candidates_upto(phash, crops, phash_max, crop_max, max, n)[k];
    if k < prev.len() {
        lemma_candidates_from(phash, crops, phash_max, crop_max, max, n - 1, k);
        assert(c == prev[k]);
        let (i, j) = choose|i: int, j: int|
            0 <= i < n - 1 && i < j < phash.len() && #[trigger] lead(phash, crops, phash_max, crop_max, i, j)
                == Some(candidates_upto(phash, crops, phash_max, crop_max, max, n - 1)[k]);
        assert(0 <= i < n && i < j < phash.len() && lead(phash, crops, phash_max, crop_max, i, j) == Some(c));
    } else {
        let l = leads_upto(phash, crops, phash_max, crop_max, n - 1, phash.len() as int);
        lemma_closest_from(l, max, l.len() as int, k - prev.len());
        let q = choose|q: int| 0 <= q < l.len() && #[trigger] l[q] == closest(l, max, l.len() as int)[k - prev.len()];
        assert(c == l[q]);
        lemma_leads_are_leads(phash, crops, phash_max, crop_max, n - 1, phash.len() as int, q);
        let j = choose|j: int|
            n - 1 < j < phash.len() && #[trigger] lead(phash, crops, phash_max, crop_max, n - 1, j) == Some(
                leads_upto(phash, crops, phash_max, crop_max, n - 1, phash.len() as int)[q],
            );
        assert(lead(phash, crops, phash_max, crop_max, n - 1, j) == Some(c));
    }
}

/// Every candidate pairs a file with a later one, and is a lead: its
/// whole-frame hashes are within `phash_max` bits, or, proposed by a crop,
/// its closest regions are within `crop_max` bits.
pub proof fn law_candidates_are_leads(
    phash: Seq<u64>,
    crops: Seq<[u64; 5]>,
    phash_max: u32,
    crop_max: u32,
    max: usize,
    k: int,
)
    requires
        phash.len() <= usize::MAX,
        0 <= k < candidates_upto(phash, crops, phash_max, crop_max, max, phash.len() as int).len(),
    ensures
        ({
            let c = candidates_upto(phash, crops, phash_max, crop_max, max, phash.len() as int)[k];
            &&& c.a < c.b < phash.len()
            &&& c.phash_distance == hamming_spec(phash[c.a as int], phash[c.b as int]) as u32
            &&& !c.via_crop ==> c.phash_distance <= phash_max
            &&& c.via_crop ==> crops_meet(crops[c.a as int]@, crops[c.b as int]@, crop_max)
        }),
{
    let n = phash.len() as int;
    lemma_candidates_from(phash, crops, phash_max, crop_max, max, n, k);
    let c = candidates_upto(phash, crops, phash_max, crop_max, max, n)[k];
    let (i, j) = choose|i: int, j: int|
        0 <= i < n && i < j < phash.len() && #[trigger] lead(phash, crops, phash_max, crop_max, i, j)
            == Some(c);
    assert(c.a as int == i && c.b as int == j);
}

proof fn lemma_leads_increasing(
    phash: Seq<u64>,
    crops: Seq<[u64; 5]>,
    phash_max: u32,
    crop_max: u32,
    i: int,
    m: int,
)
    requires
        0 <= i,
        m <= usize::MAX + 1,
    ensures
        ({
            let l = leads_upto(phash, crops, phash_max, crop_max, i, m);
            &&& forall|p: int, q: int| 0 <= p < q < l.len() ==> l[p].b < l[q].b
            &&& forall|p: int| 0 <= p < l.len() ==> l[p].b < m
        }),
    decreases m - i,
{
    if m > i + 1 {
        lemma_leads_increasing(phash, crops, phash_max, crop_max, i, m - 1);
        let prev = leads_upto(phash, crops, phash_max, crop_max, i, m - 1);
        let l = leads_upto(phash, crops, phash_max, crop_max, i, m);
        match lead(phash, crops, phash_max, crop_max, i, m - 1) {
            Some(c) => {
                assert(c.b == (m - 1) as usize);
                assert(l =~= prev.push(c));
                assert forall|p: int, q: int| 0 <= p < q < l.len() implies l[p].b < l[q].b by {
                    if q == l.len() - 1 {
                        assert(l[p] == prev[p]);
                    } else {
                        assert(l[p] == prev[p] && l[q] == prev[q]);
                    }
                }
                assert forall|p: int| 0 <= p < l.len() implies l[p].b < m by {
                    if p < prev.len() {
                        assert(l[p] == prev[p]);
                    }
                }
            },
            None => {
                assert(l =~= prev);
            },
        }
    }
}

proof fn lemma_ahead_order(l: Seq<Candidate>, x: Candidate, y: Candidate, m: int)
    requires
        before(x, y),
        0 <= m <= l.len(),
    ensures
        ahead(l, x, m) <= ahead(l, y, m),
        (exists|q: int| 0 <= q < m && #[trigger] l[q] == x) ==> ahead(l, x, m) < ahead(l, y, m),
    decreases m,
{
    if m > 0 {
        lemma_ahead_order(l, x, y, m - 1);
        if exists|q: int| 0 <= q < m && #[trigger] l[q] == x {
            let q = choose|q: int| 0 <= q < m && #[trigger] l[q] == x;
            if q < m - 1 {
                assert(exists|r: int| 0 <= r < m - 1 && #[trigger] l[r] == x);
            }
        }
    }
}

proof fn lemma_distinct_below(s: Seq<nat>, max: nat)
    requires
        forall|k: int| 0 <= k < s.len() ==> #[trigger] s[k] < max,
        forall|p: int, q: int| 0 <= p < q < s.len() ==> s[p] != s[q],
    ensures
        s.len() <= max,
    decreases max,
{
    if max > 0 {
        if exists|k: int| 0 <= k < s.len() && s[k] == max - 1 {
            let k = choose|k: int| 0 <= k < s.len() && s[k] == max - 1;
            let t = s.remove(k);
            assert forall|r: int| 0 <= r < t.len() implies #[trigger] t[r] < (max - 1) as nat by {
                if r < k {
                    assert(t[r] == s[r]);
                } else {
                    assert(t[r] == s[r + 1]);
                }
            }
            assert forall|p: int, q: int| 0 <= p < q < t.len() implies t[p] != t[q] by {
                let pp = if p < k { p } else { p + 1 };
                let qq = if q < k { q } else { q + 1 };
                assert(t[p] == s[pp] && t[q] == s[qq]);
            }
            lemma_distinct_below(t, (max - 1) as nat);
        } else {
            assert forall|r: int| 0 <= r < s.len() implies #[trigger] s[r] < (max - 1) as nat by {
                assert(s[r] != max - 1);
            }
            lemma_distinct_below(s, (max - 1) as nat);
        }
    } else {
        if s.len() > 0 {
            assert(s[0] < 0);
        }
    }
}

/// The ranks of the first `m` leads kept.
spec fn kept_ranks(l: Seq<Candidate>, max: usize, m: int) -> Seq<nat>
    decreases m,
{
    if m <= 0 {
        Seq::empty()
    } else {
        kept_ranks(l, max, m - 1) + if ahead(l, l[m - 1], l.len() as int) < max {
            seq![ahead(l, l[m - 1], l.len() as int)]
        } else {
            Seq::empty()
        }
    }
}

proof fn lemma_kept_ranks(l: Seq<Candidate>, max: usize, m: int)
    requires
        0 <= m <= l.len(),
        forall|p: int, q: int| 0 <= p < q < l.len() ==> l[p].b < l[q].b,
    ensures
        kept_ranks(l, max, m).len() == closest(l, max, m).len(),
        forall|k: int| 0 <= k < kept_ranks(l, max, m).len() ==> #[trigger] kept_ranks(l, max, m)[k] < max,
        forall|p: int, q: int|
            0 <= p < q < kept_ranks(l, max, m).len() ==> kept_ranks(l, max, m)[p] != kept_ranks(
                l,
                max,
                m,
            )[q],
        forall|k: int|
            0 <= k < kept_ranks(l, max, m).len() ==> exists|q: int|
                0 <= q < m && #[trigger] kept_ranks(l, max, m)[k] == ahead(l, l[q], l.len() as int),
    decreases m,
{
    if m > 0 {
        lemma_kept_ranks(l, max, m - 1);
        let prev = kept_ranks(l, max, m - 1);
        let cur = kept_ranks(l, max, m);
        let n = l.len() as int;
        let x = l[m - 1];
        if ahead(l, x, n) < max {
            assert forall|p: int, q: int| 0 <= p < q < cur.len() implies cur[p] != cur[q] by {
                if q == cur.len() - 1 && p < prev.len() {
                    let r = choose|r: int| 0 <= r < m - 1 && #[trigger] prev[p] == ahead(l, l[r], n);
                    let y = l[r];
                    assert(y.b < x.b);
                    if before(y, x) {
                        assert(l[r] == y);
                        lemma_ahead_order(l, y, x, n);
                    } else {
                        assert(before(x, y));
                        assert(l[m - 1] == x);
                        lemma_ahead_order(l, x, y, n);
                    }
                } else {
                    assert(cur[p] == prev[p] && cur[q] == prev[q]);
                }
            }
            assert forall|k: int| 0 <= k < cur.len() implies exists|q: int|
                0 <= q < m && #[trigger] cur[k] == ahead(l, l[q], n) by {
                if k < prev.len() {
                    let r = choose|r: int| 0 <= r < m - 1 && #[trigger] prev[k] == ahead(l, l[r], n);
                    assert(cur[k] == ahead(l, l[r], n));
                } else {
                    assert(cur[k] == ahead(l, l[m - 1], n));
                }
            }
        } else {
            assert(cur == prev);
            assert forall|k: int| 0 <= k < cur.len() implies exists|q: int|
                0 <= q < m && #[trigger] cur[k] == ahead(l, l[q], n) by {
                let r = choose|r: int| 0 <= r < m - 1 && #[trigger] prev[k] == ahead(l, l[r], n);
            }
        }
    }
}

/// A file keeps at most `max` leads, against a pathological file dragging
/// in thousands of them.
pub proof fn law_a_file_keeps_at_most_max_leads(
    phash: Seq<u64>,
    crops: Seq<[u64; 5]>,
    phash_max: u32,
    crop_max: u32,
    max: usize,
    i: int,
)
    requires
        phash.len() <= usize::MAX,
        0 <= i < phash.len(),
    ensures
        ({
            let l = leads_upto(phash, crops, phash_max, crop_max, i, phash.len() as int);
            closest(l, max, l.len() as int).len() <= max
        }),
{
    let l = leads_upto(phash, crops, phash_max, crop_max, i, phash.len() as int);
    lemma_leads_increasing(phash, crops, phash_max, crop_max, i, phash.len() as int);
    lemma_kept_ranks(l, max, l.len() as int);
    lemma_distinct_below(kept_ranks(l, max, l.len() as int), max as nat);
}

/// What deciding whether one file was made from another reads about each.
#[derive(Debug, Clone, Default)]
pub struct ShotFacts {
    pub name: String,
    pub container: String,
    /// Where the pixels were read from; `preview` for a raw file.
    pub pixel_source: String,
    pub width: i64,
    pub height: i64,
    pub taken_at: Option<i64>,
    pub camera_model: Option<String>,
    pub software: Option<String>,
    pub derived_from: Option<String>,
    pub dng_original_raw: Option<String>,
}

/// A raw file: a TIFF-family container whose pixels came from its preview.
pub open spec fn shot_is_raw(f: ShotFacts) -> bool {
    f.container@ == "tiff"@ && f.pixel_source@ == "preview"@
}

/// Nothing claims to have made this file from another one: it has camera
/// metadata, names no source, and no editor wrote it. Such a file came off
/// the card.
pub open spec fn from_camera(f: ShotFacts) -> bool {
    f.camera_model is Some && f.derived_from is None && f.dng_original_raw is None
        && !names_editor(f.software)
}

/// Whether one of two files that look alike could have been made from the
/// other. `similar` is whether their similarity reached the general bar;
/// `near_identical` whether it reached the bar for a pair of the same size
/// and format.
///
/// Two raw files are two shutter presses. A resized or converted file is a
/// derivative when it looks alike. A pair of the same size and format is
/// one photograph only when its similarity reaches the stricter bar and it
/// was taken within a second, and never when both came straight off the
/// card under different names: one exposure gets one number.
pub open spec fn plausible(a: ShotFacts, b: ShotFacts, similar: bool, near_identical: bool) -> bool {
    if shot_is_raw(a) && shot_is_raw(b) {
        false
    } else if a.width * a.height != b.width * b.height || a.container@ != b.container@ {
        similar
    } else if from_camera(a) && from_camera(b) && stem_of(a.name@) != stem_of(b.name@) {
        false
    } else {
        let same_moment = match (a.taken_at, b.taken_at) {
            (Some(x), Some(y)) => -1 <= x - y <= 1,
            _ => true,
        };
        same_moment && near_identical
    }
}

/// Whether one of two files could have been made from the other does not
/// depend on which is named first; and a pair that reaches a bar at some
/// similarity reaches it at any higher one, so a higher similarity never
/// makes a plausible derivation implausible.
pub proof fn law_plausibility_is_symmetric_and_grows_with_similarity(
    a: ShotFacts,
    b: ShotFacts,
    similar: bool,
    near_identical: bool,
    more_similar: bool,
    more_near_identical: bool,
)
    requires
        similar ==> more_similar,
        near_identical ==> more_near_identical,
    ensures
        plausible(a, b, similar, near_identical) == plausible(b, a, similar, near_identical),
        plausible(a, b, similar, near_identical) ==> plausible(
            a,
            b,
            more_similar,
            more_near_identical,
        ),
{
}

fn shot_raw(f: &ShotFacts) -> (r: bool)
    ensures
        r == shot_is_raw(*f),
{
    str_is(f.container.as_str(), "tiff") && str_is(f.pixel_source.as_str(), "preview")
}

/// Nothing claims to have made this file from another one.
pub fn straight_from_camera(f: &ShotFacts) -> (r: bool)
    ensures
        r == from_camera(*f),
{
    f.camera_model.is_some() && f.derived_from.is_none() && f.dng_original_raw.is_none()
        && !by_editor(&f.software)
}

fn stem_chars(name: &String) -> (r: Vec<char>)
    ensures
        r@ == stem_of(name@),
{
    let cs = chars_of(name.as_str());
    match crate::text::rfind_char(cs.as_slice(), '.') {
        Some(k) => crate::text::slice_chars(cs.as_slice(), 0, k),
        None => cs,
    }
}

fn chars_same(a: &Vec<char>, b: &Vec<char>) -> (r: bool)
    ensures
        r == (a@ == b@),
{
    if a.len() != b.len() {
        return false;
    }
    let mut i: usize = 0;
    while i < a.len()
        invariant
            a@.len() == b@.len(),
            i <= a@.len(),
            forall|k: int| 0 <= k < i ==> a@[k] == b@[k],
        decreases a@.len() - i,
    {
        if a[i] != b[i] {
            return false;
        }
        i = i + 1;
    }
    assert(a@ =~= b@);
    true
}

/// Whether one of these files could plausibly have been made from the
/// other, given how their similarity compares with the two bars.
pub fn derivation_plausible(a: &ShotFacts, b: &ShotFacts, similar: bool, near_identical: bool) -> (r: bool)
    requires
        a.width * a.height <= i64::MAX,
        a.width * a.height >= i64::MIN,
        b.width * b.height <= i64::MAX,
        b.width * b.height >= i64::MIN,
    ensures
        r == plausible(*a, *b, similar, near_identical),
{
    if shot_raw(a) && shot_raw(b) {
        return false;
    }
    let resized = a.width * a.height != b.width * b.height;
    let reformatted = a.container != b.container;
    if resized || reformatted {
        return similar;
    }
    if straight_from_camera(a) && straight_from_camera(b) && !chars_same(
        &stem_chars(&a.name),
        &stem_chars(&b.name),
    ) {
        return false;
    }
    let same_moment = match (a.taken_at, b.taken_at) {
        (Some(x), Some(y)) => x == y || (x > y && x - 1 == y) || (y > x && y - 1 == x),
        _ => true,
    };
    same_moment && near_identical
}


/// What checking one candidate against its pixels came to.
#[derive(Debug, Clone, Copy, PartialEq, Eq, Structural)]
pub enum Verdict {
    /// One of the two has no structure to compare: any score would be
    /// meaningless.
    Blank,
    /// A thumbnail could not be read.
    ThumbnailMissing,
    /// The similarity did not reach the general bar.
    Dissimilar,
    /// Alike, but not a derivative: two photographs of a series.
    Series,
    /// One photograph.
    Verified,
}

/// What was seen of a candidate's pixels: whether each file's thumbnail
/// could be read and is flat, and how the similarity compares with the two
/// bars. The similarity is looked at only when both thumbnails are there
/// and neither is flat.
#[derive(Debug, Clone, Copy, Default, PartialEq, Eq, Structural)]
pub struct PairLook {
    pub flat_a: bool,
    pub flat_b: bool,
    pub thumbs: bool,
    pub similar: bool,
    pub near_identical: bool,
}

/// The verdict on a candidate between files `a` and `b`: flat thumbnails
/// first, then missing ones, then the similarity, then whether one could
/// have been made from the other.
pub open spec fn verdict_of(a: ShotFacts, b: ShotFacts, look: PairLook) -> Verdict {
    if look.flat_a || look.flat_b {
        Verdict::Blank
    } else if !look.thumbs {
        Verdict::ThumbnailMissing
    } else if !look.similar {
        Verdict::Dissimilar
    } else if !plausible(a, b, look.similar, look.near_identical) {
        Verdict::Series
    } else {
        Verdict::Verified
    }
}

/// The verdict on one candidate, from what was seen of its pixels.
pub fn verdict(a: &ShotFacts, b: &ShotFacts, look: PairLook) -> (r: Verdict)
    requires
        a.width * a.height <= i64::MAX,
        a.width * a.height >= i64::MIN,
        b.width * b.height <= i64::MAX,
        b.width * b.height >= i64::MIN,
    ensures
        r == verdict_of(*a, *b, look),
{
    if look.flat_a || look.flat_b {
        Verdict::Blank
    } else if !look.thumbs {
        Verdict::ThumbnailMissing
    } else if !look.similar {
        Verdict::Dissimilar
    } else if !derivation_plausible(a, b, look.similar, look.near_identical) {
        Verdict::Series
    } else {
        Verdict::Verified
    }
}

/// Only a pair reaching the general bar is ever called one photograph.
pub proof fn law_verified_pairs_look_alike(a: ShotFacts, b: ShotFacts, look: PairLook)
    ensures
        verdict_of(a, b, look) == Verdict::Verified ==> look.similar && look.thumbs && !look.flat_a
            && !look.flat_b,
        verdict_of(a, b, look) == Verdict::Verified && shot_is_raw(a) ==> !shot_is_raw(b),
{
}

} // verus!
