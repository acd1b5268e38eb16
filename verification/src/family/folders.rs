//! Keeping what is left of a burst in one folder.
//!
//! A burst is often the same frames in two places: a working folder and a
//! backup of it. Each frame is its own group of copies and picks its keeper
//! on its own, so the burst can end up scattered. Between byte-identical
//! copies the choice is arbitrary anyway, so it is made in favour of the
//! folder where the rest of the burst already lives.
use vstd::prelude::*;
use crate::sniff::bytes_eq;
use crate::text::{
    lemma_text_less_irreflexive, lemma_text_less_total, lemma_text_less_transitive, text_less,
    text_lt,
};

verus! {

/// One frame of a burst, as the index holds it.
#[derive(Debug, Clone)]
pub struct Frame {
    pub series_id: i64,
    pub file_id: i64,
    /// The folder the file is in.
    pub dir: String,
    pub family_id: i64,
    /// The file its group keeps now.
    pub keeper_file: Option<i64>,
    pub pixel_hash: Option<Vec<u8>>,
}

/// How many of the first `n` frames belong to series `s` and lie in `d`.
pub open spec fn dir_count(frames: Seq<Frame>, s: i64, d: Seq<char>, n: int) -> nat
    decreases n,
{
    if n <= 0 {
        0
    } else {
        dir_count(frames, s, d, n - 1) + if frames[n - 1].series_id == s && frames[n - 1].dir@
            == d {
            1nat
        } else {
            0nat
        }
    }
}

/// `d` is the folder holding most of series `s`; between folders holding
/// as many, the one first by name.
pub open spec fn is_home(frames: Seq<Frame>, s: i64, d: Seq<char>) -> bool {
    let n = frames.len() as int;
    &&& exists|k: int| 0 <= k < n && frames[k].series_id == s && #[trigger] frames[k].dir@ == d
    &&& forall|k: int|
        0 <= k < n && frames[k].series_id == s ==> {
            let c = #[trigger] dir_count(frames, s, frames[k].dir@, n);
            let h = dir_count(frames, s, d, n);
            c <= h && (c == h ==> !text_less(frames[k].dir@, d))
        }
}

/// The pixels the index holds for `file`: those of the last of the first
/// `n` frames that shows it, if any does.
pub open spec fn pixels_of(frames: Seq<Frame>, file: i64, n: int) -> Option<Option<Seq<u8>>>
    decreases n,
{
    if n <= 0 {
        None
    } else if frames[n - 1].file_id == file {
        Some(
            match frames[n - 1].pixel_hash {
                Some(h) => Some(h@),
                None => None,
            },
        )
    } else {
        pixels_of(frames, file, n - 1)
    }
}

/// The frame and the file its group keeps now have the same pixels.
pub open spec fn same_photo(frames: Seq<Frame>, keeper: i64, f: Frame) -> bool {
    match (pixels_of(frames, keeper, frames.len() as int), f.pixel_hash) {
        (Some(Some(a)), Some(b)) => a == b@,
        _ => false,
    }
}

/// The group of `f` should keep `f` instead: `f` lies in its burst's home,
/// the group keeps another file with the same pixels, and neither file was
/// chosen by hand.
pub open spec fn moves_here(frames: Seq<Frame>, manual: Seq<i64>, f: Frame) -> bool {
    &&& is_home(frames, f.series_id, f.dir@)
    &&& f.keeper_file matches Some(k) && k != f.file_id && !manual.contains(k)
        && !manual.contains(f.file_id) && same_photo(frames, k, f)
}

/// The moves the first `n` frames call for, as (group, new keeper), in order.
pub open spec fn moves_upto(frames: Seq<Frame>, manual: Seq<i64>, n: int) -> Seq<(i64, i64)>
    decreases n,
{
    if n <= 0 {
        Seq::empty()
    } else {
        moves_upto(frames, manual, n - 1) + if moves_here(frames, manual, frames[n - 1]) {
            seq![(frames[n - 1].family_id, frames[n - 1].file_id)]
        } else {
            Seq::empty()
        }
    }
}

fn contains_id(ids: &[i64], x: i64) -> (r: bool)
    ensures
        r == ids@.contains(x),
{
    let mut i: usize = 0;
    while i < ids.len()
        invariant
            i <= ids@.len(),
            forall|k: int| 0 <= k < i ==> ids@[k] != x,
        decreases ids@.len() - i,
    {
        if ids[i] == x {
            assert(ids@[i as int] == x);
            return true;
        }
        i = i + 1;
    }
    false
}

/// How many frames share the series and folder of each frame.
fn dir_counts(frames: &[Frame]) -> (c: Vec<usize>)
    ensures
        c@.len() == frames@.len(),
        forall|i: int|
            0 <= i < frames@.len() ==> c@[i] == dir_count(
                frames@,
                frames@[i].series_id,
                frames@[i].dir@,
                frames@.len() as int,
            ),
{
    let n = frames.len();
    let mut c: Vec<usize> = Vec::new();
    let mut i: usize = 0;
    while i < n
        invariant
            n == frames@.len(),
            i <= n,
            c@.len() == i,
            forall|k: int|
                0 <= k < i ==> c@[k] == dir_count(
                    frames@,
                    frames@[k].series_id,
                    frames@[k].dir@,
                    n as int,
                ),
        decreases n - i,
    {
        let s = frames[i].series_id;
        let mut m: usize = 0;
        let mut j: usize = 0;
        while j < n
            invariant
                n == frames@.len(),
                i < n,
                s == frames@[i as int].series_id,
                j <= n,
                m == dir_count(frames@, s, frames@[i as int].dir@, j as int),
                m <= j,
            decreases n - j,
        {
            if frames[j].series_id == s && frames[j].dir == frames[i].dir {
                m = m + 1;
            }
            j = j + 1;
        }
        c.push(m);
        i = i + 1;
    }
    c
}

/// Whether the folder of frame `i` is its burst's home.
fn home_at(frames: &[Frame], counts: &Vec<usize>, i: usize) -> (r: bool)
    requires
        i < frames@.len(),
        counts@.len() == frames@.len(),
        forall|k: int|
            0 <= k < frames@.len() ==> counts@[k] == dir_count(
                frames@,
                frames@[k].series_id,
                frames@[k].dir@,
                frames@.len() as int,
            ),
    ensures
        r == is_home(frames@, frames@[i as int].series_id, frames@[i as int].dir@),
{
    let n = frames.len();
    let s = frames[i].series_id;
    let mut j: usize = 0;
    while j < n
        invariant
            n == frames@.len(),
            i < n,
            s == frames@[i as int].series_id,
            counts@.len() == n,
            forall|k: int|
                0 <= k < n ==> counts@[k] == dir_count(
                    frames@,
                    frames@[k].series_id,
                    frames@[k].dir@,
                    n as int,
                ),
            j <= n,
            forall|k: int|
                0 <= k < j && frames@[k].series_id == s ==> {
                    let c = #[trigger] dir_count(frames@, s, frames@[k].dir@, n as int);
                    let h = dir_count(frames@, s, frames@[i as int].dir@, n as int);
                    c <= h && (c == h ==> !text_less(frames@[k].dir@, frames@[i as int].dir@))
                },
        decreases n - j,
    {
        if frames[j].series_id == s {
            let cj = counts[j];
            let ci = counts[i];
            if cj > ci || (cj == ci && text_lt(&frames[j].dir, &frames[i].dir)) {
                proof {
                    let ghost d = frames@[i as int].dir@;
                    assert(!(0 <= j && frames@[j as int].series_id == s ==> {
                        let c = dir_count(frames@, s, frames@[j as int].dir@, n as int);
                        let h = dir_count(frames@, s, d, n as int);
                        c <= h && (c == h ==> !text_less(frames@[j as int].dir@, d))
                    }));
                }
                return false;
            }
        }
        j = j + 1;
    }
    proof {
        assert(frames@[i as int].dir@ == frames@[i as int].dir@);
    }
    true
}

/// The pixels the index holds for `file`.
fn pixels_for(frames: &[Frame], file: i64) -> (r: Option<&Option<Vec<u8>>>)
    ensures
        match pixels_of(frames@, file, frames@.len() as int) {
            Some(p) => r is Some && p == match *r.unwrap() {
                Some(h) => Some(h@),
                None => None,
            },
            None => r is None,
        },
{
    let mut i: usize = frames.len();
    while i > 0
        invariant
            i <= frames@.len(),
            pixels_of(frames@, file, frames@.len() as int) == pixels_of(frames@, file, i as int),
        decreases i,
    {
        if frames[i - 1].file_id == file {
            return Some(&frames[i - 1].pixel_hash);
        }
        i = i - 1;
    }
    None
}

/// Move each burst's keepers into the folder that holds most of the burst.
///
/// Only ever between copies with the same pixels: a keeper is never swapped
/// for a different photograph, and a group whose keeper or candidate was
/// chosen by hand is left exactly as it was. The result lists, in the order
/// of the frames, each group to change and the file it should keep.
pub fn keeper_moves(frames: &[Frame], manual: &[i64]) -> (moves: Vec<(i64, i64)>)
    ensures
        moves@ == moves_upto(frames@, manual@, frames@.len() as int),
{
    let n = frames.len();
    let counts = dir_counts(frames);
    let mut moves: Vec<(i64, i64)> = Vec::new();
    let mut i: usize = 0;
    while i < n
        invariant
            n == frames@.len(),
            i <= n,
            counts@.len() == n,
            forall|k: int|
                0 <= k < n ==> counts@[k] == dir_count(
                    frames@,
                    frames@[k].series_id,
                    frames@[k].dir@,
                    n as int,
                ),
            moves@ == moves_upto(frames@, manual@, i as int),
        decreases n - i,
    {
        let f = &frames[i];
        let mut take = false;
        if let Some(k) = f.keeper_file {
            if k != f.file_id && !contains_id(manual, k) && !contains_id(manual, f.file_id)
                && home_at(frames, &counts, i) {
                if let (Some(Some(a)), Some(b)) = (pixels_for(frames, k), &f.pixel_hash) {
                    take = bytes_eq(a.as_slice(), b.as_slice());
                }
            }
        }
        if take {
            moves.push((f.family_id, f.file_id));
        }
        proof {
            assert(take == moves_here(frames@, manual@, frames@[i as int]));
        }
        i = i + 1;
    }
    moves
}

/// A keeper moves only onto a file in its burst's home folder with the same
/// pixels as the file kept before, and never away from or onto a file
/// chosen by hand.
pub proof fn law_moves_keep_the_photograph(frames: Seq<Frame>, manual: Seq<i64>, n: int, j: int)
    requires
        0 <= n <= frames.len(),
        0 <= j < moves_upto(frames, manual, n).len(),
    ensures
        exists|i: int|
            #![trigger frames[i]]
            {
                &&& 0 <= i < n
                &&& moves_upto(frames, manual, n)[j] == (frames[i].family_id, frames[i].file_id)
                &&& is_home(frames, frames[i].series_id, frames[i].dir@)
                &&& frames[i].keeper_file matches Some(k) && k != frames[i].file_id
                    && same_photo(frames, k, frames[i]) && !manual.contains(k)
                    && !manual.contains(frames[i].file_id)
            },
    decreases n,
{
    let prev = moves_upto(frames, manual, n - 1);
    if j < prev.len() {
        law_moves_keep_the_photograph(frames, manual, n - 1, j);
        assert(moves_upto(frames, manual, n)[j] == prev[j]);
    } else {
        assert(moves_here(frames, manual, frames[n - 1]));
        assert(moves_upto(frames, manual, n)[j] == (frames[n - 1].family_id, frames[n - 1].file_id));
    }
}

/// Frame `k` sits in a folder that holds more of series `s` than the folder
/// of frame `b`, or as much and comes first by name.
pub open spec fn fuller(frames: Seq<Frame>, s: i64, k: int, b: int) -> bool {
    let n = frames.len() as int;
    let ck = dir_count(frames, s, frames[k].dir@, n);
    let cb = dir_count(frames, s, frames[b].dir@, n);
    ck > cb || (ck == cb && text_less(frames[k].dir@, frames[b].dir@))
}

/// The frame of series `s` among the first `m` whose folder is fullest, or
/// -1 when none of them belongs to `s`.
pub open spec fn fullest_upto(frames: Seq<Frame>, s: i64, m: int) -> int
    decreases m,
{
    if m <= 0 {
        -1
    } else {
        let b = fullest_upto(frames, s, m - 1);
        if frames[m - 1].series_id != s {
            b
        } else if b < 0 || fuller(frames, s, m - 1, b) {
            m - 1
        } else {
            b
        }
    }
}

proof fn lemma_fullest(frames: Seq<Frame>, s: i64, m: int)
    requires
        0 <= m <= frames.len(),
    ensures
        ({
            let b = fullest_upto(frames, s, m);
            let n = frames.len() as int;
            &&& -1 <= b < m
            &&& b >= 0 ==> frames[b].series_id == s
            &&& (b < 0 <==> forall|k: int| 0 <= k < m ==> frames[k].series_id != s)
            &&& b >= 0 ==> forall|k: int|
                0 <= k < m && frames[k].series_id == s ==> !fuller(frames, s, k, b)
        }),
    decreases m,
{
    if m > 0 {
        lemma_fullest(frames, s, m - 1);
        let b = fullest_upto(frames, s, m - 1);
        let n = frames.len() as int;
        if frames[m - 1].series_id == s && b >= 0 && fuller(frames, s, m - 1, b) {
            let d = frames[m - 1].dir@;
            assert forall|k: int| 0 <= k < m && frames[k].series_id == s implies !fuller(
                frames,
                s,
                k,
                m - 1,
            ) by {
                lemma_text_less_irreflexive(d);
                if k < m - 1 {
                    assert(!fuller(frames, s, k, b));
                    let ck = dir_count(frames, s, frames[k].dir@, n);
                    let cb = dir_count(frames, s, frames[b].dir@, n);
                    let cd = dir_count(frames, s, d, n);
                    if ck == cd && text_less(frames[k].dir@, d) {
                        assert(cb == cd);
                        assert(text_less(d, frames[b].dir@));
                        lemma_text_less_transitive(frames[k].dir@, d, frames[b].dir@);
                    }
                }
            }
        } else if frames[m - 1].series_id == s && b >= 0 {
            lemma_text_less_irreflexive(frames[b].dir@);
        } else if frames[m - 1].series_id == s {
            lemma_text_less_irreflexive(frames[m - 1].dir@);
        }
    }
}

/// Every burst has exactly one home: some folder of it is the fullest, and
/// no two folders both are.
pub proof fn law_every_burst_has_one_home(frames: Seq<Frame>, s: i64, d1: Seq<char>, d2: Seq<char>)
    ensures
        (exists|k: int| 0 <= k < frames.len() && frames[k].series_id == s) ==> exists|d: Seq<char>|
            is_home(frames, s, d),
        is_home(frames, s, d1) && is_home(frames, s, d2) ==> d1 == d2,
{
    let n = frames.len() as int;
    lemma_fullest(frames, s, n);
    let b = fullest_upto(frames, s, n);
    if b >= 0 {
        let d = frames[b].dir@;
        assert forall|k: int| 0 <= k < n && frames[k].series_id == s implies {
            let c = #[trigger] dir_count(frames, s, frames[k].dir@, n);
            let h = dir_count(frames, s, d, n);
            c <= h && (c == h ==> !text_less(frames[k].dir@, d))
        } by {
            assert(!fuller(frames, s, k, b));
        }
        assert(is_home(frames, s, d));
    }
    if is_home(frames, s, d1) && is_home(frames, s, d2) {
        let k1 = choose|k: int| 0 <= k < n && frames[k].series_id == s && #[trigger] frames[k].dir@ == d1;
        let k2 = choose|k: int| 0 <= k < n && frames[k].series_id == s && #[trigger] frames[k].dir@ == d2;
        assert(dir_count(frames, s, frames[k1].dir@, n) <= dir_count(frames, s, d2, n));
        assert(dir_count(frames, s, frames[k2].dir@, n) <= dir_count(frames, s, d1, n));
        lemma_text_less_total(d1, d2);
    }
}

} // verus!
