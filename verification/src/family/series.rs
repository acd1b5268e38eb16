//! Series: several shutter presses of one moment.
//!
//! A burst is not waste — every frame is a distinct photograph. Nothing here
//! is ever proposed for removal on its own.
use vstd::prelude::*;
use std::collections::BTreeMap;
use vstd::string::*;
use crate::family::links::ints;
use crate::hash::{hamming, hamming_spec};
use crate::text::{str_is, text_less, text_lt};
use crate::lang::{pick, Lang};

verus! {

#[derive(Debug, Clone, Copy, PartialEq, Eq, Structural)]
pub enum SeriesKind {
    /// Frames seconds apart: a burst, or a few tries at one shot.
    Burst,
    /// Same moment, different exposure: bracketing for HDR.
    Bracket,
    /// Sony's sensor-shift capture. Four frames that merge into one image,
    /// visually identical and ruinous to thin.
    PixelShift,
}

impl SeriesKind {
    /// The word stored in the database for this kind.
    pub open spec fn name(self) -> Seq<char> {
        match self {
            SeriesKind::Burst => "burst"@,
            SeriesKind::Bracket => "bracket"@,
            SeriesKind::PixelShift => "pixel-shift"@,
        }
    }

    /// The kind a stored word names; anything unknown reads as a burst.
    pub open spec fn from_name(s: Seq<char>) -> SeriesKind {
        if s == "pixel-shift"@ {
            SeriesKind::PixelShift
        } else if s == "bracket"@ {
            SeriesKind::Bracket
        } else {
            SeriesKind::Burst
        }
    }

    /// The word stored in the database, back into a kind.
    pub fn parse(s: &str) -> (r: SeriesKind)
        ensures
            r == SeriesKind::from_name(s@),
    {
        if str_is(s, "pixel-shift") {
            SeriesKind::PixelShift
        } else if str_is(s, "bracket") {
            SeriesKind::Bracket
        } else {
            SeriesKind::Burst
        }
    }

    pub fn as_str(self) -> (r: &'static str)
        ensures
            r@ == self.name(),
    {
        match self {
            SeriesKind::Burst => "burst",
            SeriesKind::Bracket => "bracket",
            SeriesKind::PixelShift => "pixel-shift",
        }
    }

    /// What the interface calls this kind, in `lang`.
    pub open spec fn title(self, lang: Lang) -> Seq<char> {
        match self {
            SeriesKind::Burst => pick(lang, "серия"@, "burst"@),
            SeriesKind::Bracket => pick(lang, "похоже на брекетинг"@, "looks like bracketing"@),
            SeriesKind::PixelShift => pick(lang, "похоже на pixel-shift"@, "looks like pixel-shift"@),
        }
    }

    pub fn label(self, lang: Lang) -> (r: &'static str)
        ensures
            r@ == self.title(lang),
    {
        match self {
            SeriesKind::Burst => lang.say("серия", "burst"),
            SeriesKind::Bracket => lang.say("похоже на брекетинг", "looks like bracketing"),
            SeriesKind::PixelShift => lang.say("похоже на pixel-shift", "looks like pixel-shift"),
        }
    }

    /// Why the tool thinks so, in the words of what was actually measured,
    /// in `lang`.
    pub open spec fn reason(self, lang: Lang) -> Seq<char> {
        match self {
            SeriesKind::Burst => pick(
                lang,
                "кадры сняты один за другим"@,
                "the frames were taken one after another"@,
            ),
            SeriesKind::Bracket => pick(
                lang,
                "кадры одного мгновения по-разному пересвечены — так снимают с вилкой экспозиции"@,
                "frames of one moment clip differently, which is how an exposure bracket looks"@,
            ),
            SeriesKind::PixelShift => pick(
                lang,
                "четыре неразличимых RAW за пару секунд — так выглядит съёмка со сдвигом матрицы"@,
                "four indistinguishable raw frames within a couple of seconds, which is how a sensor-shift capture looks"@,
            ),
        }
    }

    pub fn because(self, lang: Lang) -> (r: &'static str)
        ensures
            r@ == self.reason(lang),
    {
        match self {
            SeriesKind::Burst => lang.say(
                "кадры сняты один за другим",
                "the frames were taken one after another",
            ),
            SeriesKind::Bracket => lang.say(
                "кадры одного мгновения по-разному пересвечены — так снимают с вилкой экспозиции",
                "frames of one moment clip differently, which is how an exposure bracket looks",
            ),
            SeriesKind::PixelShift => lang.say(
                "четыре неразличимых RAW за пару секунд — так выглядит съёмка со сдвигом матрицы",
                "four indistinguishable raw frames within a couple of seconds, which is how a sensor-shift capture looks",
            ),
        }
    }

    /// Whether thinning the series is forbidden outright: a pixel-shift set
    /// is one photograph stored as four files.
    pub fn protected(self) -> (r: bool)
        ensures
            r == (self == SeriesKind::PixelShift),
    {
        matches!(self, SeriesKind::PixelShift)
    }
}

/// The word in the database survives the round trip.
pub proof fn law_series_round_trip(k: SeriesKind)
    ensures
        SeriesKind::from_name(k.name()) == k,
{
    reveal_strlit("burst");
    reveal_strlit("bracket");
    reveal_strlit("pixel-shift");
    assert("burst"@.len() == 5);
    assert("bracket"@.len() == 7);
    assert("pixel-shift"@.len() == 11);
}

#[derive(Debug, Default)]
pub struct SeriesReport {
    pub series: usize,
    pub frames: usize,
    pub protected: usize,
    /// Groups of copies whose keeper moved to the folder holding the rest of
    /// its burst.
    pub keepers_settled: u64,
    pub by_kind: BTreeMap<&'static str, usize>,
}

/// Frames further apart than this belong to different moments.
pub const DEFAULT_GAP_SECS: i64 = 10;
/// A sequence needs at least this many frames to be worth calling a series.
pub const MIN_MEMBERS: usize = 2;
/// Frames must still look like each other; a gap in time is not enough.
pub const MAX_PHASH_DISTANCE: u32 = 18;

/// What grouping frames into series reads about one file.
#[derive(Debug, Clone, Default)]
pub struct FrameFacts {
    pub id: i64,
    pub taken_at: Option<i64>,
    pub camera_model: Option<String>,
    pub phash: u64,
}

/// A run of frames of one moment: positions into the files, in shooting order.
#[derive(Debug, Clone)]
pub struct Run {
    pub started_at: Option<i64>,
    pub camera: Option<String>,
    pub members: Vec<usize>,
}

/// A real frame: a shutter press with a time and a camera behind it.
pub open spec fn is_frame(f: FrameFacts) -> bool {
    f.taken_at is Some && f.camera_model is Some
}

/// A camera name that may be missing, by its characters.
pub open spec fn camera_text(f: FrameFacts) -> Option<Seq<char>> {
    match f.camera_model {
        Some(c) => Some(c@),
        None => None,
    }
}

/// `a` sorts before `b` by camera, then time, then id.
pub open spec fn frame_less(a: FrameFacts, b: FrameFacts) -> bool {
    let (ca, cb) = (camera_text(a), camera_text(b));
    if ca != cb {
        match (ca, cb) {
            (None, _) => true,
            (Some(_), None) => false,
            (Some(x), Some(y)) => text_less(x, y),
        }
    } else if a.taken_at != b.taken_at {
        match (a.taken_at, b.taken_at) {
            (None, _) => true,
            (Some(_), None) => false,
            (Some(x), Some(y)) => x < y,
        }
    } else {
        a.id < b.id
    }
}

/// Where frame `x` goes among frames already in order: after every one that
/// does not sort after it.
pub open spec fn frame_slot(files: Seq<FrameFacts>, s: Seq<int>, x: int, j: int) -> int
    decreases s.len() - j,
{
    if j >= s.len() || j < 0 {
        s.len() as int
    } else if frame_less(files[x], files[s[j]]) {
        j
    } else {
        frame_slot(files, s, x, j + 1)
    }
}

/// The real frames among the first `n` files, sorted by camera, time and id,
/// equal keys keeping their order.
pub open spec fn frame_order(files: Seq<FrameFacts>, n: int) -> Seq<int>
    decreases n,
{
    if n <= 0 {
        Seq::empty()
    } else {
        let rest = frame_order(files, n - 1);
        if is_frame(files[n - 1]) {
            rest.insert(frame_slot(files, rest, n - 1, 0), n - 1)
        } else {
            rest
        }
    }
}

/// Frame `f` continues a run whose last frame is `prev`: the same camera,
/// within the gap, and still looking alike.
pub open spec fn continues(prev: FrameFacts, f: FrameFacts, gap: i64) -> bool {
    camera_text(prev) == camera_text(f) && match (prev.taken_at, f.taken_at) {
        (Some(a), Some(b)) => -gap <= b - a <= gap,
        _ => false,
    } && hamming_spec(prev.phash, f.phash) <= MAX_PHASH_DISTANCE
}

/// The runs of at least two frames, and the run in progress, after the first
/// `k` frames of `order`.
pub open spec fn runs_upto(files: Seq<FrameFacts>, order: Seq<int>, gap: i64, k: int) -> (Seq<Seq<int>>, Seq<int>)
    decreases k,
{
    if k <= 0 {
        (Seq::empty(), Seq::empty())
    } else {
        let (done, run) = runs_upto(files, order, gap, k - 1);
        let i = order[k - 1];
        if run.len() > 0 && continues(files[run.last()], files[i], gap) {
            (done, run.push(i))
        } else {
            (if run.len() >= MIN_MEMBERS { done.push(run) } else { done }, seq![i])
        }
    }
}

/// Every run of at least two frames, in shooting order of the sort.
pub open spec fn all_runs(files: Seq<FrameFacts>, gap: i64) -> Seq<Seq<int>> {
    let order = frame_order(files, files.len() as int);
    let (done, run) = runs_upto(files, order, gap, order.len() as int);
    if run.len() >= MIN_MEMBERS {
        done.push(run)
    } else {
        done
    }
}

/// The earliest time among a run's frames.
pub open spec fn earliest(files: Seq<FrameFacts>, run: Seq<int>, k: int) -> Option<i64>
    decreases k,
{
    if k <= 0 {
        None
    } else {
        let e = earliest(files, run, k - 1);
        match (e, files[run[k - 1]].taken_at) {
            (None, t) => t,
            (Some(a), Some(b)) => Some(if b < a { b } else { a }),
            (Some(a), None) => Some(a),
        }
    }
}

/// Where run `x` goes among runs already in order of their start: after
/// every one that started no later.
pub open spec fn run_slot(files: Seq<FrameFacts>, s: Seq<Seq<int>>, x: Seq<int>, j: int) -> int
    decreases s.len() - j,
{
    if j >= s.len() || j < 0 {
        s.len() as int
    } else if start_less(earliest(files, x, x.len() as int), earliest(files, s[j], s[j].len() as int)) {
        j
    } else {
        run_slot(files, s, x, j + 1)
    }
}

/// `a` is before `b`, no start coming before every start.
pub open spec fn start_less(a: Option<i64>, b: Option<i64>) -> bool {
    match (a, b) {
        (None, Some(_)) => true,
        (Some(x), Some(y)) => x < y,
        _ => false,
    }
}

/// The runs sorted by their start, equal starts keeping their order.
pub open spec fn runs_by_start(files: Seq<FrameFacts>, s: Seq<Seq<int>>) -> Seq<Seq<int>>
    decreases s.len(),
{
    if s.len() == 0 {
        s
    } else {
        let rest = runs_by_start(files, s.drop_last());
        rest.insert(run_slot(files, rest, s.last(), 0), s.last())
    }
}

/// The times of neighbouring frames of one camera, in sorted order, can be
/// subtracted without overflow.
pub open spec fn gaps_comparable(files: Seq<FrameFacts>) -> bool {
    let o = frame_order(files, files.len() as int);
    forall|k: int|
        0 < k < o.len() && camera_text(files[o[k - 1]]) == camera_text(#[trigger] files[o[k]]) ==> i64::MIN
            < files[o[k]].taken_at.unwrap() - files[o[k - 1]].taken_at.unwrap() <= i64::MAX
}

/// [`Run`] with its texts as characters and its members as integers.
pub struct RunView {
    pub started_at: Option<i64>,
    pub camera: Option<Seq<char>>,
    pub members: Seq<int>,
}

impl View for Run {
    type V = RunView;

    open spec fn view(&self) -> RunView {
        RunView {
            started_at: self.started_at,
            camera: match self.camera {
                Some(c) => Some(c@),
                None => None,
            },
            members: ints(self.members@),
        }
    }
}

/// The run `r` as the library reports it.
pub open spec fn run_view(files: Seq<FrameFacts>, r: Seq<int>) -> RunView {
    RunView { started_at: earliest(files, r, r.len() as int), camera: camera_text(files[r[0]]), members: r }
}

/// Runs by their views.
pub open spec fn run_views(s: Seq<Run>) -> Seq<RunView> {
    s.map_values(|r: Run| r@)
}

/// Member lists as integers.
pub open spec fn run_lists(s: Seq<Vec<usize>>) -> Seq<Seq<int>> {
    s.map_values(|v: Vec<usize>| ints(v@))
}

fn camera_eq(a: &FrameFacts, b: &FrameFacts) -> (r: bool)
    ensures
        r == (camera_text(*a) == camera_text(*b)),
{
    match (&a.camera_model, &b.camera_model) {
        (Some(x), Some(y)) => *x == *y,
        (None, None) => true,
        _ => false,
    }
}

fn frame_lt(a: &FrameFacts, b: &FrameFacts) -> (r: bool)
    ensures
        r == frame_less(*a, *b),
{
    if !camera_eq(a, b) {
        return match (&a.camera_model, &b.camera_model) {
            (None, _) => true,
            (Some(_), None) => false,
            (Some(x), Some(y)) => text_lt(x, y),
        };
    }
    if a.taken_at != b.taken_at {
        return match (a.taken_at, b.taken_at) {
            (None, _) => true,
            (Some(_), None) => false,
            (Some(x), Some(y)) => x < y,
        };
    }
    a.id < b.id
}

fn sorted_frames(files: &[FrameFacts]) -> (o: Vec<usize>)
    ensures
        ints(o@) == frame_order(files@, files@.len() as int),
        forall|k: int| 0 <= k < o@.len() ==> (#[trigger] o@[k]) < files@.len(),
{
    let n = files.len();
    let mut o: Vec<usize> = Vec::new();
    let mut i: usize = 0;
    while i < n
        invariant
            n == files@.len(),
            i <= n,
            ints(o@) == frame_order(files@, i as int),
            forall|k: int| 0 <= k < o@.len() ==> (#[trigger] o@[k]) < i,
        decreases n - i,
    {
        let f = &files[i];
        if f.taken_at.is_some() && f.camera_model.is_some() {
            let ghost sorted = ints(o@);
            let mut j: usize = 0;
            while j < o.len() && !frame_lt(f, &files[o[j]])
                invariant
                    n == files@.len(),
                    i < n,
                    j <= o@.len(),
                    sorted == ints(o@),
                    *f == files@[i as int],
                    forall|k: int| 0 <= k < o@.len() ==> (#[trigger] o@[k]) < i,
                    frame_slot(files@, sorted, i as int, 0) == frame_slot(files@, sorted, i as int, j as int),
                decreases o@.len() - j,
            {
                j = j + 1;
            }
            let ghost ob = o@;
            o.insert(j, i);
            proof {
                assert(ints(o@) =~= sorted.insert(j as int, i as int));
                assert forall|k: int| 0 <= k < o@.len() implies (#[trigger] o@[k]) < i + 1 by {
                    if k < j {
                        assert(o@[k] == ob[k]);
                    } else if k > j {
                        assert(o@[k] == ob[k - 1]);
                    }
                }
            }
        }
        i = i + 1;
    }
    o
}

fn earliest_of(files: &[FrameFacts], run: &Vec<usize>) -> (e: Option<i64>)
    requires
        forall|k: int| 0 <= k < run@.len() ==> (#[trigger] run@[k]) < files@.len(),
    ensures
        e == earliest(files@, ints(run@), run@.len() as int),
{
    let mut e: Option<i64> = None;
    let mut k: usize = 0;
    while k < run.len()
        invariant
            k <= run@.len(),
            forall|q: int| 0 <= q < run@.len() ==> (#[trigger] run@[q]) < files@.len(),
            e == earliest(files@, ints(run@), k as int),
        decreases run@.len() - k,
    {
        let t = files[run[k]].taken_at;
        e = match (e, t) {
            (None, t) => t,
            (Some(a), Some(b)) => Some(if b < a { b } else { a }),
            (Some(a), None) => Some(a),
        };
        k = k + 1;
    }
    e
}

/// Group frames into runs of one moment: frames of one camera, each within
/// `gap_secs` of the one before and still looking like it. Only real frames
/// take part, sorted by camera, time and id; a run needs two frames; runs
/// come in order of their start.
pub fn series_runs(files: &[FrameFacts], gap_secs: i64) -> (runs: Vec<Run>)
    requires
        gap_secs >= 0,
        gaps_comparable(files@),
    ensures
        run_views(runs@) == runs_by_start(files@, all_runs(files@, gap_secs)).map_values(
            |r: Seq<int>| run_view(files@, r),
        ),
{
    let order = sorted_frames(files);
    let ghost ov = ints(order@);
    let mut done: Vec<Vec<usize>> = Vec::new();
    let mut run: Vec<usize> = Vec::new();
    let mut k: usize = 0;
    while k < order.len()
        invariant
            ov == ints(order@),
            ov == frame_order(files@, files@.len() as int),
            forall|q: int| 0 <= q < order@.len() ==> (#[trigger] order@[q]) < files@.len(),
            gaps_comparable(files@),
            gap_secs >= 0,
            k <= order@.len(),
            (run_lists(done@), ints(run@)) == runs_upto(files@, ov, gap_secs, k as int),
            run@.len() > 0 ==> k > 0 && run@[run@.len() - 1] == order@[k - 1],
            forall|q: int| 0 <= q < run@.len() ==> (#[trigger] run@[q]) < files@.len(),
            forall|r: int, q: int|
                0 <= r < done@.len() && 0 <= q < done@[r]@.len() ==> (#[trigger] done@[r]@[q]) < files@.len(),
            forall|r: int| 0 <= r < done@.len() ==> (#[trigger] done@[r]@.len()) >= 2,
        decreases order@.len() - k,
    {
        let i = order[k];
        let f = &files[i];
        let mut joins = false;
        if run.len() > 0 {
            let prev = &files[run[run.len() - 1]];
            if camera_eq(prev, f) {
                match (prev.taken_at, f.taken_at) {
                    (Some(a), Some(b)) => {
                        proof {
                            assert(ov[k as int] == i as int);
                            assert(ov[k - 1] == run@[run@.len() - 1] as int);
                            assert(0 < k < ov.len() && camera_text(files@[ov[k - 1]]) == camera_text(files@[ov[k as int]]));
                        }
                        let d = b - a;
                        if -gap_secs <= d && d <= gap_secs {
                            joins = hamming(prev.phash, f.phash) <= MAX_PHASH_DISTANCE;
                        }
                    },
                    _ => {},
                }
            }
        }
        let ghost before_done = run_lists(done@);
        let ghost before_run = ints(run@);
        if joins {
            run.push(i);
            assert(ints(run@) =~= before_run.push(i as int));
        } else {
            if run.len() >= MIN_MEMBERS {
                let finished = run;
                done.push(finished);
                assert(run_lists(done@) =~= before_done.push(before_run));
            }
            run = Vec::new();
            run.push(i);
            assert(ints(run@) =~= seq![i as int]);
        }
        k = k + 1;
    }
    if run.len() >= MIN_MEMBERS {
        let ghost before_done = run_lists(done@);
        let ghost before_run = ints(run@);
        done.push(run);
        assert(run_lists(done@) =~= before_done.push(before_run));
    }
    assert(run_lists(done@) == all_runs(files@, gap_secs));
    // Runs in order of their start, equal starts keeping their order.
    let ghost all = run_lists(done@);
    let mut rest = done;
    let mut sorted: Vec<Vec<usize>> = Vec::new();
    let mut starts: Vec<Option<i64>> = Vec::new();
    let ghost mut taken: int = 0;
    while rest.len() > 0
        invariant
            0 <= taken <= all.len(),
            run_lists(rest@) == all.skip(taken),
            run_lists(sorted@) == runs_by_start(files@, all.take(taken)),
            starts@.len() == sorted@.len(),
            forall|q: int| 0 <= q < sorted@.len() ==> #[trigger] starts@[q] == earliest(files@, run_lists(sorted@)[q], run_lists(sorted@)[q].len() as int),
            forall|r: int, q: int|
                0 <= r < rest@.len() && 0 <= q < rest@[r]@.len() ==> (#[trigger] rest@[r]@[q]) < files@.len(),
            forall|r: int, q: int|
                0 <= r < sorted@.len() && 0 <= q < sorted@[r]@.len() ==> (#[trigger] sorted@[r]@[q]) < files@.len(),
            forall|r: int| 0 <= r < rest@.len() ==> (#[trigger] rest@[r]@.len()) >= 2,
            forall|r: int| 0 <= r < sorted@.len() ==> (#[trigger] sorted@[r]@.len()) >= 2,
        decreases rest@.len(),
    {
        let ghost rv = rest@;
        proof {
            assert(run_lists(rv).len() == rv.len());
            assert(run_lists(rv)[0] == all.skip(taken)[0]);
        }
        let x = rest.remove(0);
        let ghost xs = ints(x@);
        proof {
            assert(xs == all[taken]);
            assert(all.take(taken + 1).drop_last() =~= all.take(taken));
            assert(all.take(taken + 1).last() == all[taken]);
            assert forall|q: int| 0 <= q < rest@.len() implies #[trigger] run_lists(rest@)[q] == all.skip(taken + 1)[q] by {
                assert(rest@[q] == rv[q + 1]);
                assert(run_lists(rv)[q + 1] == all.skip(taken)[q + 1]);
            }
            assert(run_lists(rest@) =~= all.skip(taken + 1));
            assert forall|q: int| 0 <= q < x@.len() implies (#[trigger] x@[q]) < files@.len() by {
                assert(x@[q] == rv[0]@[q]);
            }
            assert(x@.len() >= 2) by {
                assert(x@.len() == rv[0]@.len());
            }
        }
        let sx = earliest_of(files, &x);
        let ghost sv = run_lists(sorted@);
        let mut j: usize = 0;
        while j < sorted.len() && !start_lt(sx, starts[j])
            invariant
                j <= sorted@.len(),
                starts@.len() == sorted@.len(),
                sv == run_lists(sorted@),
                sx == earliest(files@, xs, xs.len() as int),
                forall|q: int| 0 <= q < sorted@.len() ==> #[trigger] starts@[q] == earliest(files@, sv[q], sv[q].len() as int),
                run_slot(files@, sv, xs, 0) == run_slot(files@, sv, xs, j as int),
            decreases sorted@.len() - j,
        {
            j = j + 1;
        }
        let ghost sb = sorted@;
        let ghost stb = starts@;
        sorted.insert(j, x);
        starts.insert(j, sx);
        proof {
            assert(run_lists(sorted@) =~= sv.insert(j as int, xs));
            assert forall|q: int| 0 <= q < sorted@.len() implies #[trigger] starts@[q] == earliest(files@, run_lists(sorted@)[q], run_lists(sorted@)[q].len() as int) by {
                if q < j {
                    assert(starts@[q] == stb[q]);
                    assert(run_lists(sorted@)[q] == sv[q]);
                } else if q > j {
                    assert(starts@[q] == stb[q - 1]);
                    assert(run_lists(sorted@)[q] == sv[q - 1]);
                }
            }
            assert forall|r: int, q: int|
                0 <= r < sorted@.len() && 0 <= q < sorted@[r]@.len() implies (#[trigger] sorted@[r]@[q]) < files@.len() by {
                if r < j {
                    assert(sorted@[r] == sb[r]);
                } else if r > j {
                    assert(sorted@[r] == sb[r - 1]);
                }
            }
            assert forall|r: int| 0 <= r < sorted@.len() implies (#[trigger] sorted@[r]@.len()) >= 2 by {
                if r < j {
                    assert(sorted@[r] == sb[r]);
                } else if r > j {
                    assert(sorted@[r] == sb[r - 1]);
                }
            }
            taken = taken + 1;
        }
    }
    assert(all.take(all.len() as int) =~= all);
    let ghost target = runs_by_start(files@, all).map_values(|r: Seq<int>| run_view(files@, r));
    let mut out: Vec<Run> = Vec::new();
    let mut q: usize = 0;
    while q < sorted.len()
        invariant
            q <= sorted@.len(),
            starts@.len() == sorted@.len(),
            run_lists(sorted@) == runs_by_start(files@, all),
            target == runs_by_start(files@, all).map_values(|r: Seq<int>| run_view(files@, r)),
            forall|p: int| 0 <= p < sorted@.len() ==> #[trigger] starts@[p] == earliest(files@, run_lists(sorted@)[p], run_lists(sorted@)[p].len() as int),
            forall|r: int, p: int|
                0 <= r < sorted@.len() && 0 <= p < sorted@[r]@.len() ==> (#[trigger] sorted@[r]@[p]) < files@.len(),
            forall|r: int| 0 <= r < sorted@.len() ==> (#[trigger] sorted@[r]@.len()) >= 2,
            run_views(out@) == target.take(q as int),
        decreases sorted@.len() - q,
    {
        let members = sorted[q].clone();
        proof {
            assert(members@ == sorted@[q as int]@);
            assert(sorted@[q as int]@.len() >= 2);
        }
        let camera = match &files[members[0]].camera_model {
            Some(c) => Some(c.clone()),
            None => None,
        };
        let ghost before = run_views(out@);
        out.push(Run { started_at: starts[q], camera, members });
        proof {
            assert(run_lists(sorted@)[q as int] == ints(sorted@[q as int]@));
            assert(run_views(out@) =~= before.push(target[q as int]));
            assert(target.take(q + 1) =~= target.take(q as int).push(target[q as int]));
        }
        q = q + 1;
    }
    assert(target.take(sorted@.len() as int) =~= target);
    out
}

fn start_lt(a: Option<i64>, b: Option<i64>) -> (r: bool)
    ensures
        r == start_less(a, b),
{
    match (a, b) {
        (None, Some(_)) => true,
        (Some(x), Some(y)) => x < y,
        _ => false,
    }
}

/// Each frame of `r` continues the one before it.
pub open spec fn chained(files: Seq<FrameFacts>, r: Seq<int>, gap: i64) -> bool {
    forall|k: int| 0 < k < r.len() ==> continues(files[r[k - 1]], #[trigger] files[r[k]], gap)
}

proof fn lemma_runs_upto_chained(files: Seq<FrameFacts>, order: Seq<int>, gap: i64, k: int)
    requires
        0 <= k <= order.len(),
    ensures
        ({
            let (done, run) = runs_upto(files, order, gap, k);
            &&& chained(files, run, gap)
            &&& forall|d: int| 0 <= d < done.len() ==> chained(files, #[trigger] done[d], gap) && done[d].len() >= 2
        }),
    decreases k,
{
    if k > 0 {
        lemma_runs_upto_chained(files, order, gap, k - 1);
        let (done, run) = runs_upto(files, order, gap, k - 1);
        let i = order[k - 1];
        if run.len() > 0 && continues(files[run.last()], files[i], gap) {
            let r2 = run.push(i);
            assert forall|q: int| 0 < q < r2.len() implies continues(files[r2[q - 1]], #[trigger] files[r2[q]], gap) by {
                if q < run.len() {
                    assert(r2[q - 1] == run[q - 1] && r2[q] == run[q]);
                }
            }
        } else {
            let d2 = if run.len() >= MIN_MEMBERS { done.push(run) } else { done };
            assert forall|d: int| 0 <= d < d2.len() implies chained(files, #[trigger] d2[d], gap) && d2[d].len() >= 2 by {
                if d < done.len() {
                    assert(d2[d] == done[d]);
                }
            }
        }
    }
}

proof fn lemma_run_slot_bounds(files: Seq<FrameFacts>, s: Seq<Seq<int>>, x: Seq<int>, j: int)
    requires
        0 <= j <= s.len(),
    ensures
        j <= run_slot(files, s, x, j) <= s.len(),
    decreases s.len() - j,
{
    if j < s.len() && !start_less(earliest(files, x, x.len() as int), earliest(files, s[j], s[j].len() as int)) {
        lemma_run_slot_bounds(files, s, x, j + 1);
    }
}

proof fn lemma_runs_by_start_members(files: Seq<FrameFacts>, s: Seq<Seq<int>>)
    ensures
        runs_by_start(files, s).len() == s.len(),
        forall|y: Seq<int>| runs_by_start(files, s).contains(y) ==> s.contains(y),
    decreases s.len(),
{
    if s.len() > 0 {
        let rest = runs_by_start(files, s.drop_last());
        lemma_runs_by_start_members(files, s.drop_last());
        let x = s.last();
        lemma_run_slot_bounds(files, rest, x, 0);
        let j = run_slot(files, rest, x, 0);
        rest.insert_ensures(j, x);
        let t = rest.insert(j, x);
        assert forall|y: Seq<int>| t.contains(y) implies s.contains(y) by {
            let i = choose|i: int| 0 <= i < t.len() && t[i] == y;
            if i == j {
                assert(s[s.len() - 1] == y);
            } else {
                let w = if i < j { i } else { i - 1 };
                assert(rest[w] == y);
                assert(rest.contains(y));
                assert(s.drop_last().contains(y));
                let v = choose|v: int| 0 <= v < s.drop_last().len() && s.drop_last()[v] == y;
                assert(s[v] == y);
            }
        }
    }
}

proof fn lemma_chain_camera(files: Seq<FrameFacts>, r: Seq<int>, gap: i64, k: int)
    requires
        chained(files, r, gap),
        0 <= k < r.len(),
    ensures
        camera_text(files[r[k]]) == camera_text(files[r[0]]),
    decreases k,
{
    if k > 0 {
        lemma_chain_camera(files, r, gap, k - 1);
        assert(continues(files[r[k - 1]], files[r[k]], gap));
    }
}

/// A series never mixes cameras, never holds fewer than two frames, and each
/// of its frames is within the gap of the one before and still looks like it.
pub proof fn law_series_are_single_camera_runs(files: Seq<FrameFacts>, gap: i64, r: Seq<int>)
    requires
        runs_by_start(files, all_runs(files, gap)).contains(r),
    ensures
        r.len() >= 2,
        chained(files, r, gap),
        forall|k: int| 0 <= k < r.len() ==> camera_text(#[trigger] files[r[k]]) == camera_text(files[r[0]]),
{
    let order = frame_order(files, files.len() as int);
    lemma_runs_upto_chained(files, order, gap, order.len() as int);
    lemma_runs_by_start_members(files, all_runs(files, gap));
    let (done, run) = runs_upto(files, order, gap, order.len() as int);
    let all = all_runs(files, gap);
    assert(all.contains(r));
    let w = choose|w: int| 0 <= w < all.len() && all[w] == r;
    if w < done.len() {
        assert(all[w] == done[w]);
    }
    assert forall|k: int| 0 <= k < r.len() implies camera_text(#[trigger] files[r[k]]) == camera_text(files[r[0]]) by {
        lemma_chain_camera(files, r, gap, k);
    }
}


/// No run holds a file twice, and no two runs share a file.
pub open spec fn disjoint_runs(s: Seq<Seq<int>>) -> bool {
    forall|a: int, b: int, k: int, l: int|
        0 <= a < s.len() && 0 <= b < s.len() && 0 <= k < s[a].len() && 0 <= l < s[b].len() && (a
            != b || k != l) ==> #[trigger] s[a][k] != #[trigger] s[b][l]
}

/// Every file of every run is one of `pool`.
pub open spec fn runs_within(s: Seq<Seq<int>>, pool: Seq<int>) -> bool {
    forall|a: int, k: int| 0 <= a < s.len() && 0 <= k < s[a].len() ==> pool.contains(#[trigger] s[a][k])
}

proof fn lemma_frame_slot_bounds(files: Seq<FrameFacts>, s: Seq<int>, x: int, j: int)
    requires
        0 <= j <= s.len(),
    ensures
        j <= frame_slot(files, s, x, j) <= s.len(),
    decreases s.len() - j,
{
    if j < s.len() && !frame_less(files[x], files[s[j]]) {
        lemma_frame_slot_bounds(files, s, x, j + 1);
    }
}

proof fn lemma_frame_order(files: Seq<FrameFacts>, n: int)
    requires
        0 <= n <= files.len(),
    ensures
        frame_order(files, n).no_duplicates(),
        forall|p: int|
            0 <= p < frame_order(files, n).len() ==> 0 <= #[trigger] frame_order(files, n)[p] < n
                && is_frame(files[frame_order(files, n)[p]]),
    decreases n,
{
    if n > 0 {
        lemma_frame_order(files, n - 1);
        let rest = frame_order(files, n - 1);
        if is_frame(files[n - 1]) {
            let j = frame_slot(files, rest, n - 1, 0);
            lemma_frame_slot_bounds(files, rest, n - 1, 0);
            rest.insert_ensures(j, n - 1);
            let o = rest.insert(j, n - 1);
            assert(o == frame_order(files, n));
            assert forall|p: int| 0 <= p < o.len() implies 0 <= #[trigger] o[p] < n && is_frame(
                files[o[p]],
            ) by {
                if p < j {
                    assert(o[p] == rest[p]);
                } else if p > j {
                    assert(o[p] == rest[p - 1]);
                }
            }
            assert forall|p: int, q: int| 0 <= p < o.len() && 0 <= q < o.len() && p != q implies o[p]
                != o[q] by {
                let pp = if p < j { p } else { p - 1 };
                let qq = if q < j { q } else { q - 1 };
                if p != j {
                    assert(o[p] == rest[pp]);
                }
                if q != j {
                    assert(o[q] == rest[qq]);
                }
            }
        }
    }
}

proof fn lemma_runs_upto_disjoint(files: Seq<FrameFacts>, order: Seq<int>, gap: i64, k: int)
    requires
        order.no_duplicates(),
        0 <= k <= order.len(),
    ensures
        ({
            let (done, run) = runs_upto(files, order, gap, k);
            &&& disjoint_runs(done.push(run))
            &&& runs_within(done.push(run), order.take(k))
        }),
    decreases k,
{
    if k > 0 {
        lemma_runs_upto_disjoint(files, order, gap, k - 1);
        let (done, run) = runs_upto(files, order, gap, k - 1);
        let s = done.push(run);
        let i = order[k - 1];
        let pool = order.take(k - 1);
        let pool2 = order.take(k);
        assert(pool2 =~= pool.push(i));
        // The new frame is in none of the runs so far.
        assert forall|a: int, q: int| 0 <= a < s.len() && 0 <= q < s[a].len() implies #[trigger] s[a][q]
            != i by {
            assert(pool.contains(s[a][q]));
            let p = choose|p: int| 0 <= p < pool.len() && pool[p] == s[a][q];
            assert(order[p] == s[a][q]);
        }
        assert forall|a: int, q: int| 0 <= a < s.len() && 0 <= q < s[a].len() implies pool2.contains(
            #[trigger] s[a][q],
        ) by {
            let p = choose|p: int| 0 <= p < pool.len() && pool[p] == s[a][q];
            assert(pool2[p] == s[a][q]);
        }
        assert(pool2[k - 1] == i);
        let (done2, run2) = runs_upto(files, order, gap, k);
        let t = done2.push(run2);
        if run.len() > 0 && continues(files[run.last()], files[i], gap) {
            assert(done2 == done && run2 == run.push(i));
            assert forall|a: int, q: int| 0 <= a < t.len() && 0 <= q < t[a].len() implies #[trigger] t[a][q]
                == if a == t.len() - 1 && q == run.len() {
                i
            } else {
                s[a][q]
            } by {}
            assert forall|a: int, b: int, q: int, l: int|
                0 <= a < t.len() && 0 <= b < t.len() && 0 <= q < t[a].len() && 0 <= l < t[b].len() && (a
                    != b || q != l) implies #[trigger] t[a][q] != #[trigger] t[b][l] by {
                let ta = if a == t.len() - 1 && q == run.len() { i } else { s[a][q] };
                let tb = if b == t.len() - 1 && l == run.len() { i } else { s[b][l] };
                assert(t[a][q] == ta);
                assert(t[b][l] == tb);
            }
            assert forall|a: int, q: int| 0 <= a < t.len() && 0 <= q < t[a].len() implies pool2.contains(
                #[trigger] t[a][q],
            ) by {
                if !(a == t.len() - 1 && q == run.len()) {
                    assert(t[a][q] == s[a][q]);
                }
            }
        } else {
            assert(run2 == seq![i]);
            if run.len() >= MIN_MEMBERS {
                assert(done2 == s);
                assert forall|a: int, q: int| 0 <= a < t.len() && 0 <= q < t[a].len() implies #[trigger] t[a][q]
                    == if a == t.len() - 1 {
                    i
                } else {
                    s[a][q]
                } by {}
            } else {
                assert(done2 == done);
                assert forall|a: int, q: int| 0 <= a < t.len() && 0 <= q < t[a].len() implies #[trigger] t[a][q]
                    == if a == t.len() - 1 {
                    i
                } else {
                    s[a][q]
                } by {}
            }
            assert forall|a: int, b: int, q: int, l: int|
                0 <= a < t.len() && 0 <= b < t.len() && 0 <= q < t[a].len() && 0 <= l < t[b].len() && (a
                    != b || q != l) implies #[trigger] t[a][q] != #[trigger] t[b][l] by {
                let ta = if a == t.len() - 1 { i } else { s[a][q] };
                let tb = if b == t.len() - 1 { i } else { s[b][l] };
                assert(t[a][q] == ta);
                assert(t[b][l] == tb);
            }
            assert forall|a: int, q: int| 0 <= a < t.len() && 0 <= q < t[a].len() implies pool2.contains(
                #[trigger] t[a][q],
            ) by {
                if a != t.len() - 1 {
                    assert(t[a][q] == s[a][q]);
                }
            }
        }
    }
}

proof fn lemma_runs_by_start_disjoint(files: Seq<FrameFacts>, s: Seq<Seq<int>>)
    requires
        disjoint_runs(s),
    ensures
        disjoint_runs(runs_by_start(files, s)),
    decreases s.len(),
{
    if s.len() > 0 {
        let init = s.drop_last();
        assert forall|a: int, b: int, q: int, l: int|
            0 <= a < init.len() && 0 <= b < init.len() && 0 <= q < init[a].len() && 0 <= l
                < init[b].len() && (a != b || q != l) implies #[trigger] init[a][q]
            != #[trigger] init[b][l] by {
            assert(init[a] == s[a] && init[b] == s[b]);
            assert(s[a][q] != s[b][l]);
        }
        lemma_runs_by_start_disjoint(files, init);
        lemma_runs_by_start_members(files, init);
        let rest = runs_by_start(files, init);
        let x = s.last();
        lemma_run_slot_bounds(files, rest, x, 0);
        let j = run_slot(files, rest, x, 0);
        rest.insert_ensures(j, x);
        let t = rest.insert(j, x);
        assert(t == runs_by_start(files, s));
        // Each run of `t` is `x` or one of `s` before it.
        assert forall|a: int| 0 <= a < t.len() && a != j implies exists|v: int|
            0 <= v < s.len() - 1 && #[trigger] t[a] == s[v] by {
            let w = if a < j { a } else { a - 1 };
            assert(t[a] == rest[w]);
            assert(rest.contains(rest[w]));
            assert(init.contains(rest[w]));
            let v = choose|v: int| 0 <= v < init.len() && init[v] == rest[w];
            assert(s[v] == init[v]);
        }
        assert forall|a: int, b: int, q: int, l: int|
            0 <= a < t.len() && 0 <= b < t.len() && 0 <= q < t[a].len() && 0 <= l < t[b].len() && (a
                != b || q != l) implies #[trigger] t[a][q] != #[trigger] t[b][l] by {
            let last = s.len() - 1;
            if a == j && b == j {
                assert(t[a] == s[last]);
                assert(s[last][q] != s[last][l]);
            } else if a == j {
                let v = choose|v: int| 0 <= v < s.len() - 1 && #[trigger] t[b] == s[v];
                assert(s[last][q] != s[v][l]);
            } else if b == j {
                let v = choose|v: int| 0 <= v < s.len() - 1 && #[trigger] t[a] == s[v];
                assert(s[v][q] != s[last][l]);
            } else {
                let wa = if a < j { a } else { a - 1 };
                let wb = if b < j { b } else { b - 1 };
                assert(t[a] == rest[wa]);
                assert(t[b] == rest[wb]);
                assert(rest[wa][q] != rest[wb][l]);
            }
        }
    }
}

/// Only real frames are in a series, and a frame is in at most one series,
/// once: the series part the frames, they never share one.
pub proof fn law_a_frame_is_in_at_most_one_series(files: Seq<FrameFacts>, gap: i64)
    ensures
        ({
            let s = runs_by_start(files, all_runs(files, gap));
            &&& disjoint_runs(s)
            &&& forall|a: int, k: int|
                0 <= a < s.len() && 0 <= k < s[a].len() ==> 0 <= #[trigger] s[a][k] < files.len()
                    && is_frame(files[s[a][k]])
        }),
{
    let order = frame_order(files, files.len() as int);
    lemma_frame_order(files, files.len() as int);
    lemma_runs_upto_disjoint(files, order, gap, order.len() as int);
    let (done, run) = runs_upto(files, order, gap, order.len() as int);
    let both = done.push(run);
    let all = all_runs(files, gap);
    assert(order.take(order.len() as int) =~= order);
    if run.len() < MIN_MEMBERS {
        assert(all == done);
        assert forall|a: int, b: int, q: int, l: int|
            0 <= a < all.len() && 0 <= b < all.len() && 0 <= q < all[a].len() && 0 <= l
                < all[b].len() && (a != b || q != l) implies #[trigger] all[a][q]
            != #[trigger] all[b][l] by {
            assert(all[a] == both[a] && all[b] == both[b]);
            assert(both[a][q] != both[b][l]);
        }
    }
    // Every file of every run is one of the sorted frames.
    assert forall|a: int, k: int| 0 <= a < all.len() && 0 <= k < all[a].len() implies 0
        <= #[trigger] all[a][k] < files.len() && is_frame(files[all[a][k]]) by {
        assert(all[a] == both[a]);
        assert(order.contains(both[a][k]));
        let p = choose|p: int| 0 <= p < order.len() && order[p] == both[a][k];
        assert(0 <= order[p] < files.len());
    }
    lemma_runs_by_start_disjoint(files, all);
    lemma_runs_by_start_members(files, all);
    let s = runs_by_start(files, all);
    assert forall|a: int, k: int| 0 <= a < s.len() && 0 <= k < s[a].len() implies 0
        <= #[trigger] s[a][k] < files.len() && is_frame(files[s[a][k]]) by {
        assert(s.contains(s[a]));
        assert(all.contains(s[a]));
        let v = choose|v: int| 0 <= v < all.len() && all[v] == s[a];
        assert(all[v][k] == s[a][k]);
    }
}

/// The earliest of the first `m` capture times, if any is known.
pub open spec fn earliest_time(t: Seq<Option<i64>>, m: int) -> Option<int>
    decreases m,
{
    if m <= 0 {
        None
    } else {
        match (earliest_time(t, m - 1), t[m - 1]) {
            (Some(a), Some(b)) => Some(if b < a { b as int } else { a }),
            (None, Some(b)) => Some(b as int),
            (e, None) => e,
        }
    }
}

/// The latest of the first `m` capture times, if any is known.
pub open spec fn latest_time(t: Seq<Option<i64>>, m: int) -> Option<int>
    decreases m,
{
    if m <= 0 {
        None
    } else {
        match (latest_time(t, m - 1), t[m - 1]) {
            (Some(a), Some(b)) => Some(if b > a { b as int } else { a }),
            (None, Some(b)) => Some(b as int),
            (e, None) => e,
        }
    }
}

/// How many seconds a series spans; unbounded when no time is known.
pub open spec fn time_span(t: Seq<Option<i64>>) -> Option<int> {
    match (earliest_time(t, t.len() as int), latest_time(t, t.len() as int)) {
        (Some(a), Some(b)) => Some(b - a),
        _ => None,
    }
}

/// What kind of series frames with these capture times look like: four raw
/// frames within two seconds look like a sensor-shift capture; frames within
/// three seconds whose clipping differs widely (`exposures_differ`) look like
/// an exposure bracket; anything else is a burst. These are resemblances,
/// not the camera's own record.
pub open spec fn kind_spec(taken: Seq<Option<i64>>, raw: Seq<bool>, exposures_differ: bool) -> SeriesKind {
    let span_within = |s: int| match time_span(taken) {
        Some(x) => x <= s,
        None => false,
    };
    if (forall|k: int| 0 <= k < raw.len() ==> #[trigger] raw[k]) && taken.len() == 4 && span_within(2) {
        SeriesKind::PixelShift
    } else if span_within(3) && exposures_differ {
        SeriesKind::Bracket
    } else {
        SeriesKind::Burst
    }
}

/// The kind of a series, from its members' capture times, whether each is a
/// raw file, and whether their clipping differs widely.
pub fn series_kind(taken: &[Option<i64>], raw: &[bool], exposures_differ: bool) -> (k: SeriesKind)
    requires
        raw@.len() == taken@.len(),
    ensures
        k == kind_spec(taken@, raw@, exposures_differ),
{
    let mut lo: Option<i64> = None;
    let mut hi: Option<i64> = None;
    let mut all_raw = true;
    let mut i: usize = 0;
    while i < taken.len()
        invariant
            raw@.len() == taken@.len(),
            i <= taken@.len(),
            match lo {
                Some(a) => earliest_time(taken@, i as int) == Some(a as int),
                None => earliest_time(taken@, i as int) is None,
            },
            match hi {
                Some(a) => latest_time(taken@, i as int) == Some(a as int),
                None => latest_time(taken@, i as int) is None,
            },
            all_raw == forall|k: int| 0 <= k < i ==> #[trigger] raw@[k],
        decreases taken@.len() - i,
    {
        if let Some(t) = taken[i] {
            lo = match lo {
                Some(a) => Some(if t < a { t } else { a }),
                None => Some(t),
            };
            hi = match hi {
                Some(a) => Some(if t > a { t } else { a }),
                None => Some(t),
            };
        }
        all_raw = all_raw && raw[i];
        i = i + 1;
    }
    let span: Option<i128> = match (lo, hi) {
        (Some(a), Some(b)) => Some(b as i128 - a as i128),
        _ => None,
    };
    let within = |s: i128| -> (r: bool)
        ensures
            r == match span {
                Some(x) => x <= s,
                None => false,
            },
        {
            match span {
                Some(x) => x <= s,
                None => false,
            }
        };
    if all_raw && taken.len() == 4 && within(2) {
        SeriesKind::PixelShift
    } else if within(3) && exposures_differ {
        SeriesKind::Bracket
    } else {
        SeriesKind::Burst
    }
}

proof fn lemma_time_bounds(t: Seq<Option<i64>>, m: int)
    requires
        0 <= m <= t.len(),
    ensures
        forall|q: int|
            0 <= q < m && #[trigger] t[q] is Some ==> earliest_time(t, m) is Some && latest_time(t, m)
                is Some && earliest_time(t, m).unwrap() <= t[q].unwrap() <= latest_time(t, m).unwrap(),
        earliest_time(t, m) is Some <==> latest_time(t, m) is Some,
        earliest_time(t, m) is Some ==> exists|q: int|
            0 <= q < m && #[trigger] t[q] is Some && t[q].unwrap() == earliest_time(t, m).unwrap(),
        latest_time(t, m) is Some ==> exists|q: int|
            0 <= q < m && #[trigger] t[q] is Some && t[q].unwrap() == latest_time(t, m).unwrap(),
    decreases m,
{
    if m > 0 {
        lemma_time_bounds(t, m - 1);
    }
}

/// The known capture times among `taken`: at least one, and every two
/// within `s` seconds of each other.
pub open spec fn times_within(taken: Seq<Option<i64>>, s: int) -> bool {
    &&& exists|a: int| 0 <= a < taken.len() && #[trigger] taken[a] is Some
    &&& forall|a: int, b: int|
        0 <= a < taken.len() && 0 <= b < taken.len() && #[trigger] taken[a] is Some
            && #[trigger] taken[b] is Some ==> taken[b].unwrap() - taken[a].unwrap() <= s
}

proof fn lemma_span_within(taken: Seq<Option<i64>>, s: int)
    ensures
        (match time_span(taken) {
            Some(x) => x <= s,
            None => false,
        }) <==> times_within(taken, s),
{
    let n = taken.len() as int;
    lemma_time_bounds(taken, n);
    if times_within(taken, s) {
        let a = choose|a: int| 0 <= a < taken.len() && #[trigger] taken[a] is Some;
        assert(taken[a] is Some);
        let qe = choose|q: int|
            0 <= q < n && #[trigger] taken[q] is Some && taken[q].unwrap() == earliest_time(taken, n).unwrap();
        let ql = choose|q: int|
            0 <= q < n && #[trigger] taken[q] is Some && taken[q].unwrap() == latest_time(taken, n).unwrap();
        assert(taken[ql].unwrap() - taken[qe].unwrap() <= s);
    }
}

/// What a series is called rests on what its frames are: it is called a
/// sensor-shift set exactly when it is four frames, every one of them raw,
/// with known capture times all within two seconds of each other; else an
/// exposure bracket exactly when the clipping differs widely and the known
/// capture times are all within three seconds; else a burst.
pub proof fn law_what_a_series_is_called(taken: Seq<Option<i64>>, raw: Seq<bool>, exposures_differ: bool)
    requires
        raw.len() == taken.len(),
    ensures
        ({
            let shift = taken.len() == 4 && (forall|k: int| 0 <= k < raw.len() ==> raw[k])
                && times_within(taken, 2);
            let kind = kind_spec(taken, raw, exposures_differ);
            &&& kind == SeriesKind::PixelShift <==> shift
            &&& kind == SeriesKind::Bracket <==> !shift && exposures_differ && times_within(taken, 3)
            &&& kind == SeriesKind::Burst <==> !shift && !(exposures_differ && times_within(taken, 3))
        }),
{
    lemma_span_within(taken, 2);
    lemma_span_within(taken, 3);
}

} // verus!
