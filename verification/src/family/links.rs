//! Exact links between files: evidence a file itself carries, not a
//! similarity score.
use vstd::prelude::*;
use vstd::string::*;
use crate::sniff::bytes_eq;
use crate::text::{chars_of, last_index_of, lowercase, rfind_char, slice_chars, to_lowercase};
use crate::lang::{pick, Lang};

verus! {

#[derive(Debug, Clone, Copy, PartialEq, Eq, Structural)]
pub enum LinkKind {
    /// Identical bytes.
    SameBytes,
    /// Identical pixels, different container or metadata.
    SamePixels,
    /// DNG tag 0xC68B names the raw it came from.
    DngConversion,
    /// `xmpMM:DerivedFrom` points at the other file's document id.
    XmpDerived,
    /// Both descend from the same original document.
    XmpSibling,
    /// A camera wrote `DSC01234.ARW` and `DSC01234.JPG` together.
    RawJpegPair,
    /// Same body, same second, corroborated by appearance.
    SameShutter,
}

impl LinkKind {
    /// The word stored for this kind of link.
    pub open spec fn name(self) -> Seq<char> {
        match self {
            LinkKind::SameBytes => "same-bytes"@,
            LinkKind::SamePixels => "same-pixels"@,
            LinkKind::DngConversion => "dng-conversion"@,
            LinkKind::XmpDerived => "xmp-derived"@,
            LinkKind::XmpSibling => "xmp-sibling"@,
            LinkKind::RawJpegPair => "raw-jpeg-pair"@,
            LinkKind::SameShutter => "same-shutter"@,
        }
    }

    pub fn as_str(self) -> (r: &'static str)
        ensures
            r@ == self.name(),
    {
        match self {
            LinkKind::SameBytes => "same-bytes",
            LinkKind::SamePixels => "same-pixels",
            LinkKind::DngConversion => "dng-conversion",
            LinkKind::XmpDerived => "xmp-derived",
            LinkKind::XmpSibling => "xmp-sibling",
            LinkKind::RawJpegPair => "raw-jpeg-pair",
            LinkKind::SameShutter => "same-shutter",
        }
    }
}

#[derive(Debug, Clone)]
pub struct Link {
    pub a: usize,
    pub b: usize,
    pub kind: LinkKind,
    pub detail: String,
}

/// A file name without its last extension: everything before the last dot,
/// or the whole name when it has none.
pub open spec fn stem_of(name: Seq<char>) -> Seq<char> {
    match last_index_of(name, '.') {
        Some(k) => name.subrange(0, k),
        None => name,
    }
}

/// The stem of a file name in lower case, by which a camera's raw and its
/// JPEG are paired.
pub fn stem_lower(name: &str) -> (r: String)
    ensures
        r@ == lowercase(stem_of(name@)),
{
    let cs = chars_of(name);
    let stem = match rfind_char(cs.as_slice(), '.') {
        Some(k) => slice_chars(cs.as_slice(), 0, k),
        None => cs,
    };
    proof {
        assert(name@.subrange(0, name@.len() as int) =~= name@);
    }
    to_lowercase(stem.as_slice())
}

/// What finding exact links reads about one file.
#[derive(Debug, Clone, Default)]
pub struct LinkFacts {
    pub name: String,
    /// The directory the file is in.
    pub dir: String,
    pub container: String,
    pub partial_hash: Option<Vec<u8>>,
    pub pixel_hash: Option<Vec<u8>>,
    pub taken_at: Option<i64>,
    pub camera_model: Option<String>,
    pub doc_id: Option<String>,
    pub orig_doc_id: Option<String>,
    pub derived_from: Option<String>,
    pub dng_original_raw: Option<String>,
    /// The camera body's serial number.
    pub body_serial: Option<String>,
}

/// [`Link`] with its detail as characters.
pub struct LinkView {
    pub a: usize,
    pub b: usize,
    pub kind: LinkKind,
    pub detail: Seq<char>,
}

impl View for Link {
    type V = LinkView;

    open spec fn view(&self) -> LinkView {
        LinkView { a: self.a, b: self.b, kind: self.kind, detail: self.detail@ }
    }
}

/// Links by their views.
pub open spec fn link_views(s: Seq<Link>) -> Seq<LinkView> {
    s.map_values(|l: Link| l@)
}

/// What files are grouped by.
#[derive(Debug, Clone, Copy, PartialEq, Eq, Structural)]
pub enum KeyKind {
    /// The bytes at both ends of the file.
    Partial,
    /// The normalised pixels.
    Pixels,
    /// Directory and lower-case stem.
    DirStem,
    /// Lower-case stem alone.
    Stem,
    /// Adobe's document id.
    Doc,
    /// Adobe's original document id.
    Orig,
    /// Camera body and second of capture.
    Moment,
}

/// A key value.
pub enum KeyView {
    Bytes(Seq<u8>),
    Text(Seq<char>),
    Pair(Seq<char>, Seq<char>),
    Moment(Seq<char>, i64),
}

/// A text that may be missing, by its characters.
pub open spec fn text_opt(s: Option<String>) -> Option<Seq<char>> {
    match s {
        Some(x) => Some(x@),
        None => None,
    }
}

/// The key a file is grouped by, if it has one.
pub open spec fn key_of(kind: KeyKind, f: LinkFacts) -> Option<KeyView> {
    match kind {
        KeyKind::Partial => match f.partial_hash {
            Some(h) => Some(KeyView::Bytes(h@)),
            None => None,
        },
        KeyKind::Pixels => match f.pixel_hash {
            Some(h) => Some(KeyView::Bytes(h@)),
            None => None,
        },
        KeyKind::DirStem => Some(KeyView::Pair(f.dir@, lowercase(stem_of(f.name@)))),
        KeyKind::Stem => Some(KeyView::Text(lowercase(stem_of(f.name@)))),
        KeyKind::Doc => match f.doc_id {
            Some(d) => Some(KeyView::Text(d@)),
            None => None,
        },
        KeyKind::Orig => match f.orig_doc_id {
            Some(d) => Some(KeyView::Text(d@)),
            None => None,
        },
        KeyKind::Moment => match (f.body_serial, f.taken_at) {
            (Some(s), Some(t)) => Some(KeyView::Moment(s@, t)),
            _ => None,
        },
    }
}

/// The files below `n` holding `key`, in order.
pub open spec fn holders(kind: KeyKind, files: Seq<LinkFacts>, key: KeyView, n: int) -> Seq<int>
    decreases n,
{
    if n <= 0 {
        Seq::empty()
    } else if key_of(kind, files[n - 1]) == Some(key) {
        holders(kind, files, key, n - 1).push(n - 1)
    } else {
        holders(kind, files, key, n - 1)
    }
}

/// The distinct keys among the files below `n`, as the first file holding
/// each, in order.
pub open spec fn first_holders(kind: KeyKind, files: Seq<LinkFacts>, n: int) -> Seq<int>
    decreases n,
{
    if n <= 0 {
        Seq::empty()
    } else {
        let f = first_holders(kind, files, n - 1);
        match key_of(kind, files[n - 1]) {
            None => f,
            Some(k) => if holders(kind, files, k, n - 1).len() > 0 {
                f
            } else {
                f.push(n - 1)
            },
        }
    }
}

/// Links between each holder and the next.
pub open spec fn window_links(h: Seq<int>, kind: LinkKind, detail: Seq<char>) -> Seq<LinkView> {
    if h.len() < 2 {
        Seq::empty()
    } else {
        Seq::new(
            (h.len() - 1) as nat,
            |w: int| LinkView { a: h[w] as usize, b: h[w + 1] as usize, kind, detail },
        )
    }
}

pub open spec fn same_bytes_text(lang: Lang) -> Seq<char> {
    pick(lang, "совпали размер и оба конца файла"@, "same size and the same bytes at both ends"@)
}

pub open spec fn same_pixels_text(lang: Lang) -> Seq<char> {
    pick(
        lang,
        "одинаковые пиксели после нормализации поворота"@,
        "identical pixels once rotation is normalised"@,
    )
}

/// The links a grouping makes between neighbouring members, for its first
/// `g` groups.
pub open spec fn neighbour_links(kk: KeyKind, files: Seq<LinkFacts>, g: int, lang: Lang) -> Seq<LinkView>
    decreases g,
{
    if g <= 0 {
        Seq::empty()
    } else {
        let n = files.len() as int;
        let rep = first_holders(kk, files, n)[g - 1];
        let key = key_of(kk, files[rep]).unwrap();
        let (lk, detail) = match kk {
            KeyKind::Partial => (LinkKind::SameBytes, same_bytes_text(lang)),
            KeyKind::Pixels => (LinkKind::SamePixels, same_pixels_text(lang)),
            _ => (
                LinkKind::XmpSibling,
                pick(lang, "общий OriginalDocumentID = "@, "shared OriginalDocumentID = "@) + match key {
                    KeyView::Text(t) => t,
                    _ => Seq::empty(),
                },
            ),
        };
        neighbour_links(kk, files, g - 1, lang) + window_links(holders(kk, files, key, n), lk, detail)
    }
}

/// Links from `i` to each of the first `m` of `c` other than `i` itself.
pub open spec fn links_from(i: int, c: Seq<int>, kind: LinkKind, detail: Seq<char>, m: int) -> Seq<LinkView>
    decreases m,
{
    if m <= 0 {
        Seq::empty()
    } else {
        let prev = links_from(i, c, kind, detail, m - 1);
        if c[m - 1] != i {
            prev.push(LinkView { a: i as usize, b: c[m - 1] as usize, kind, detail })
        } else {
            prev
        }
    }
}

/// The conversions file `i` asserts: the files named like the raw it says
/// it came from, in its own directory first, anywhere otherwise.
pub open spec fn dng_links(files: Seq<LinkFacts>, i: int) -> Seq<LinkView> {
    let n = files.len() as int;
    match files[i].dng_original_raw {
        None => Seq::empty(),
        Some(orig) => {
            let want = lowercase(stem_of(orig@));
            let here = holders(KeyKind::DirStem, files, KeyView::Pair(files[i].dir@, want), n);
            let c = if here.len() > 0 {
                here
            } else {
                holders(KeyKind::Stem, files, KeyView::Text(want), n)
            };
            links_from(i, c, LinkKind::DngConversion, "OriginalRawFileName = "@ + orig@, c.len() as int)
        },
    }
}

/// The derivations file `i` asserts: the files whose document id it names as
/// its parent.
pub open spec fn derived_links(files: Seq<LinkFacts>, i: int) -> Seq<LinkView> {
    let n = files.len() as int;
    match files[i].derived_from {
        None => Seq::empty(),
        Some(p) => {
            let c = holders(KeyKind::Doc, files, KeyView::Text(p@), n);
            links_from(i, c, LinkKind::XmpDerived, "xmpMM:DerivedFrom = "@ + p@, c.len() as int)
        },
    }
}

/// The links the first `m` files assert by conversion.
pub open spec fn dng_upto(files: Seq<LinkFacts>, m: int) -> Seq<LinkView>
    decreases m,
{
    if m <= 0 {
        Seq::empty()
    } else {
        dng_upto(files, m - 1) + dng_links(files, m - 1)
    }
}

/// The links the first `m` files assert by derivation.
pub open spec fn derived_upto(files: Seq<LinkFacts>, m: int) -> Seq<LinkView>
    decreases m,
{
    if m <= 0 {
        Seq::empty()
    } else {
        derived_upto(files, m - 1) + derived_links(files, m - 1)
    }
}

/// Two files of one name in one directory that a camera wrote together:
/// different containers, the same moment (or no date on either), the same body.
pub open spec fn camera_pair(a: LinkFacts, b: LinkFacts) -> bool {
    a.container@ != b.container@ && match (a.taken_at, b.taken_at) {
        (Some(x), Some(y)) => -2 <= x - y <= 2,
        (None, None) => true,
        _ => false,
    } && text_opt(a.camera_model) == text_opt(b.camera_model)
}

/// The camera pairs within one group: each member with every later member,
/// for the first `p` members as the earlier one.
pub open spec fn pairs_in(files: Seq<LinkFacts>, h: Seq<int>, p: int, lang: Lang) -> Seq<LinkView>
    decreases p,
{
    if p <= 0 {
        Seq::empty()
    } else {
        pairs_in(files, h, p - 1, lang) + pairs_after(files, h, p - 1, h.len() as int, lang)
    }
}

/// The camera pairs of member `pos` with the later members before `q`.
pub open spec fn pairs_after(files: Seq<LinkFacts>, h: Seq<int>, pos: int, q: int, lang: Lang) -> Seq<LinkView>
    decreases q - pos,
{
    if q <= pos + 1 {
        Seq::empty()
    } else {
        let prev = pairs_after(files, h, pos, q - 1, lang);
        let (i, j) = (h[pos], h[q - 1]);
        if camera_pair(files[i], files[j]) {
            prev.push(
                LinkView {
                    a: i as usize,
                    b: j as usize,
                    kind: LinkKind::RawJpegPair,
                    detail: pick(lang, "одно имя "@, "same name "@) + stem_of(files[i].name@) + pick(
                        lang,
                        " и один момент съёмки"@,
                        " and the same moment"@,
                    ),
                },
            )
        } else {
            prev
        }
    }
}

/// The camera pairs of the first `g` name groups.
pub open spec fn pairs_upto(files: Seq<LinkFacts>, g: int, lang: Lang) -> Seq<LinkView>
    decreases g,
{
    if g <= 0 {
        Seq::empty()
    } else {
        let n = files.len() as int;
        let rep = first_holders(KeyKind::DirStem, files, n)[g - 1];
        let h = holders(KeyKind::DirStem, files, key_of(KeyKind::DirStem, files[rep]).unwrap(), n);
        pairs_upto(files, g - 1, lang) + if h.len() > 1 {
            pairs_in(files, h, h.len() as int, lang)
        } else {
            Seq::empty()
        }
    }
}

/// Every exact link the files assert, group by group in the order the
/// groups first appear.
pub open spec fn links_spec(files: Seq<LinkFacts>, lang: Lang) -> Seq<LinkView> {
    let n = files.len() as int;
    neighbour_links(KeyKind::Partial, files, first_holders(KeyKind::Partial, files, n).len() as int, lang)
        + neighbour_links(KeyKind::Pixels, files, first_holders(KeyKind::Pixels, files, n).len() as int, lang)
        + dng_upto(files, n) + derived_upto(files, n) + neighbour_links(
        KeyKind::Orig,
        files,
        first_holders(KeyKind::Orig, files, n).len() as int, lang,
    ) + pairs_upto(files, first_holders(KeyKind::DirStem, files, n).len() as int, lang)
}

/// Positions as integers.
pub open spec fn ints(v: Seq<usize>) -> Seq<int> {
    v.map_values(|u: usize| u as int)
}

/// The stem of a file name: everything before its last dot.
pub fn stem_text(name: &str) -> (r: String)
    ensures
        r@ == stem_of(name@),
{
    let cs = chars_of(name);
    match rfind_char(cs.as_slice(), '.') {
        Some(k) => String::from_str(name.substring_char(0, k)),
        None => String::from_str(name),
    }
}

fn opt_text_eq(a: &Option<String>, b: &Option<String>) -> (r: bool)
    ensures
        r == (text_opt(*a) == text_opt(*b)),
{
    match (a, b) {
        (Some(x), Some(y)) => *x == *y,
        (None, None) => true,
        _ => false,
    }
}

fn opt_bytes_eq(a: &Option<Vec<u8>>, b: &Option<Vec<u8>>) -> (r: bool)
    ensures
        r == (a is Some && b is Some && a.unwrap()@ == b.unwrap()@),
{
    match (a, b) {
        (Some(x), Some(y)) => bytes_eq(x.as_slice(), y.as_slice()),
        _ => false,
    }
}

/// The lower-case stems of every file's name.
fn all_stems(files: &[LinkFacts]) -> (s: Vec<String>)
    ensures
        s@.len() == files@.len(),
        forall|i: int| 0 <= i < files@.len() ==> (#[trigger] s@[i])@ == lowercase(stem_of(files@[i].name@)),
{
    let mut s: Vec<String> = Vec::new();
    let mut i: usize = 0;
    while i < files.len()
        invariant
            i <= files@.len(),
            s@.len() == i,
            forall|j: int| 0 <= j < i ==> (#[trigger] s@[j])@ == lowercase(stem_of(files@[j].name@)),
        decreases files@.len() - i,
    {
        s.push(stem_lower(files[i].name.as_str()));
        i = i + 1;
    }
    s
}

/// Whether file `i` has a key of this kind and file `j` has the same one.
fn same_key(files: &[LinkFacts], stems: &Vec<String>, kind: KeyKind, i: usize, j: usize) -> (r: bool)
    requires
        i < files@.len(),
        j < files@.len(),
        stems@.len() == files@.len(),
        forall|q: int| 0 <= q < files@.len() ==> (#[trigger] stems@[q])@ == lowercase(stem_of(files@[q].name@)),
    ensures
        r == (key_of(kind, files@[i as int]) is Some && key_of(kind, files@[i as int]) == key_of(
            kind,
            files@[j as int],
        )),
{
    let a = &files[i];
    let b = &files[j];
    proof {
        assert(stems@[i as int]@ == lowercase(stem_of(a.name@)));
        assert(stems@[j as int]@ == lowercase(stem_of(b.name@)));
    }
    match kind {
        KeyKind::Partial => opt_bytes_eq(&a.partial_hash, &b.partial_hash),
        KeyKind::Pixels => opt_bytes_eq(&a.pixel_hash, &b.pixel_hash),
        KeyKind::DirStem => a.dir == b.dir && stems[i] == stems[j],
        KeyKind::Stem => stems[i] == stems[j],
        KeyKind::Doc => a.doc_id.is_some() && opt_text_eq(&a.doc_id, &b.doc_id),
        KeyKind::Orig => a.orig_doc_id.is_some() && opt_text_eq(&a.orig_doc_id, &b.orig_doc_id),
        KeyKind::Moment => a.body_serial.is_some() && a.taken_at.is_some() && opt_text_eq(
            &a.body_serial,
            &b.body_serial,
        ) && a.taken_at == b.taken_at,
    }
}

proof fn lemma_holders(kind: KeyKind, files: Seq<LinkFacts>, key: KeyView, n: int)
    requires
        0 <= n <= files.len(),
    ensures
        forall|q: int| #[trigger] holders(kind, files, key, n).contains(q) <==> (0 <= q < n && key_of(kind, files[q])
            == Some(key)),
        forall|q: int| 0 <= q < holders(kind, files, key, n).len() ==> 0 <= #[trigger] holders(kind, files, key, n)[q] < n,
    decreases n,
{
    if n > 0 {
        lemma_holders(kind, files, key, n - 1);
        let t = holders(kind, files, key, n - 1);
        if key_of(kind, files[n - 1]) == Some(key) {
            assert forall|q: int| #[trigger] t.push(n - 1).contains(q) <==> (t.contains(q) || q == n - 1) by {
                if t.push(n - 1).contains(q) {
                    let w = choose|w: int| 0 <= w < t.len() + 1 && #[trigger] t.push(n - 1)[w] == q;
                    if w < t.len() {
                        assert(t[w] == q);
                    }
                }
                if t.contains(q) {
                    let w = choose|w: int| 0 <= w < t.len() && #[trigger] t[w] == q;
                    assert(t.push(n - 1)[w] == q);
                }
                if q == n - 1 {
                    assert(t.push(n - 1)[t.len() as int] == q);
                }
            }
        }
    }
}

/// The files holding the key of file `i`.
fn holders_of(files: &[LinkFacts], stems: &Vec<String>, kind: KeyKind, i: usize) -> (h: Vec<usize>)
    requires
        i < files@.len(),
        key_of(kind, files@[i as int]) is Some,
        stems@.len() == files@.len(),
        forall|q: int| 0 <= q < files@.len() ==> (#[trigger] stems@[q])@ == lowercase(stem_of(files@[q].name@)),
    ensures
        ints(h@) == holders(kind, files@, key_of(kind, files@[i as int]).unwrap(), files@.len() as int),
        forall|q: int| 0 <= q < h@.len() ==> (#[trigger] h@[q]) < files@.len(),
{
    let ghost key = key_of(kind, files@[i as int]).unwrap();
    let n = files.len();
    let mut h: Vec<usize> = Vec::new();
    let mut j: usize = 0;
    while j < n
        invariant
            n == files@.len(),
            i < n,
            j <= n,
            key_of(kind, files@[i as int]) == Some(key),
            stems@.len() == files@.len(),
            forall|q: int| 0 <= q < files@.len() ==> (#[trigger] stems@[q])@ == lowercase(stem_of(files@[q].name@)),
            ints(h@) == holders(kind, files@, key, j as int),
            forall|q: int| 0 <= q < h@.len() ==> (#[trigger] h@[q]) < j,
        decreases n - j,
    {
        if same_key(files, stems, kind, i, j) {
            let ghost before = h@;
            h.push(j);
            assert(ints(h@) =~= ints(before).push(j as int));
        }
        j = j + 1;
    }
    h
}

/// The first file of each distinct key, in order.
fn group_reps(files: &[LinkFacts], stems: &Vec<String>, kind: KeyKind) -> (r: Vec<usize>)
    requires
        stems@.len() == files@.len(),
        forall|q: int| 0 <= q < files@.len() ==> (#[trigger] stems@[q])@ == lowercase(stem_of(files@[q].name@)),
    ensures
        ints(r@) == first_holders(kind, files@, files@.len() as int),
        forall|q: int| 0 <= q < r@.len() ==> (#[trigger] r@[q]) < files@.len() && key_of(kind, files@[r@[q] as int]) is Some,
{
    let n = files.len();
    let mut r: Vec<usize> = Vec::new();
    let mut i: usize = 0;
    while i < n
        invariant
            n == files@.len(),
            i <= n,
            stems@.len() == files@.len(),
            forall|q: int| 0 <= q < files@.len() ==> (#[trigger] stems@[q])@ == lowercase(stem_of(files@[q].name@)),
            ints(r@) == first_holders(kind, files@, i as int),
            forall|q: int| 0 <= q < r@.len() ==> (#[trigger] r@[q]) < i && key_of(kind, files@[r@[q] as int]) is Some,
        decreases n - i,
    {
        let has = match kind {
            KeyKind::Partial => files[i].partial_hash.is_some(),
            KeyKind::Pixels => files[i].pixel_hash.is_some(),
            KeyKind::DirStem => true,
            KeyKind::Stem => true,
            KeyKind::Doc => files[i].doc_id.is_some(),
            KeyKind::Orig => files[i].orig_doc_id.is_some(),
            KeyKind::Moment => files[i].body_serial.is_some() && files[i].taken_at.is_some(),
        };
        if has {
            let ghost key = key_of(kind, files@[i as int]).unwrap();
            proof {
                lemma_holders(kind, files@, key, i as int);
            }
            let mut seen = false;
            let mut j: usize = 0;
            while j < i
                invariant
                    n == files@.len(),
                    j <= i,
                    i < n,
                    key_of(kind, files@[i as int]) == Some(key),
                    stems@.len() == files@.len(),
                    forall|q: int| 0 <= q < files@.len() ==> (#[trigger] stems@[q])@ == lowercase(stem_of(files@[q].name@)),
                    seen == exists|q: int| 0 <= q < j && key_of(kind, files@[q]) == Some(key),
                decreases i - j,
            {
                if same_key(files, stems, kind, i, j) {
                    seen = true;
                }
                j = j + 1;
            }
            proof {
                if seen {
                    let q = choose|q: int| 0 <= q < i && key_of(kind, files@[q]) == Some(key);
                    assert(holders(kind, files@, key, i as int).contains(q));
                } else if holders(kind, files@, key, i as int).len() > 0 {
                    assert(holders(kind, files@, key, i as int).contains(holders(kind, files@, key, i as int)[0]));
                }
            }
            if !seen {
                let ghost before = r@;
                r.push(i);
                assert(ints(r@) =~= ints(before).push(i as int));
            }
        }
        i = i + 1;
    }
    r
}

fn push_windows(out: &mut Vec<Link>, h: &Vec<usize>, kind: LinkKind, detail: &String)
    ensures
        link_views(final(out)@) == link_views(old(out)@) + window_links(ints(h@), kind, detail@),
{
    let ghost start = link_views(out@);
    if h.len() < 2 {
        assert(link_views(out@) =~= start + window_links(ints(h@), kind, detail@));
        return;
    }
    let mut w: usize = 0;
    while w < h.len() - 1
        invariant
            h@.len() >= 2,
            w + 1 <= h@.len(),
            link_views(out@) == start + window_links(ints(h@), kind, detail@).take(w as int),
        decreases h@.len() - w,
    {
        let ghost before = link_views(out@);
        out.push(Link { a: h[w], b: h[w + 1], kind, detail: detail.clone() });
        proof {
            let wl = window_links(ints(h@), kind, detail@);
            assert(link_views(out@) =~= before.push(wl[w as int]));
            assert(wl.take(w + 1) =~= wl.take(w as int).push(wl[w as int]));
        }
        w = w + 1;
    }
    assert(window_links(ints(h@), kind, detail@).take(w as int) =~= window_links(ints(h@), kind, detail@));
}

fn push_links_from(out: &mut Vec<Link>, i: usize, c: &Vec<usize>, kind: LinkKind, detail: &String)
    ensures
        link_views(final(out)@) == link_views(old(out)@) + links_from(i as int, ints(c@), kind, detail@, c@.len() as int),
{
    let ghost start = link_views(out@);
    let mut m: usize = 0;
    while m < c.len()
        invariant
            m <= c@.len(),
            link_views(out@) == start + links_from(i as int, ints(c@), kind, detail@, m as int),
        decreases c@.len() - m,
    {
        if c[m] != i {
            let ghost before = link_views(out@);
            out.push(Link { a: i, b: c[m], kind, detail: detail.clone() });
            assert(link_views(out@) =~= before.push(
                LinkView { a: i, b: c@[m as int], kind, detail: detail@ },
            ));
        }
        m = m + 1;
    }
}

fn push_neighbours(out: &mut Vec<Link>, files: &[LinkFacts], stems: &Vec<String>, kk: KeyKind, lang: Lang)
    requires
        kk == KeyKind::Partial || kk == KeyKind::Pixels || kk == KeyKind::Orig,
        stems@.len() == files@.len(),
        forall|q: int| 0 <= q < files@.len() ==> (#[trigger] stems@[q])@ == lowercase(stem_of(files@[q].name@)),
    ensures
        link_views(final(out)@) == link_views(old(out)@) + neighbour_links(
            kk,
            files@,
            first_holders(kk, files@, files@.len() as int).len() as int, lang,
        ),
{
    let ghost start = link_views(out@);
    let reps = group_reps(files, stems, kk);
    let mut g: usize = 0;
    while g < reps.len()
        invariant
            kk == KeyKind::Partial || kk == KeyKind::Pixels || kk == KeyKind::Orig,
            stems@.len() == files@.len(),
            forall|q: int| 0 <= q < files@.len() ==> (#[trigger] stems@[q])@ == lowercase(stem_of(files@[q].name@)),
            ints(reps@) == first_holders(kk, files@, files@.len() as int),
            forall|q: int| 0 <= q < reps@.len() ==> (#[trigger] reps@[q]) < files@.len() && key_of(kk, files@[reps@[q] as int]) is Some,
            g <= reps@.len(),
            link_views(out@) == start + neighbour_links(kk, files@, g as int, lang),
        decreases reps@.len() - g,
    {
        let rep = reps[g];
        let h = holders_of(files, stems, kk, rep);
        let detail = match kk {
            KeyKind::Partial => String::from_str(
                lang.say("совпали размер и оба конца файла", "same size and the same bytes at both ends"),
            ),
            KeyKind::Pixels => String::from_str(
                lang.say(
                    "одинаковые пиксели после нормализации поворота",
                    "identical pixels once rotation is normalised",
                ),
            ),
            _ => {
                let mut s = String::from_str(
                    lang.say("общий OriginalDocumentID = ", "shared OriginalDocumentID = "),
                );
                match &files[rep].orig_doc_id {
                    Some(id) => s.append(id.as_str()),
                    None => {},
                }
                s
            },
        };
        let lk = match kk {
            KeyKind::Partial => LinkKind::SameBytes,
            KeyKind::Pixels => LinkKind::SamePixels,
            _ => LinkKind::XmpSibling,
        };
        let ghost before = link_views(out@);
        push_windows(out, &h, lk, &detail);
        proof {
            assert(first_holders(kk, files@, files@.len() as int)[g as int] == rep as int);
            assert(link_views(out@) =~= start + neighbour_links(kk, files@, g + 1, lang));
        }
        g = g + 1;
    }
}

fn push_dng(out: &mut Vec<Link>, files: &[LinkFacts], stems: &Vec<String>)
    requires
        stems@.len() == files@.len(),
        forall|q: int| 0 <= q < files@.len() ==> (#[trigger] stems@[q])@ == lowercase(stem_of(files@[q].name@)),
    ensures
        link_views(final(out)@) == link_views(old(out)@) + dng_upto(files@, files@.len() as int),
{
    let ghost start = link_views(out@);
    let n = files.len();
    let mut i: usize = 0;
    while i < n
        invariant
            n == files@.len(),
            i <= n,
            stems@.len() == files@.len(),
            forall|q: int| 0 <= q < files@.len() ==> (#[trigger] stems@[q])@ == lowercase(stem_of(files@[q].name@)),
            link_views(out@) == start + dng_upto(files@, i as int),
        decreases n - i,
    {
        let ghost before = link_views(out@);
        if let Some(orig) = &files[i].dng_original_raw {
            let want = stem_lower(orig.as_str());
            let ghost key = KeyView::Pair(files@[i as int].dir@, want@);
            let mut here: Vec<usize> = Vec::new();
            let mut j: usize = 0;
            while j < n
                invariant
                    n == files@.len(),
                    i < n,
                    j <= n,
                    key == KeyView::Pair(files@[i as int].dir@, want@),
                    stems@.len() == files@.len(),
                    forall|q: int| 0 <= q < files@.len() ==> (#[trigger] stems@[q])@ == lowercase(stem_of(files@[q].name@)),
                    ints(here@) == holders(KeyKind::DirStem, files@, key, j as int),
                decreases n - j,
            {
                assert(stems@[j as int]@ == lowercase(stem_of(files@[j as int].name@)));
                if files[j].dir == files[i].dir && stems[j] == want {
                    let ghost b = here@;
                    here.push(j);
                    assert(ints(here@) =~= ints(b).push(j as int));
                }
                j = j + 1;
            }
            let c = if here.len() > 0 {
                here
            } else {
                let ghost key2 = KeyView::Text(want@);
                let mut anywhere: Vec<usize> = Vec::new();
                let mut j: usize = 0;
                while j < n
                    invariant
                        n == files@.len(),
                        j <= n,
                        key2 == KeyView::Text(want@),
                        stems@.len() == files@.len(),
                        forall|q: int| 0 <= q < files@.len() ==> (#[trigger] stems@[q])@ == lowercase(stem_of(files@[q].name@)),
                        ints(anywhere@) == holders(KeyKind::Stem, files@, key2, j as int),
                    decreases n - j,
                {
                    assert(stems@[j as int]@ == lowercase(stem_of(files@[j as int].name@)));
                    if stems[j] == want {
                        let ghost b = anywhere@;
                        anywhere.push(j);
                        assert(ints(anywhere@) =~= ints(b).push(j as int));
                    }
                    j = j + 1;
                }
                anywhere
            };
            let mut detail = String::from_str("OriginalRawFileName = ");
            detail.append(orig.as_str());
            push_links_from(out, i, &c, LinkKind::DngConversion, &detail);
        }
        proof {
            assert(link_views(out@) =~= start + dng_upto(files@, i + 1));
        }
        i = i + 1;
    }
}

fn push_derived(out: &mut Vec<Link>, files: &[LinkFacts])
    ensures
        link_views(final(out)@) == link_views(old(out)@) + derived_upto(files@, files@.len() as int),
{
    let ghost start = link_views(out@);
    let n = files.len();
    let mut i: usize = 0;
    while i < n
        invariant
            n == files@.len(),
            i <= n,
            link_views(out@) == start + derived_upto(files@, i as int),
        decreases n - i,
    {
        if let Some(p) = &files[i].derived_from {
            let ghost key = KeyView::Text(p@);
            let mut c: Vec<usize> = Vec::new();
            let mut j: usize = 0;
            while j < n
                invariant
                    n == files@.len(),
                    j <= n,
                    key == KeyView::Text(p@),
                    ints(c@) == holders(KeyKind::Doc, files@, key, j as int),
                decreases n - j,
            {
                let same = match &files[j].doc_id {
                    Some(d) => *d == *p,
                    None => false,
                };
                if same {
                    let ghost b = c@;
                    c.push(j);
                    assert(ints(c@) =~= ints(b).push(j as int));
                }
                j = j + 1;
            }
            let mut detail = String::from_str("xmpMM:DerivedFrom = ");
            detail.append(p.as_str());
            push_links_from(out, i, &c, LinkKind::XmpDerived, &detail);
        }
        proof {
            assert(link_views(out@) =~= start + derived_upto(files@, i + 1));
        }
        i = i + 1;
    }
}

/// The moments of two files of one name and one directory can be compared
/// without overflow.
pub open spec fn moments_comparable(files: Seq<LinkFacts>) -> bool {
    forall|i: int, j: int|
        0 <= i < j < files.len() && key_of(KeyKind::DirStem, files[i]) == key_of(KeyKind::DirStem, files[j])
            && (#[trigger] files[i].taken_at) is Some && (#[trigger] files[j].taken_at) is Some ==> i64::MIN
            < files[i].taken_at.unwrap() - files[j].taken_at.unwrap() <= i64::MAX
}

fn camera_pair_exec(a: &LinkFacts, b: &LinkFacts) -> (r: bool)
    requires
        a.taken_at is Some && b.taken_at is Some ==> i64::MIN < a.taken_at.unwrap() - b.taken_at.unwrap()
            <= i64::MAX,
    ensures
        r == camera_pair(*a, *b),
{
    if a.container == b.container {
        return false;
    }
    let same_moment = match (a.taken_at, b.taken_at) {
        (Some(x), Some(y)) => {
            let d = x - y;
            -2 <= d && d <= 2
        },
        (None, None) => true,
        _ => false,
    };
    same_moment && opt_text_eq(&a.camera_model, &b.camera_model)
}

fn push_pairs(out: &mut Vec<Link>, files: &[LinkFacts], stems: &Vec<String>, lang: Lang)
    requires
        stems@.len() == files@.len(),
        forall|q: int| 0 <= q < files@.len() ==> (#[trigger] stems@[q])@ == lowercase(stem_of(files@[q].name@)),
        moments_comparable(files@),
    ensures
        link_views(final(out)@) == link_views(old(out)@) + pairs_upto(
            files@,
            first_holders(KeyKind::DirStem, files@, files@.len() as int).len() as int, lang,
        ),
{
    let ghost start = link_views(out@);
    let reps = group_reps(files, stems, KeyKind::DirStem);
    let mut g: usize = 0;
    while g < reps.len()
        invariant
            stems@.len() == files@.len(),
            forall|q: int| 0 <= q < files@.len() ==> (#[trigger] stems@[q])@ == lowercase(stem_of(files@[q].name@)),
            moments_comparable(files@),
            ints(reps@) == first_holders(KeyKind::DirStem, files@, files@.len() as int),
            forall|q: int| 0 <= q < reps@.len() ==> (#[trigger] reps@[q]) < files@.len() && key_of(KeyKind::DirStem, files@[reps@[q] as int]) is Some,
            g <= reps@.len(),
            link_views(out@) == start + pairs_upto(files@, g as int, lang),
        decreases reps@.len() - g,
    {
        let rep = reps[g];
        let h = holders_of(files, stems, KeyKind::DirStem, rep);
        let ghost hv = ints(h@);
        let ghost key = key_of(KeyKind::DirStem, files@[rep as int]).unwrap();
        proof {
            assert(first_holders(KeyKind::DirStem, files@, files@.len() as int)[g as int] == rep as int);
            lemma_holders(KeyKind::DirStem, files@, key, files@.len() as int);
        }
        let ghost base = link_views(out@);
        if h.len() > 1 {
            let len = h.len();
            let mut pos: usize = 0;
            while pos < len
                invariant
                    len == h@.len(),
                    hv == ints(h@),
                    hv == holders(KeyKind::DirStem, files@, key, files@.len() as int),
                    forall|q: int| #[trigger] hv.contains(q) <==> (0 <= q < files@.len() && key_of(KeyKind::DirStem, files@[q]) == Some(key)),
                    forall|q: int| 0 <= q < h@.len() ==> (#[trigger] h@[q]) < files@.len(),
                    moments_comparable(files@),
                    pos <= len,
                    link_views(out@) == base + pairs_in(files@, hv, pos as int, lang),
                decreases len - pos,
            {
                let mut q: usize = pos + 1;
                while q < len
                    invariant
                        len == h@.len(),
                        hv == ints(h@),
                        hv == holders(KeyKind::DirStem, files@, key, files@.len() as int),
                        forall|q: int| #[trigger] hv.contains(q) <==> (0 <= q < files@.len() && key_of(KeyKind::DirStem, files@[q]) == Some(key)),
                        forall|q: int| 0 <= q < h@.len() ==> (#[trigger] h@[q]) < files@.len(),
                        moments_comparable(files@),
                        pos < len,
                        pos + 1 <= q <= len,
                        link_views(out@) == base + pairs_in(files@, hv, pos as int, lang) + pairs_after(files@, hv, pos as int, q as int, lang),
                    decreases len - q,
                {
                    let i = h[pos];
                    let j = h[q];
                    proof {
                        assert(hv.contains(pos as int) || true);
                        assert(hv[pos as int] == i as int);
                        assert(hv[q as int] == j as int);
                        assert(hv.contains(i as int));
                        assert(hv.contains(j as int));
                        lemma_holders_increasing(KeyKind::DirStem, files@, key, files@.len() as int, pos as int, q as int);
                    }
                    let ghost before = link_views(out@);
                    if camera_pair_exec(&files[i], &files[j]) {
                        let mut detail = String::from_str(lang.say("одно имя ", "same name "));
                        let st = stem_text(files[i].name.as_str());
                        detail.append(st.as_str());
                        detail.append(lang.say(" и один момент съёмки", " and the same moment"));
                        out.push(Link { a: i, b: j, kind: LinkKind::RawJpegPair, detail });
                        assert(link_views(out@) =~= before.push(
                            LinkView {
                                a: i,
                                b: j,
                                kind: LinkKind::RawJpegPair,
                                detail: pick(lang, "одно имя "@, "same name "@) + stem_of(
                                    files@[i as int].name@,
                                ) + pick(lang, " и один момент съёмки"@, " and the same moment"@),
                            },
                        ));
                    }
                    proof {
                        assert(link_views(out@) =~= base + pairs_in(files@, hv, pos as int, lang) + pairs_after(files@, hv, pos as int, q + 1, lang));
                    }
                    q = q + 1;
                }
                proof {
                    assert(link_views(out@) =~= base + pairs_in(files@, hv, pos + 1, lang));
                }
                pos = pos + 1;
            }
        }
        proof {
            assert(link_views(out@) =~= start + pairs_upto(files@, g + 1, lang));
        }
        g = g + 1;
    }
}

proof fn lemma_holders_increasing(kind: KeyKind, files: Seq<LinkFacts>, key: KeyView, n: int, p: int, q: int)
    requires
        0 <= n <= files.len(),
        0 <= p < q < holders(kind, files, key, n).len(),
    ensures
        holders(kind, files, key, n)[p] < holders(kind, files, key, n)[q],
    decreases n,
{
    lemma_holders(kind, files, key, n);
    if n > 0 {
        let t = holders(kind, files, key, n - 1);
        lemma_holders(kind, files, key, n - 1);
        if key_of(kind, files[n - 1]) == Some(key) {
            if q < t.len() {
                lemma_holders_increasing(kind, files, key, n - 1, p, q);
            } else {
                assert(t.contains(t[p]));
            }
        } else {
            lemma_holders_increasing(kind, files, key, n - 1, p, q);
        }
    }
}

/// Every exact link the files themselves assert: identical bytes, identical
/// pixels, a conversion naming its raw, a derivation naming its parent,
/// siblings of one original document, and a camera's raw with the JPEG it
/// wrote beside it. Each link says why in `lang`.
pub fn detect(files: &[LinkFacts], lang: Lang) -> (links: Vec<Link>)
    requires
        moments_comparable(files@),
    ensures
        link_views(links@) == links_spec(files@, lang),
{
    let stems = all_stems(files);
    let mut links: Vec<Link> = Vec::new();
    push_neighbours(&mut links, files, &stems, KeyKind::Partial, lang);
    push_neighbours(&mut links, files, &stems, KeyKind::Pixels, lang);
    // Matched within a directory first, because Sony reuses file numbers.
    push_dng(&mut links, files, &stems);
    push_derived(&mut links, files);
    push_neighbours(&mut links, files, &stems, KeyKind::Orig, lang);
    push_pairs(&mut links, files, &stems, lang);
    assert(link_views(links@) =~= links_spec(files@, lang));
    links
}

/// Every pair of members of `h`, earlier first, for the first `p` members as
/// the earlier one.
pub open spec fn all_pairs_in(h: Seq<int>, p: int) -> Seq<(usize, usize)>
    decreases p,
{
    if p <= 0 {
        Seq::empty()
    } else {
        all_pairs_in(h, p - 1) + Seq::new(
            if h.len() > p { (h.len() - p) as nat } else { 0 },
            |q: int| (h[p - 1] as usize, h[p + q] as usize),
        )
    }
}

/// The pairs of the first `g` groups of one body and one second.
pub open spec fn moment_pairs_upto(files: Seq<LinkFacts>, g: int) -> Seq<(usize, usize)>
    decreases g,
{
    if g <= 0 {
        Seq::empty()
    } else {
        let n = files.len() as int;
        let rep = first_holders(KeyKind::Moment, files, n)[g - 1];
        let h = holders(KeyKind::Moment, files, key_of(KeyKind::Moment, files[rep]).unwrap(), n);
        moment_pairs_upto(files, g - 1) + if h.len() > 1 {
            all_pairs_in(h, h.len() as int)
        } else {
            Seq::empty()
        }
    }
}

/// Same body and same second, used only where appearance agrees: on its own
/// this would merge a burst, so the perceptual check keeps distinct frames
/// apart.
pub fn shutter_candidates(files: &[LinkFacts]) -> (out: Vec<(usize, usize)>)
    ensures
        out@ == moment_pairs_upto(
            files@,
            first_holders(KeyKind::Moment, files@, files@.len() as int).len() as int,
        ),
{
    let stems = all_stems(files);
    let reps = group_reps(files, &stems, KeyKind::Moment);
    let mut out: Vec<(usize, usize)> = Vec::new();
    let mut g: usize = 0;
    while g < reps.len()
        invariant
            stems@.len() == files@.len(),
            forall|q: int| 0 <= q < files@.len() ==> (#[trigger] stems@[q])@ == lowercase(stem_of(files@[q].name@)),
            ints(reps@) == first_holders(KeyKind::Moment, files@, files@.len() as int),
            forall|q: int| 0 <= q < reps@.len() ==> (#[trigger] reps@[q]) < files@.len() && key_of(KeyKind::Moment, files@[reps@[q] as int]) is Some,
            g <= reps@.len(),
            out@ == moment_pairs_upto(files@, g as int),
        decreases reps@.len() - g,
    {
        let rep = reps[g];
        let h = holders_of(files, &stems, KeyKind::Moment, rep);
        let ghost hv = ints(h@);
        let ghost base = out@;
        proof {
            assert(first_holders(KeyKind::Moment, files@, files@.len() as int)[g as int] == rep as int);
        }
        if h.len() > 1 {
            let len = h.len();
            let mut pos: usize = 0;
            while pos < len
                invariant
                    len == h@.len(),
                    hv == ints(h@),
                    pos <= len,
                    out@ == base + all_pairs_in(hv, pos as int),
                decreases len - pos,
            {
                let ghost before = out@;
                let mut q: usize = pos + 1;
                while q < len
                    invariant
                        len == h@.len(),
                        hv == ints(h@),
                        pos < len,
                        pos + 1 <= q <= len,
                        out@ == before + Seq::new((q - pos - 1) as nat, |r: int| (hv[pos as int] as usize, hv[pos + 1 + r] as usize)),
                    decreases len - q,
                {
                    out.push((h[pos], h[q]));
                    proof {
                        assert(out@ =~= before + Seq::new((q + 1 - pos - 1) as nat, |r: int| (hv[pos as int] as usize, hv[pos + 1 + r] as usize)));
                    }
                    q = q + 1;
                }
                proof {
                    assert(out@ =~= base + all_pairs_in(hv, pos + 1));
                }
                pos = pos + 1;
            }
        }
        proof {
            assert(out@ =~= moment_pairs_upto(files@, g + 1));
        }
        g = g + 1;
    }
    out
}

proof fn lemma_first_holders_basic(kind: KeyKind, files: Seq<LinkFacts>, n: int)
    requires
        0 <= n <= files.len(),
    ensures
        forall|g: int|
            0 <= g < first_holders(kind, files, n).len() ==> 0 <= #[trigger] first_holders(kind, files, n)[g]
                < n && key_of(kind, files[first_holders(kind, files, n)[g]]) is Some,
    decreases n,
{
    if n > 0 {
        lemma_first_holders_basic(kind, files, n - 1);
    }
}

proof fn lemma_first_holders_cover(kind: KeyKind, files: Seq<LinkFacts>, n: int, q: int)
    requires
        0 <= q < n <= files.len(),
        key_of(kind, files[q]) is Some,
    ensures
        exists|g: int|
            0 <= g < first_holders(kind, files, n).len() && key_of(
                kind,
                files[#[trigger] first_holders(kind, files, n)[g]],
            ) == key_of(kind, files[q]),
    decreases n,
{
    let f = first_holders(kind, files, n - 1);
    let k = key_of(kind, files[n - 1]);
    if q < n - 1 {
        lemma_first_holders_cover(kind, files, n - 1, q);
        let g = choose|g: int| 0 <= g < f.len() && key_of(kind, files[#[trigger] f[g]]) == key_of(kind, files[q]);
        assert(first_holders(kind, files, n)[g] == f[g]);
    } else {
        let key = k.unwrap();
        let h = holders(kind, files, key, n - 1);
        if h.len() > 0 {
            lemma_holders(kind, files, key, n - 1);
            assert(h.contains(h[0]));
            let p = h[0];
            lemma_first_holders_cover(kind, files, n - 1, p);
            let g = choose|g: int| 0 <= g < f.len() && key_of(kind, files[#[trigger] f[g]]) == key_of(kind, files[p]);
            assert(first_holders(kind, files, n)[g] == f[g]);
        } else {
            assert(first_holders(kind, files, n)[f.len() as int] == n - 1);
        }
    }
}

/// The kind and wording of the links a grouping by `kk` makes for `key`.
pub open spec fn group_link(kk: KeyKind, lang: Lang, key: KeyView) -> (LinkKind, Seq<char>) {
    if kk == KeyKind::Partial {
        (LinkKind::SameBytes, same_bytes_text(lang))
    } else if kk == KeyKind::Pixels {
        (LinkKind::SamePixels, same_pixels_text(lang))
    } else {
        (
            LinkKind::XmpSibling,
            pick(lang, "общий OriginalDocumentID = "@, "shared OriginalDocumentID = "@) + match key {
                KeyView::Text(t) => t,
                _ => Seq::empty(),
            },
        )
    }
}

proof fn lemma_hash_groups_contain(kk: KeyKind, files: Seq<LinkFacts>, g: int, lang: Lang, g2: int, w: int)
    requires
        kk == KeyKind::Partial || kk == KeyKind::Pixels || kk == KeyKind::Orig,
        0 <= g2 < g <= first_holders(kk, files, files.len() as int).len(),
        ({
            let n = files.len() as int;
            let rep = first_holders(kk, files, n)[g2];
            let h = holders(kk, files, key_of(kk, files[rep]).unwrap(), n);
            0 <= w < h.len() - 1
        }),
    ensures
        ({
            let n = files.len() as int;
            let rep = first_holders(kk, files, n)[g2];
            let key = key_of(kk, files[rep]).unwrap();
            let h = holders(kk, files, key, n);
            neighbour_links(kk, files, g, lang).contains(
                window_links(h, group_link(kk, lang, key).0, group_link(kk, lang, key).1)[w],
            )
        }),
    decreases g,
{
    let n = files.len() as int;
    let rep = first_holders(kk, files, n)[g2];
    let key = key_of(kk, files[rep]).unwrap();
    let h = holders(kk, files, key, n);
    let x = window_links(h, group_link(kk, lang, key).0, group_link(kk, lang, key).1)[w];
    let prev = neighbour_links(kk, files, g - 1, lang);
    let rep2 = first_holders(kk, files, n)[g - 1];
    let key2 = key_of(kk, files[rep2]).unwrap();
    let here = window_links(
        holders(kk, files, key2, n),
        group_link(kk, lang, key2).0,
        group_link(kk, lang, key2).1,
    );
    assert(neighbour_links(kk, files, g, lang) == prev + here);
    if g2 < g - 1 {
        lemma_hash_groups_contain(kk, files, g - 1, lang, g2, w);
        let k = choose|k: int| 0 <= k < prev.len() && prev[k] == x;
        assert((prev + here)[k] == x);
    } else {
        assert((prev + here)[prev.len() + w] == x);
    }
}

/// Two holders of one key with none between them are linked by the
/// grouping of that key.
proof fn lemma_next_holder_linked(kk: KeyKind, files: Seq<LinkFacts>, lang: Lang, i: int, j: int)
    requires
        kk == KeyKind::Partial || kk == KeyKind::Pixels || kk == KeyKind::Orig,
        0 <= i < j < files.len(),
        key_of(kk, files[i]) is Some,
        key_of(kk, files[j]) == key_of(kk, files[i]),
        forall|k: int| i < k < j ==> #[trigger] key_of(kk, files[k]) != key_of(kk, files[i]),
    ensures
        ({
            let key = key_of(kk, files[i]).unwrap();
            neighbour_links(kk, files, first_holders(kk, files, files.len() as int).len() as int, lang).contains(
                LinkView {
                    a: i as usize,
                    b: j as usize,
                    kind: group_link(kk, lang, key).0,
                    detail: group_link(kk, lang, key).1,
                },
            )
        }),
{
    let n = files.len() as int;
    let key = key_of(kk, files[i]).unwrap();
    let h = holders(kk, files, key, n);
    lemma_holders(kk, files, key, n);
    assert(h.contains(i));
    assert(h.contains(j));
    let w = choose|w: int| 0 <= w < h.len() && h[w] == i;
    let wj = choose|w: int| 0 <= w < h.len() && h[w] == j;
    if wj < w {
        lemma_holders_increasing(kk, files, key, n, wj, w);
    }
    assert(wj > w);
    if w + 1 < wj {
        lemma_holders_increasing(kk, files, key, n, w, w + 1);
        lemma_holders_increasing(kk, files, key, n, w + 1, wj);
        assert(h.contains(h[w + 1]));
        let m = h[w + 1];
        assert(key_of(kk, files[m]) == key_of(kk, files[i]));
    }
    assert(h[w + 1] == j);
    let x = LinkView {
        a: i as usize,
        b: j as usize,
        kind: group_link(kk, lang, key).0,
        detail: group_link(kk, lang, key).1,
    };
    assert(window_links(h, group_link(kk, lang, key).0, group_link(kk, lang, key).1)[w] == x);
    lemma_first_holders_cover(kk, files, n, i);
    lemma_first_holders_basic(kk, files, n);
    let fh = first_holders(kk, files, n);
    let g = choose|g: int| 0 <= g < fh.len() && key_of(kk, files[#[trigger] fh[g]]) == key_of(kk, files[i]);
    assert(key_of(kk, files[fh[g]]).unwrap() == key);
    lemma_hash_groups_contain(kk, files, fh.len() as int, lang, g, w);
}

/// Files with identical pixels are linked: for two files whose pixel hashes
/// are both known and equal, with no file between them holding that hash,
/// the links name the first and the second as the same pixels, in `lang`.
/// So every file with a pixel hash is chained to every other holding it.
pub proof fn law_identical_pixels_are_linked(files: Seq<LinkFacts>, lang: Lang, i: int, j: int)
    requires
        0 <= i < j < files.len(),
        files[i].pixel_hash is Some,
        files[j].pixel_hash is Some,
        files[i].pixel_hash.unwrap()@ == files[j].pixel_hash.unwrap()@,
        forall|k: int|
            i < k < j ==> !(#[trigger] files[k].pixel_hash is Some && files[k].pixel_hash.unwrap()@
                == files[i].pixel_hash.unwrap()@),
    ensures
        links_spec(files, lang).contains(
            LinkView { a: i as usize, b: j as usize, kind: LinkKind::SamePixels, detail: same_pixels_text(lang) },
        ),
{
    let n = files.len() as int;
    let kk = KeyKind::Pixels;
    assert forall|k: int| i < k < j implies #[trigger] key_of(kk, files[k]) != key_of(kk, files[i]) by {
        if key_of(kk, files[k]) == key_of(kk, files[i]) {
            assert(files[k].pixel_hash is Some);
        }
    }
    lemma_next_holder_linked(kk, files, lang, i, j);
    let x = LinkView { a: i as usize, b: j as usize, kind: LinkKind::SamePixels, detail: same_pixels_text(lang) };
    let a = neighbour_links(KeyKind::Partial, files, first_holders(KeyKind::Partial, files, n).len() as int, lang);
    let b = neighbour_links(kk, files, first_holders(kk, files, n).len() as int, lang);
    let k = choose|k: int| 0 <= k < b.len() && b[k] == x;
    let all = links_spec(files, lang);
    assert(all[a.len() + k] == x);
}

/// Files with the same bytes are linked: for two files whose partial hashes
/// (size and the bytes at both ends) are both known and equal, with no file
/// between them holding that hash, the links name the first and the second
/// as the same bytes, in `lang`.
pub proof fn law_identical_bytes_are_linked(files: Seq<LinkFacts>, lang: Lang, i: int, j: int)
    requires
        0 <= i < j < files.len(),
        files[i].partial_hash is Some,
        files[j].partial_hash is Some,
        files[i].partial_hash.unwrap()@ == files[j].partial_hash.unwrap()@,
        forall|k: int|
            i < k < j ==> !(#[trigger] files[k].partial_hash is Some && files[k].partial_hash.unwrap()@
                == files[i].partial_hash.unwrap()@),
    ensures
        links_spec(files, lang).contains(
            LinkView { a: i as usize, b: j as usize, kind: LinkKind::SameBytes, detail: same_bytes_text(lang) },
        ),
{
    let kk = KeyKind::Partial;
    assert forall|k: int| i < k < j implies #[trigger] key_of(kk, files[k]) != key_of(kk, files[i]) by {
        if key_of(kk, files[k]) == key_of(kk, files[i]) {
            assert(files[k].partial_hash is Some);
        }
    }
    lemma_next_holder_linked(kk, files, lang, i, j);
    let x = LinkView { a: i as usize, b: j as usize, kind: LinkKind::SameBytes, detail: same_bytes_text(lang) };
    let a = neighbour_links(kk, files, first_holders(kk, files, files.len() as int).len() as int, lang);
    let k = choose|k: int| 0 <= k < a.len() && a[k] == x;
    let all = links_spec(files, lang);
    assert(all[k] == x);
}

/// Siblings of one original are linked: for two files naming the same
/// original document, with no file between them naming it, the links name
/// the first and the second as siblings, with the shared id, in `lang`.
pub proof fn law_siblings_of_one_original_are_linked(files: Seq<LinkFacts>, lang: Lang, i: int, j: int)
    requires
        0 <= i < j < files.len(),
        files[i].orig_doc_id is Some,
        files[j].orig_doc_id is Some,
        files[i].orig_doc_id.unwrap()@ == files[j].orig_doc_id.unwrap()@,
        forall|k: int|
            i < k < j ==> !(#[trigger] files[k].orig_doc_id is Some && files[k].orig_doc_id.unwrap()@
                == files[i].orig_doc_id.unwrap()@),
    ensures
        links_spec(files, lang).contains(
            LinkView {
                a: i as usize,
                b: j as usize,
                kind: LinkKind::XmpSibling,
                detail: pick(lang, "общий OriginalDocumentID = "@, "shared OriginalDocumentID = "@)
                    + files[i].orig_doc_id.unwrap()@,
            },
        ),
{
    let n = files.len() as int;
    let kk = KeyKind::Orig;
    assert forall|k: int| i < k < j implies #[trigger] key_of(kk, files[k]) != key_of(kk, files[i]) by {
        if key_of(kk, files[k]) == key_of(kk, files[i]) {
            assert(files[k].orig_doc_id is Some);
        }
    }
    lemma_next_holder_linked(kk, files, lang, i, j);
    let x = LinkView {
        a: i as usize,
        b: j as usize,
        kind: LinkKind::XmpSibling,
        detail: pick(lang, "общий OriginalDocumentID = "@, "shared OriginalDocumentID = "@)
            + files[i].orig_doc_id.unwrap()@,
    };
    let p1 = neighbour_links(KeyKind::Partial, files, first_holders(KeyKind::Partial, files, n).len() as int, lang);
    let p2 = neighbour_links(KeyKind::Pixels, files, first_holders(KeyKind::Pixels, files, n).len() as int, lang);
    let p3 = dng_upto(files, n);
    let p4 = derived_upto(files, n);
    let e = neighbour_links(kk, files, first_holders(kk, files, n).len() as int, lang);
    let k = choose|k: int| 0 <= k < e.len() && e[k] == x;
    let all = links_spec(files, lang);
    assert(all == p1 + p2 + p3 + p4 + e + pairs_upto(files, first_holders(KeyKind::DirStem, files, n).len() as int, lang));
    assert(all[p1.len() + p2.len() + p3.len() + p4.len() + k] == x);
}

proof fn lemma_links_from_has(i: int, c: Seq<int>, kind: LinkKind, detail: Seq<char>, m: int, q: int)
    requires
        0 <= q < m <= c.len(),
        c[q] != i,
    ensures
        links_from(i, c, kind, detail, m).contains(LinkView { a: i as usize, b: c[q] as usize, kind, detail }),
    decreases m,
{
    let x = LinkView { a: i as usize, b: c[q] as usize, kind, detail };
    let prev = links_from(i, c, kind, detail, m - 1);
    if q < m - 1 {
        lemma_links_from_has(i, c, kind, detail, m - 1, q);
        let k = choose|k: int| 0 <= k < prev.len() && prev[k] == x;
        if c[m - 1] != i {
            assert(prev.push(LinkView { a: i as usize, b: c[m - 1] as usize, kind, detail })[k] == x);
        }
    } else {
        assert(prev.push(x)[prev.len() as int] == x);
    }
}

proof fn lemma_upto_has_dng(files: Seq<LinkFacts>, m: int, i: int, x: LinkView)
    requires
        0 <= i < m,
        dng_links(files, i).contains(x),
    ensures
        dng_upto(files, m).contains(x),
    decreases m,
{
    let prev = dng_upto(files, m - 1);
    let here = dng_links(files, m - 1);
    if i < m - 1 {
        lemma_upto_has_dng(files, m - 1, i, x);
        let k = choose|k: int| 0 <= k < prev.len() && prev[k] == x;
        assert((prev + here)[k] == x);
    } else {
        let k = choose|k: int| 0 <= k < here.len() && here[k] == x;
        assert((prev + here)[prev.len() + k] == x);
    }
}

proof fn lemma_upto_has_derived(files: Seq<LinkFacts>, m: int, i: int, x: LinkView)
    requires
        0 <= i < m,
        derived_links(files, i).contains(x),
    ensures
        derived_upto(files, m).contains(x),
    decreases m,
{
    let prev = derived_upto(files, m - 1);
    let here = derived_links(files, m - 1);
    if i < m - 1 {
        lemma_upto_has_derived(files, m - 1, i, x);
        let k = choose|k: int| 0 <= k < prev.len() && prev[k] == x;
        assert((prev + here)[k] == x);
    } else {
        let k = choose|k: int| 0 <= k < here.len() && here[k] == x;
        assert((prev + here)[prev.len() + k] == x);
    }
}

/// A derivation is linked to its parent: a file that names, as what it was
/// derived from, the document id of another file is linked to that file,
/// with the id it named.
pub proof fn law_a_derivation_is_linked_to_its_parent(files: Seq<LinkFacts>, lang: Lang, i: int, j: int)
    requires
        0 <= i < files.len(),
        0 <= j < files.len(),
        i != j,
        files[i].derived_from is Some,
        files[j].doc_id is Some,
        files[j].doc_id.unwrap()@ == files[i].derived_from.unwrap()@,
    ensures
        links_spec(files, lang).contains(
            LinkView {
                a: i as usize,
                b: j as usize,
                kind: LinkKind::XmpDerived,
                detail: "xmpMM:DerivedFrom = "@ + files[i].derived_from.unwrap()@,
            },
        ),
{
    let n = files.len() as int;
    let p = files[i].derived_from.unwrap();
    let c = holders(KeyKind::Doc, files, KeyView::Text(p@), n);
    lemma_holders(KeyKind::Doc, files, KeyView::Text(p@), n);
    assert(c.contains(j));
    let q = choose|q: int| 0 <= q < c.len() && c[q] == j;
    let detail = "xmpMM:DerivedFrom = "@ + p@;
    lemma_links_from_has(i, c, LinkKind::XmpDerived, detail, c.len() as int, q);
    let x = LinkView { a: i as usize, b: j as usize, kind: LinkKind::XmpDerived, detail };
    lemma_upto_has_derived(files, n, i, x);
    let p1 = neighbour_links(KeyKind::Partial, files, first_holders(KeyKind::Partial, files, n).len() as int, lang);
    let p2 = neighbour_links(KeyKind::Pixels, files, first_holders(KeyKind::Pixels, files, n).len() as int, lang);
    let p3 = dng_upto(files, n);
    let p4 = derived_upto(files, n);
    let k = choose|k: int| 0 <= k < p4.len() && p4[k] == x;
    let all = links_spec(files, lang);
    assert(all[p1.len() + p2.len() + p3.len() + k] == x);
}

/// A conversion is linked to its raw: a file that names the raw it was
/// converted from is linked to every other file in its own directory whose
/// name has that raw's stem (letter case aside), and, when its directory
/// holds none, to every such file anywhere.
pub proof fn law_a_conversion_is_linked_to_its_raw(files: Seq<LinkFacts>, lang: Lang, i: int, j: int)
    requires
        0 <= i < files.len(),
        0 <= j < files.len(),
        i != j,
        files[i].dng_original_raw is Some,
        lowercase(stem_of(files[j].name@)) == lowercase(stem_of(files[i].dng_original_raw.unwrap()@)),
        files[j].dir@ == files[i].dir@ || !exists|k: int|
            0 <= k < files.len() && #[trigger] files[k].dir@ == files[i].dir@ && lowercase(
                stem_of(files[k].name@),
            ) == lowercase(stem_of(files[i].dng_original_raw.unwrap()@)),
    ensures
        links_spec(files, lang).contains(
            LinkView {
                a: i as usize,
                b: j as usize,
                kind: LinkKind::DngConversion,
                detail: "OriginalRawFileName = "@ + files[i].dng_original_raw.unwrap()@,
            },
        ),
{
    let n = files.len() as int;
    let orig = files[i].dng_original_raw.unwrap();
    let want = lowercase(stem_of(orig@));
    let hk = KeyView::Pair(files[i].dir@, want);
    let sk = KeyView::Text(want);
    let here = holders(KeyKind::DirStem, files, hk, n);
    lemma_holders(KeyKind::DirStem, files, hk, n);
    lemma_holders(KeyKind::Stem, files, sk, n);
    let c = if here.len() > 0 {
        here
    } else {
        holders(KeyKind::Stem, files, sk, n)
    };
    if here.len() > 0 {
        assert(here.contains(here[0]));
        let k = here[0];
        assert(files[k].dir@ == files[i].dir@);
        assert(files[j].dir@ == files[i].dir@);
        assert(c.contains(j));
    } else {
        if files[j].dir@ == files[i].dir@ {
            assert(here.contains(j));
        }
        assert(c.contains(j));
    }
    let q = choose|q: int| 0 <= q < c.len() && c[q] == j;
    let detail = "OriginalRawFileName = "@ + orig@;
    lemma_links_from_has(i, c, LinkKind::DngConversion, detail, c.len() as int, q);
    let x = LinkView { a: i as usize, b: j as usize, kind: LinkKind::DngConversion, detail };
    assert(dng_links(files, i) == links_from(i, c, LinkKind::DngConversion, detail, c.len() as int));
    lemma_upto_has_dng(files, n, i, x);
    let p1 = neighbour_links(KeyKind::Partial, files, first_holders(KeyKind::Partial, files, n).len() as int, lang);
    let p2 = neighbour_links(KeyKind::Pixels, files, first_holders(KeyKind::Pixels, files, n).len() as int, lang);
    let p3 = dng_upto(files, n);
    let k = choose|k: int| 0 <= k < p3.len() && p3[k] == x;
    let all = links_spec(files, lang);
    assert(all[p1.len() + p2.len() + k] == x);
}

/// The link a camera pair makes, from `i` to `j`.
pub open spec fn pair_link(files: Seq<LinkFacts>, lang: Lang, i: int, j: int) -> LinkView {
    LinkView {
        a: i as usize,
        b: j as usize,
        kind: LinkKind::RawJpegPair,
        detail: pick(lang, "одно имя "@, "same name "@) + stem_of(files[i].name@) + pick(
            lang,
            " и один момент съёмки"@,
            " and the same moment"@,
        ),
    }
}

proof fn lemma_pairs_after_has(files: Seq<LinkFacts>, h: Seq<int>, pos: int, q: int, lang: Lang, r: int)
    requires
        0 <= pos < r < q <= h.len(),
        camera_pair(files[h[pos]], files[h[r]]),
    ensures
        pairs_after(files, h, pos, q, lang).contains(pair_link(files, lang, h[pos], h[r])),
    decreases q - pos,
{
    let x = pair_link(files, lang, h[pos], h[r]);
    let prev = pairs_after(files, h, pos, q - 1, lang);
    if r < q - 1 {
        lemma_pairs_after_has(files, h, pos, q - 1, lang, r);
        let k = choose|k: int| 0 <= k < prev.len() && prev[k] == x;
        if camera_pair(files[h[pos]], files[h[q - 1]]) {
            assert(prev.push(pair_link(files, lang, h[pos], h[q - 1]))[k] == x);
        }
    } else {
        assert(prev.push(x)[prev.len() as int] == x);
    }
}

proof fn lemma_pairs_in_has(files: Seq<LinkFacts>, h: Seq<int>, p: int, lang: Lang, pos: int, r: int)
    requires
        0 <= pos < p <= h.len(),
        pos < r < h.len(),
        camera_pair(files[h[pos]], files[h[r]]),
    ensures
        pairs_in(files, h, p, lang).contains(pair_link(files, lang, h[pos], h[r])),
    decreases p,
{
    let x = pair_link(files, lang, h[pos], h[r]);
    let prev = pairs_in(files, h, p - 1, lang);
    let here = pairs_after(files, h, p - 1, h.len() as int, lang);
    if pos < p - 1 {
        lemma_pairs_in_has(files, h, p - 1, lang, pos, r);
        let k = choose|k: int| 0 <= k < prev.len() && prev[k] == x;
        assert((prev + here)[k] == x);
    } else {
        lemma_pairs_after_has(files, h, pos, h.len() as int, lang, r);
        let k = choose|k: int| 0 <= k < here.len() && here[k] == x;
        assert((prev + here)[prev.len() + k] == x);
    }
}

proof fn lemma_pairs_upto_has(files: Seq<LinkFacts>, g: int, lang: Lang, g2: int, pos: int, r: int)
    requires
        0 <= g2 < g <= first_holders(KeyKind::DirStem, files, files.len() as int).len(),
        ({
            let n = files.len() as int;
            let rep = first_holders(KeyKind::DirStem, files, n)[g2];
            let h = holders(KeyKind::DirStem, files, key_of(KeyKind::DirStem, files[rep]).unwrap(), n);
            0 <= pos < r < h.len() && camera_pair(files[h[pos]], files[h[r]])
        }),
    ensures
        ({
            let n = files.len() as int;
            let rep = first_holders(KeyKind::DirStem, files, n)[g2];
            let h = holders(KeyKind::DirStem, files, key_of(KeyKind::DirStem, files[rep]).unwrap(), n);
            pairs_upto(files, g, lang).contains(pair_link(files, lang, h[pos], h[r]))
        }),
    decreases g,
{
    let n = files.len() as int;
    let rep = first_holders(KeyKind::DirStem, files, n)[g2];
    let h = holders(KeyKind::DirStem, files, key_of(KeyKind::DirStem, files[rep]).unwrap(), n);
    let x = pair_link(files, lang, h[pos], h[r]);
    let prev = pairs_upto(files, g - 1, lang);
    let rep2 = first_holders(KeyKind::DirStem, files, n)[g - 1];
    let h2 = holders(KeyKind::DirStem, files, key_of(KeyKind::DirStem, files[rep2]).unwrap(), n);
    let here = if h2.len() > 1 {
        pairs_in(files, h2, h2.len() as int, lang)
    } else {
        Seq::empty()
    };
    assert(pairs_upto(files, g, lang) == prev + here);
    if g2 < g - 1 {
        lemma_pairs_upto_has(files, g - 1, lang, g2, pos, r);
        let k = choose|k: int| 0 <= k < prev.len() && prev[k] == x;
        assert((prev + here)[k] == x);
    } else {
        lemma_pairs_in_has(files, h, h.len() as int, lang, pos, r);
        let k = choose|k: int| 0 <= k < here.len() && here[k] == x;
        assert((prev + here)[prev.len() + k] == x);
    }
}

/// A camera's raw and the JPEG it wrote beside it are linked: two files in
/// one directory with one name stem (letter case aside), of different
/// containers, taken by the same body within two seconds of each other (or
/// both without a date), are linked as a pair, the earlier file first.
pub proof fn law_a_raw_and_its_jpeg_are_paired(files: Seq<LinkFacts>, lang: Lang, i: int, j: int)
    requires
        0 <= i < j < files.len(),
        files[i].dir@ == files[j].dir@,
        lowercase(stem_of(files[i].name@)) == lowercase(stem_of(files[j].name@)),
        camera_pair(files[i], files[j]),
    ensures
        links_spec(files, lang).contains(pair_link(files, lang, i, j)),
{
    let n = files.len() as int;
    let kk = KeyKind::DirStem;
    let key = key_of(kk, files[i]).unwrap();
    let h = holders(kk, files, key, n);
    lemma_holders(kk, files, key, n);
    assert(h.contains(i));
    assert(h.contains(j));
    let wi = choose|w: int| 0 <= w < h.len() && h[w] == i;
    let wj = choose|w: int| 0 <= w < h.len() && h[w] == j;
    if wj < wi {
        lemma_holders_increasing(kk, files, key, n, wj, wi);
    }
    assert(wi < wj);
    lemma_first_holders_cover(kk, files, n, i);
    lemma_first_holders_basic(kk, files, n);
    let fh = first_holders(kk, files, n);
    let g = choose|g: int| 0 <= g < fh.len() && key_of(kk, files[#[trigger] fh[g]]) == key_of(kk, files[i]);
    assert(key_of(kk, files[fh[g]]).unwrap() == key);
    lemma_pairs_upto_has(files, fh.len() as int, lang, g, wi, wj);
    let x = pair_link(files, lang, i, j);
    let p1 = neighbour_links(KeyKind::Partial, files, first_holders(KeyKind::Partial, files, n).len() as int, lang);
    let p2 = neighbour_links(KeyKind::Pixels, files, first_holders(KeyKind::Pixels, files, n).len() as int, lang);
    let p3 = dng_upto(files, n);
    let p4 = derived_upto(files, n);
    let p5 = neighbour_links(KeyKind::Orig, files, first_holders(KeyKind::Orig, files, n).len() as int, lang);
    let p6 = pairs_upto(files, fh.len() as int, lang);
    let k = choose|k: int| 0 <= k < p6.len() && p6[k] == x;
    let all = links_spec(files, lang);
    assert(all == p1 + p2 + p3 + p4 + p5 + p6);
    assert(all[p1.len() + p2.len() + p3.len() + p4.len() + p5.len() + k] == x);
}

/// The link `x` has the evidence its kind claims: it joins two different
/// files, and by bytes or pixels only files whose hashes agree, by
/// conversion only a file naming a raw to a file of that raw's stem, by
/// derivation only a file to the one whose document id it names, as
/// siblings only files naming one original, as a camera pair only files of
/// one name in one directory that one camera wrote together.
pub open spec fn justified(files: Seq<LinkFacts>, x: LinkView) -> bool {
    let (a, b) = (x.a as int, x.b as int);
    &&& 0 <= a < files.len() && 0 <= b < files.len() && a != b
    &&& match x.kind {
        LinkKind::SameBytes => files[a].partial_hash is Some && files[b].partial_hash is Some
            && files[a].partial_hash.unwrap()@ == files[b].partial_hash.unwrap()@,
        LinkKind::SamePixels => files[a].pixel_hash is Some && files[b].pixel_hash is Some
            && files[a].pixel_hash.unwrap()@ == files[b].pixel_hash.unwrap()@,
        LinkKind::DngConversion => files[a].dng_original_raw is Some && lowercase(stem_of(files[b].name@))
            == lowercase(stem_of(files[a].dng_original_raw.unwrap()@)),
        LinkKind::XmpDerived => files[a].derived_from is Some && files[b].doc_id is Some
            && files[b].doc_id.unwrap()@ == files[a].derived_from.unwrap()@,
        LinkKind::XmpSibling => files[a].orig_doc_id is Some && files[b].orig_doc_id is Some
            && files[a].orig_doc_id.unwrap()@ == files[b].orig_doc_id.unwrap()@,
        LinkKind::RawJpegPair => files[a].dir@ == files[b].dir@ && lowercase(stem_of(files[a].name@))
            == lowercase(stem_of(files[b].name@)) && camera_pair(files[a], files[b]),
        LinkKind::SameShutter => false,
    }
}

/// Every link of `s` is justified.
pub open spec fn all_justified(files: Seq<LinkFacts>, s: Seq<LinkView>) -> bool {
    forall|k: int| 0 <= k < s.len() ==> justified(files, #[trigger] s[k])
}

proof fn lemma_concat_justified(files: Seq<LinkFacts>, s: Seq<LinkView>, t: Seq<LinkView>)
    requires
        all_justified(files, s),
        all_justified(files, t),
    ensures
        all_justified(files, s + t),
{
    assert forall|k: int| 0 <= k < (s + t).len() implies justified(files, #[trigger] (s + t)[k]) by {
        if k < s.len() {
            assert((s + t)[k] == s[k]);
        } else {
            assert((s + t)[k] == t[k - s.len()]);
        }
    }
}

proof fn lemma_neighbours_justified(kk: KeyKind, files: Seq<LinkFacts>, g: int, lang: Lang)
    requires
        kk == KeyKind::Partial || kk == KeyKind::Pixels || kk == KeyKind::Orig,
        files.len() <= usize::MAX,
        0 <= g <= first_holders(kk, files, files.len() as int).len(),
    ensures
        all_justified(files, neighbour_links(kk, files, g, lang)),
    decreases g,
{
    if g > 0 {
        let n = files.len() as int;
        lemma_neighbours_justified(kk, files, g - 1, lang);
        lemma_first_holders_basic(kk, files, n);
        let rep = first_holders(kk, files, n)[g - 1];
        let key = key_of(kk, files[rep]).unwrap();
        let h = holders(kk, files, key, n);
        lemma_holders(kk, files, key, n);
        let wl = window_links(h, group_link(kk, lang, key).0, group_link(kk, lang, key).1);
        assert forall|w: int| 0 <= w < wl.len() implies justified(files, #[trigger] wl[w]) by {
            assert(h.contains(h[w]) && h.contains(h[w + 1]));
            lemma_holders_increasing(kk, files, key, n, w, w + 1);
            let (a, b) = (h[w], h[w + 1]);
            assert(key_of(kk, files[a]) == Some(key) && key_of(kk, files[b]) == Some(key));
        }
        lemma_concat_justified(files, neighbour_links(kk, files, g - 1, lang), wl);
    }
}

proof fn lemma_links_from_only(i: int, c: Seq<int>, kind: LinkKind, detail: Seq<char>, m: int)
    requires
        0 <= m <= c.len(),
    ensures
        forall|k: int|
            0 <= k < links_from(i, c, kind, detail, m).len() ==> exists|q: int|
                0 <= q < m && c[q] != i && #[trigger] links_from(i, c, kind, detail, m)[k] == (LinkView {
                    a: i as usize,
                    b: c[q] as usize,
                    kind,
                    detail,
                }),
    decreases m,
{
    if m > 0 {
        lemma_links_from_only(i, c, kind, detail, m - 1);
        let prev = links_from(i, c, kind, detail, m - 1);
        let cur = links_from(i, c, kind, detail, m);
        assert forall|k: int| 0 <= k < cur.len() implies exists|q: int|
            0 <= q < m && c[q] != i && #[trigger] cur[k] == (LinkView { a: i as usize, b: c[q] as usize, kind, detail }) by {
            if k < prev.len() {
                assert(cur[k] == prev[k]);
                let q = choose|q: int|
                    0 <= q < m - 1 && c[q] != i && #[trigger] prev[k] == (LinkView {
                        a: i as usize,
                        b: c[q] as usize,
                        kind,
                        detail,
                    });
                assert(cur[k] == (LinkView { a: i as usize, b: c[q] as usize, kind, detail }));
            } else {
                assert(cur[k] == (LinkView { a: i as usize, b: c[m - 1] as usize, kind, detail }));
            }
        }
    }
}

proof fn lemma_dng_justified(files: Seq<LinkFacts>, m: int)
    requires
        0 <= m <= files.len(),
        files.len() <= usize::MAX,
    ensures
        all_justified(files, dng_upto(files, m)),
    decreases m,
{
    if m > 0 {
        lemma_dng_justified(files, m - 1);
        let i = m - 1;
        let n = files.len() as int;
        let here = dng_links(files, i);
        match files[i].dng_original_raw {
            None => {},
            Some(orig) => {
                let want = lowercase(stem_of(orig@));
                let hk = KeyView::Pair(files[i].dir@, want);
                let sk = KeyView::Text(want);
                lemma_holders(KeyKind::DirStem, files, hk, n);
                lemma_holders(KeyKind::Stem, files, sk, n);
                let hh = holders(KeyKind::DirStem, files, hk, n);
                let c = if hh.len() > 0 { hh } else { holders(KeyKind::Stem, files, sk, n) };
                let detail = "OriginalRawFileName = "@ + orig@;
                lemma_links_from_only(i, c, LinkKind::DngConversion, detail, c.len() as int);
                assert forall|k: int| 0 <= k < here.len() implies justified(files, #[trigger] here[k]) by {
                    let q = choose|q: int|
                        0 <= q < c.len() && c[q] != i && #[trigger] here[k] == (LinkView {
                            a: i as usize,
                            b: c[q] as usize,
                            kind: LinkKind::DngConversion,
                            detail,
                        });
                    assert(c.contains(c[q]));
                }
            },
        }
        lemma_concat_justified(files, dng_upto(files, m - 1), here);
    }
}

proof fn lemma_derived_justified(files: Seq<LinkFacts>, m: int)
    requires
        0 <= m <= files.len(),
        files.len() <= usize::MAX,
    ensures
        all_justified(files, derived_upto(files, m)),
    decreases m,
{
    if m > 0 {
        lemma_derived_justified(files, m - 1);
        let i = m - 1;
        let n = files.len() as int;
        let here = derived_links(files, i);
        match files[i].derived_from {
            None => {},
            Some(p) => {
                let c = holders(KeyKind::Doc, files, KeyView::Text(p@), n);
                lemma_holders(KeyKind::Doc, files, KeyView::Text(p@), n);
                let detail = "xmpMM:DerivedFrom = "@ + p@;
                lemma_links_from_only(i, c, LinkKind::XmpDerived, detail, c.len() as int);
                assert forall|k: int| 0 <= k < here.len() implies justified(files, #[trigger] here[k]) by {
                    let q = choose|q: int|
                        0 <= q < c.len() && c[q] != i && #[trigger] here[k] == (LinkView {
                            a: i as usize,
                            b: c[q] as usize,
                            kind: LinkKind::XmpDerived,
                            detail,
                        });
                    assert(c.contains(c[q]));
                }
            },
        }
        lemma_concat_justified(files, derived_upto(files, m - 1), here);
    }
}

proof fn lemma_pairs_after_justified(files: Seq<LinkFacts>, h: Seq<int>, pos: int, q: int, lang: Lang)
    requires
        files.len() <= usize::MAX,
        0 <= pos < h.len(),
        q <= h.len(),
        forall|k: int| 0 <= k < h.len() ==> 0 <= #[trigger] h[k] < files.len(),
        forall|k: int| 0 <= k < h.len() ==> key_of(KeyKind::DirStem, #[trigger] files[h[k]]) == key_of(
            KeyKind::DirStem,
            files[h[pos]],
        ),
        forall|k: int, l: int| 0 <= k < l < h.len() ==> #[trigger] h[k] < #[trigger] h[l],
    ensures
        all_justified(files, pairs_after(files, h, pos, q, lang)),
    decreases q - pos,
{
    if q > pos + 1 {
        lemma_pairs_after_justified(files, h, pos, q - 1, lang);
        let prev = pairs_after(files, h, pos, q - 1, lang);
        let (i, j) = (h[pos], h[q - 1]);
        if camera_pair(files[i], files[j]) {
            let x = pair_link(files, lang, i, j);
            assert(key_of(KeyKind::DirStem, files[j]) == key_of(KeyKind::DirStem, files[i]));
            assert(justified(files, x));
            assert forall|k: int| 0 <= k < prev.push(x).len() implies justified(files, #[trigger] prev.push(x)[k]) by {
                if k < prev.len() {
                    assert(prev.push(x)[k] == prev[k]);
                }
            }
        }
    }
}

proof fn lemma_pairs_in_justified(files: Seq<LinkFacts>, h: Seq<int>, p: int, lang: Lang)
    requires
        files.len() <= usize::MAX,
        0 <= p <= h.len(),
        forall|k: int| 0 <= k < h.len() ==> 0 <= #[trigger] h[k] < files.len(),
        forall|k: int, l: int|
            0 <= k < h.len() && 0 <= l < h.len() ==> key_of(KeyKind::DirStem, #[trigger] files[h[k]])
                == key_of(KeyKind::DirStem, #[trigger] files[h[l]]),
        forall|k: int, l: int| 0 <= k < l < h.len() ==> #[trigger] h[k] < #[trigger] h[l],
    ensures
        all_justified(files, pairs_in(files, h, p, lang)),
    decreases p,
{
    if p > 0 {
        lemma_pairs_in_justified(files, h, p - 1, lang);
        assert forall|k: int| 0 <= k < h.len() implies key_of(KeyKind::DirStem, #[trigger] files[h[k]])
            == key_of(KeyKind::DirStem, files[h[p - 1]]) by {
            assert(key_of(KeyKind::DirStem, files[h[k]]) == key_of(KeyKind::DirStem, files[h[p - 1]]));
        }
        lemma_pairs_after_justified(files, h, p - 1, h.len() as int, lang);
        lemma_concat_justified(files, pairs_in(files, h, p - 1, lang), pairs_after(files, h, p - 1, h.len() as int, lang));
    }
}

proof fn lemma_pairs_upto_justified(files: Seq<LinkFacts>, g: int, lang: Lang)
    requires
        files.len() <= usize::MAX,
        0 <= g <= first_holders(KeyKind::DirStem, files, files.len() as int).len(),
    ensures
        all_justified(files, pairs_upto(files, g, lang)),
    decreases g,
{
    if g > 0 {
        let n = files.len() as int;
        let kk = KeyKind::DirStem;
        lemma_pairs_upto_justified(files, g - 1, lang);
        lemma_first_holders_basic(kk, files, n);
        let rep = first_holders(kk, files, n)[g - 1];
        let key = key_of(kk, files[rep]).unwrap();
        let h = holders(kk, files, key, n);
        lemma_holders(kk, files, key, n);
        if h.len() > 1 {
            assert forall|k: int| 0 <= k < h.len() implies 0 <= #[trigger] h[k] < files.len() by {}
            assert forall|k: int, l: int|
                0 <= k < h.len() && 0 <= l < h.len() implies key_of(kk, #[trigger] files[h[k]]) == key_of(
                kk,
                #[trigger] files[h[l]],
            ) by {
                assert(h.contains(h[k]) && h.contains(h[l]));
            }
            assert forall|k: int, l: int| 0 <= k < l < h.len() implies #[trigger] h[k] < #[trigger] h[l] by {
                lemma_holders_increasing(kk, files, key, n, k, l);
            }
            lemma_pairs_in_justified(files, h, h.len() as int, lang);
            lemma_concat_justified(files, pairs_upto(files, g - 1, lang), pairs_in(files, h, h.len() as int, lang));
        } else {
            assert(pairs_upto(files, g, lang) =~= pairs_upto(files, g - 1, lang));
        }
    }
}

/// No link without its evidence: every link found joins two different
/// files, and has the evidence its kind claims (see [`justified`]).
pub proof fn law_every_link_has_its_evidence(files: Seq<LinkFacts>, lang: Lang)
    requires
        files.len() <= usize::MAX,
    ensures
        all_justified(files, links_spec(files, lang)),
{
    let n = files.len() as int;
    lemma_neighbours_justified(KeyKind::Partial, files, first_holders(KeyKind::Partial, files, n).len() as int, lang);
    lemma_neighbours_justified(KeyKind::Pixels, files, first_holders(KeyKind::Pixels, files, n).len() as int, lang);
    lemma_dng_justified(files, n);
    lemma_derived_justified(files, n);
    lemma_neighbours_justified(KeyKind::Orig, files, first_holders(KeyKind::Orig, files, n).len() as int, lang);
    lemma_pairs_upto_justified(files, first_holders(KeyKind::DirStem, files, n).len() as int, lang);
    let p1 = neighbour_links(KeyKind::Partial, files, first_holders(KeyKind::Partial, files, n).len() as int, lang);
    let p2 = neighbour_links(KeyKind::Pixels, files, first_holders(KeyKind::Pixels, files, n).len() as int, lang);
    let p3 = dng_upto(files, n);
    let p4 = derived_upto(files, n);
    let p5 = neighbour_links(KeyKind::Orig, files, first_holders(KeyKind::Orig, files, n).len() as int, lang);
    let p6 = pairs_upto(files, first_holders(KeyKind::DirStem, files, n).len() as int, lang);
    lemma_concat_justified(files, p1, p2);
    lemma_concat_justified(files, p1 + p2, p3);
    lemma_concat_justified(files, p1 + p2 + p3, p4);
    lemma_concat_justified(files, p1 + p2 + p3 + p4, p5);
    lemma_concat_justified(files, p1 + p2 + p3 + p4 + p5, p6);
}

} // verus!
