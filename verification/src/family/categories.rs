//! Kinds of picture, measured rather than recognised.
use vstd::prelude::*;
use vstd::string::*;
use crate::lang::{pick, Lang};
use crate::text::{chars_of, contains_chars, contains_text, decimal, decimal_text, lowercase, str_is, to_lowercase};

verus! {

#[derive(Debug, Clone, Copy, PartialEq, Eq, Structural, PartialOrd, Ord)]
pub enum Category {
    /// A scan, or a photograph of a printed page.
    Document,
    /// A capture of a screen rather than of the world.
    Screenshot,
    /// Nothing on it: a lens cap, a blown frame, an empty scan.
    Blank,
    /// A photograph with no colour in it. Informational, never rubbish.
    Monochrome,
    Photo,
}

impl Category {
    /// The word stored for this category.
    pub open spec fn name(self) -> Seq<char> {
        match self {
            Category::Document => "document"@,
            Category::Screenshot => "screenshot"@,
            Category::Blank => "blank"@,
            Category::Monochrome => "monochrome"@,
            Category::Photo => "photo"@,
        }
    }

    /// The category a stored word names, if any.
    pub open spec fn from_name(s: Seq<char>) -> Option<Category> {
        if s == "document"@ {
            Some(Category::Document)
        } else if s == "screenshot"@ {
            Some(Category::Screenshot)
        } else if s == "blank"@ {
            Some(Category::Blank)
        } else if s == "monochrome"@ {
            Some(Category::Monochrome)
        } else if s == "photo"@ {
            Some(Category::Photo)
        } else {
            None
        }
    }

    pub fn as_str(self) -> (r: &'static str)
        ensures
            r@ == self.name(),
    {
        match self {
            Category::Document => "document",
            Category::Screenshot => "screenshot",
            Category::Blank => "blank",
            Category::Monochrome => "monochrome",
            Category::Photo => "photo",
        }
    }

    /// What the interface calls this category, in `lang`.
    pub open spec fn title(self, lang: Lang) -> Seq<char> {
        match self {
            Category::Document => pick(lang, "Документы и сканы"@, "Documents and scans"@),
            Category::Screenshot => pick(lang, "Скриншоты"@, "Screenshots"@),
            Category::Blank => pick(lang, "Пустые кадры"@, "Empty frames"@),
            Category::Monochrome => pick(lang, "Чёрно-белое"@, "Monochrome"@),
            Category::Photo => pick(lang, "Фотографии"@, "Photographs"@),
        }
    }

    pub fn label(self, lang: Lang) -> (r: &'static str)
        ensures
            r@ == self.title(lang),
    {
        match self {
            Category::Document => lang.say("Документы и сканы", "Documents and scans"),
            Category::Screenshot => lang.say("Скриншоты", "Screenshots"),
            Category::Blank => lang.say("Пустые кадры", "Empty frames"),
            Category::Monochrome => lang.say("Чёрно-белое", "Monochrome"),
            Category::Photo => lang.say("Фотографии", "Photographs"),
        }
    }

    pub fn parse(s: &str) -> (r: Option<Category>)
        ensures
            r == Category::from_name(s@),
    {
        if str_is(s, "document") {
            Some(Category::Document)
        } else if str_is(s, "screenshot") {
            Some(Category::Screenshot)
        } else if str_is(s, "blank") {
            Some(Category::Blank)
        } else if str_is(s, "monochrome") {
            Some(Category::Monochrome)
        } else if str_is(s, "photo") {
            Some(Category::Photo)
        } else {
            None
        }
    }
}

/// The stored word of every category reads back as that category.
pub proof fn law_category_round_trip(c: Category)
    ensures
        Category::from_name(c.name()) == Some(c),
{
    reveal_strlit("document");
    reveal_strlit("screenshot");
    reveal_strlit("blank");
    reveal_strlit("monochrome");
    reveal_strlit("photo");
    assert("document"@.len() == 8);
    assert("screenshot"@.len() == 10);
    assert("blank"@.len() == 5);
    assert("monochrome"@.len() == 10);
    assert("photo"@.len() == 5);
    assert("screenshot"@[0] != "monochrome"@[0]);
    assert("blank"@[0] != "photo"@[0]);
}

/// Exact pixel sizes of common displays and phone screens.
pub open spec fn screen_sizes() -> Seq<(i64, i64)> {
    seq![
        (1920i64, 1080i64),
        (2560, 1440),
        (3840, 2160),
        (1440, 900),
        (1680, 1050),
        (2880, 1800),
        (3024, 1964),
        (3456, 2234),
        (1280, 800),
        (2732, 2048),
        (2388, 1668),
        (2360, 1640),
        (1170, 2532),
        (1179, 2556),
        (1284, 2778),
        (1290, 2796),
        (1125, 2436),
        (750, 1334),
    ]
}

/// A `w`×`h` frame is exactly the screen `s`, held either way round.
pub open spec fn fits_screen(w: i64, h: i64, s: (i64, i64)) -> bool {
    (w == s.0 && h == s.1) || (w == s.1 && h == s.0)
}

/// Whether a frame has the exact size of a common screen, in either orientation.
pub fn matches_screen(w: i64, h: i64) -> (r: bool)
    ensures
        r == exists|k: int| 0 <= k < screen_sizes().len() && fits_screen(w, h, screen_sizes()[k]),
{
    let sizes: [(i64, i64); 18] = [
        (1920, 1080),
        (2560, 1440),
        (3840, 2160),
        (1440, 900),
        (1680, 1050),
        (2880, 1800),
        (3024, 1964),
        (3456, 2234),
        (1280, 800),
        (2732, 2048),
        (2388, 1668),
        (2360, 1640),
        (1170, 2532),
        (1179, 2556),
        (1284, 2778),
        (1290, 2796),
        (1125, 2436),
        (750, 1334),
    ];
    assert(sizes@ =~= screen_sizes());
    let mut k: usize = 0;
    while k < 18
        invariant
            k <= 18,
            sizes@ == screen_sizes(),
            forall|j: int| 0 <= j < k ==> !fits_screen(w, h, screen_sizes()[j]),
        decreases 18 - k,
    {
        let (a, b) = sizes[k];
        if (w == a && h == b) || (w == b && h == a) {
            assert(fits_screen(w, h, screen_sizes()[k as int]));
            return true;
        }
        k = k + 1;
    }
    false
}

/// Names a screenshot tends to carry, in the languages this archive uses,
/// in lower case.
pub open spec fn shot_names() -> Seq<Seq<char>> {
    seq![
        "screenshot"@,
        "screen shot"@,
        "снимок экрана"@,
        "скриншот"@,
        "снимок_экрана"@,
        "captura"@,
    ]
}

/// A name says screenshot: its lower case, by `str::to_lowercase` (which
/// reaches Cyrillic, unlike its ASCII cousin), holds one of [`shot_names`].
pub open spec fn named_shot(name: Seq<char>) -> bool {
    exists|k: int| 0 <= k < shot_names().len() && contains_text(lowercase(name), shot_names()[k])
}

/// The frame has the exact size of a common screen.
pub open spec fn screen_sized(w: i64, h: i64) -> bool {
    exists|k: int| 0 <= k < screen_sizes().len() && fits_screen(w, h, screen_sizes()[k])
}

/// Whether the file name says screenshot.
pub fn named_as_screenshot(name: &str) -> (r: bool)
    ensures
        r == named_shot(name@),
{
    let chars = chars_of(name);
    let lower = to_lowercase(chars.as_slice());
    let l = chars_of(lower.as_str());
    let names: [&str; 6] = ["screenshot", "screen shot", "снимок экрана", "скриншот", "снимок_экрана", "captura"];
    assert(names@.map_values(|t: &str| t@) =~= shot_names());
    let mut k: usize = 0;
    while k < 6
        invariant
            k <= 6,
            l@ == lowercase(name@),
            names@.map_values(|t: &str| t@) == shot_names(),
            forall|j: int| 0 <= j < k ==> !contains_text(lowercase(name@), #[trigger] shot_names()[j]),
        decreases 6 - k,
    {
        let needle = chars_of(names[k]);
        assert(needle@ == shot_names()[k as int]);
        if contains_chars(l.as_slice(), needle.as_slice()) {
            return true;
        }
        k = k + 1;
    }
    false
}

/// How sure a screenshot verdict is.
#[derive(Debug, Clone, Copy, PartialEq, Eq, Structural)]
pub enum ShotCertainty {
    /// Both the name and the size say so.
    Sure,
    /// One of them does.
    Likely,
}

/// What says a frame is a screen grab: its name, or a screen's exact size
/// with no camera behind it.
pub struct ShotVerdict {
    pub certainty: ShotCertainty,
    pub evidence: Vec<String>,
}

/// The evidence for a screenshot, in the order it is given.
pub open spec fn shot_evidence(named: bool, w: i64, h: i64, camera: bool, lang: Lang) -> Seq<
    Seq<char>,
> {
    (if named {
        seq![pick(lang, "имя файла говорит о снимке экрана"@, "the file name says screenshot"@)]
    } else {
        Seq::empty()
    }) + (if screen_sized(w, h) && !camera {
        seq![
            pick(lang, "размер экрана "@, "screen-sized "@) + decimal(w as int) + "×"@ + decimal(
                h as int,
            ) + pick(lang, ", камеры нет"@, ", no camera"@),
        ]
    } else {
        Seq::empty()
    })
}

/// A frame named `name`, `w`×`h` pixels, with or without a camera model,
/// as a screenshot: when its name says so, or it has a screen's exact size
/// and no camera; sure when name and size agree. The evidence is given in
/// `lang`. A blank frame is told apart before this is asked.
pub fn screenshot(name: &str, w: i64, h: i64, has_camera: bool, lang: Lang) -> (r: Option<
    ShotVerdict,
>)
    ensures
        r is Some <==> named_shot(name@) || (screen_sized(w, h) && !has_camera),
        r matches Some(v) ==> v.certainty == (if named_shot(name@) && screen_sized(w, h) {
            ShotCertainty::Sure
        } else {
            ShotCertainty::Likely
        }) && v.evidence@.map_values(|e: String| e@) == shot_evidence(
            named_shot(name@),
            w,
            h,
            has_camera,
            lang,
        ),
{
    let named = named_as_screenshot(name);
    let sized = matches_screen(w, h);
    if !(named || (sized && !has_camera)) {
        return None;
    }
    let mut evidence: Vec<String> = Vec::new();
    if named {
        evidence.push(
            String::from_str(lang.say("имя файла говорит о снимке экрана", "the file name says screenshot")),
        );
    }
    let ghost first = evidence@.map_values(|e: String| e@);
    if sized && !has_camera {
        let mut e = String::from_str(lang.say("размер экрана ", "screen-sized "));
        let ws = decimal_text(w);
        e.append(ws.as_str());
        e.append("×");
        let hs = decimal_text(h);
        e.append(hs.as_str());
        e.append(lang.say(", камеры нет", ", no camera"));
        evidence.push(e);
        assert(evidence@.map_values(|e: String| e@) =~= first + seq![
            pick(lang, "размер экрана "@, "screen-sized "@) + decimal(w as int) + "×"@ + decimal(
                h as int,
            ) + pick(lang, ", камеры нет"@, ", no camera"@),
        ]);
    } else {
        assert(evidence@.map_values(|e: String| e@) =~= first + Seq::<Seq<char>>::empty());
    }
    proof {
        if named {
            assert(first =~= seq![
                pick(lang, "имя файла говорит о снимке экрана"@, "the file name says screenshot"@),
            ]);
        } else {
            assert(first =~= Seq::<Seq<char>>::empty());
        }
    }
    let certainty = if named && sized {
        ShotCertainty::Sure
    } else {
        ShotCertainty::Likely
    };
    Some(ShotVerdict { certainty, evidence })
}

/// How many files were found to be of each category.
#[derive(Debug, Default, Clone, Copy, PartialEq, Eq, Structural)]
pub struct CategoryTally {
    pub document: usize,
    pub screenshot: usize,
    pub blank: usize,
    pub monochrome: usize,
    pub photo: usize,
}

impl CategoryTally {
    /// The count for `c`.
    pub open spec fn of(self, c: Category) -> usize {
        match c {
            Category::Document => self.document,
            Category::Screenshot => self.screenshot,
            Category::Blank => self.blank,
            Category::Monochrome => self.monochrome,
            Category::Photo => self.photo,
        }
    }

    /// The count for `c`.
    pub fn count(&self, c: Category) -> (r: usize)
        ensures
            r == self.of(c),
    {
        match c {
            Category::Document => self.document,
            Category::Screenshot => self.screenshot,
            Category::Blank => self.blank,
            Category::Monochrome => self.monochrome,
            Category::Photo => self.photo,
        }
    }
}

#[derive(Debug, Default)]
pub struct CategorizeReport {
    pub classified: usize,
    pub by_category: CategoryTally,
}

impl CategorizeReport {
    /// One more file was classified, as `c`.
    pub fn record(&mut self, c: Category)
        requires
            old(self).classified < usize::MAX,
            old(self).by_category.of(c) < usize::MAX,
        ensures
            final(self).classified == old(self).classified + 1,
            forall|d: Category| #[trigger] final(self).by_category.of(d) == old(self).by_category.of(d)
                + if d == c {
                1int
            } else {
                0int
            },
    {
        self.classified = self.classified + 1;
        let t = &mut self.by_category;
        match c {
            Category::Document => t.document = t.document + 1,
            Category::Screenshot => t.screenshot = t.screenshot + 1,
            Category::Blank => t.blank = t.blank + 1,
            Category::Monochrome => t.monochrome = t.monochrome + 1,
            Category::Photo => t.photo = t.photo + 1,
        }
    }
}

} // verus!
