//! Metadata: capture dates from EXIF and from file names, and the XMP packet
//! that carries the provenance links.
use vstd::prelude::*;
use crate::sniff::{bytes_at, holds_at};
use crate::text::chars_of;
use vstd::string::*;

pub mod xmp;
pub mod camera;

pub use camera::{read, ImageMeta};
pub use xmp::parse_xmp;

verus! {

/// Where a capture date came from, in descending order of trust.
#[derive(Debug, Clone, Copy, PartialEq, Eq, Structural, Default)]
pub enum DateSource {
    Exif,
    Digitized,
    FileDateTime,
    Filename,
    #[default]
    NoDate,
}

impl DateSource {
    pub open spec fn name(self) -> Seq<char> {
        match self {
            DateSource::Exif => "exif"@,
            DateSource::Digitized => "digitized"@,
            DateSource::FileDateTime => "file-datetime"@,
            DateSource::Filename => "filename"@,
            DateSource::NoDate => "none"@,
        }
    }

    pub fn as_str(self) -> (r: &'static str)
        ensures
            r@ == self.name(),
    {
        match self {
            DateSource::Exif => "exif",
            DateSource::Digitized => "digitized",
            DateSource::FileDateTime => "file-datetime",
            DateSource::Filename => "filename",
            DateSource::NoDate => "none",
        }
    }
}

/// Exact links between a derivative and what it came from.
#[derive(Debug, Clone, Default, PartialEq, Eq)]
pub struct Provenance {
    /// `xmpMM:DocumentID` — identity of this rendition's document.
    pub document_id: Option<String>,
    /// `xmpMM:OriginalDocumentID` — identity of the original it descends from.
    pub original_document_id: Option<String>,
    /// `xmpMM:DerivedFrom` — the immediate parent.
    pub derived_from: Option<String>,
    /// DNG tag 0xC68B: the raw file this DNG was converted from, by name.
    pub dng_original_raw: Option<String>,
}

impl Provenance {
    /// Nothing links this file to another.
    pub fn is_empty(&self) -> (r: bool)
        ensures
            r == (self.document_id is None && self.original_document_id is None
                && self.derived_from is None && self.dng_original_raw is None),
    {
        self.document_id.is_none() && self.original_document_id.is_none()
            && self.derived_from.is_none() && self.dng_original_raw.is_none()
    }
}

// ---------------------------------------------------------------------------
// Calendar arithmetic.

/// Division rounding towards zero, as integer division does in Rust.
pub open spec fn tdiv(a: int, b: int) -> int {
    if a >= 0 {
        a / b
    } else {
        -((-a) / b)
    }
}

/// Days from 1970-01-01 to the given civil date (Howard Hinnant's algorithm).
pub open spec fn civil_days(y: int, m: int, d: int) -> int {
    let y = if m <= 2 {
        y - 1
    } else {
        y
    };
    let era = tdiv(
        if y >= 0 {
            y
        } else {
            y - 399
        },
        400,
    );
    let yoe = y - era * 400;
    let mp = (m + 9) % 12;
    let doy = (153 * mp + 2) / 5 + d - 1;
    let doe = yoe * 365 + yoe / 4 - yoe / 100 + doy;
    era * 146_097 + doe - 719_468
}

/// Days since the Unix epoch. Howard Hinnant's civil-date algorithm.
pub fn days_from_civil(y: i64, m: i64, d: i64) -> (r: i64)
    requires
        -1_000_000_000 <= y <= 1_000_000_000,
        1 <= m <= 12,
        -1_000_000_000 <= d <= 1_000_000_000,
    ensures
        r == civil_days(y as int, m as int, d as int),
{
    let y = if m <= 2 {
        y - 1
    } else {
        y
    };
    let shifted = if y >= 0 {
        y
    } else {
        y - 399
    };
    let era = shifted / 400;
    assert(era == tdiv(shifted as int, 400));
    let yoe = y - era * 400;
    assert(0 <= yoe < 400) by (nonlinear_arith)
        requires
            era == tdiv(shifted as int, 400),
            shifted == (if y >= 0 { y as int } else { y - 399 }),
            yoe == y - era * 400,
    ;
    let mp = (m + 9) % 12;
    let doy = (153 * mp + 2) / 5 + d - 1;
    let doe = yoe * 365 + yoe / 4 - yoe / 100 + doy;
    era * 146_097 + doe - 719_468
}

/// A day after another is one more day since the epoch.
pub proof fn lemma_next_day(y: int, m: int, d: int)
    requires
        1 <= m <= 12,
    ensures
        civil_days(y, m, d + 1) == civil_days(y, m, d) + 1,
{
}


// ---------------------------------------------------------------------------
// EXIF timestamps.

/// The characters Unicode calls white space, which `str::trim` removes.
pub open spec fn is_space(c: char) -> bool {
    let u = c as u32;
    (0x09 <= u && u <= 0x0D) || u == 0x20 || u == 0x85 || u == 0xA0 || u == 0x1680 || (0x2000
        <= u && u <= 0x200A) || u == 0x2028 || u == 0x2029 || u == 0x202F || u == 0x205F || u
        == 0x3000
}

pub fn is_space_char(c: char) -> (r: bool)
    ensures
        r == is_space(c),
{
    let u = c as u32;
    (0x09 <= u && u <= 0x0D) || u == 0x20 || u == 0x85 || u == 0xA0 || u == 0x1680 || (0x2000
        <= u && u <= 0x200A) || u == 0x2028 || u == 0x2029 || u == 0x202F || u == 0x205F || u
        == 0x3000
}

/// Leading white space removed.
pub open spec fn trim_start(s: Seq<char>) -> Seq<char>
    decreases s.len(),
{
    if s.len() > 0 && is_space(s[0]) {
        trim_start(s.drop_first())
    } else {
        s
    }
}

/// Trailing white space removed.
pub open spec fn trim_end(s: Seq<char>) -> Seq<char>
    decreases s.len(),
{
    if s.len() > 0 && is_space(s.last()) {
        trim_end(s.drop_last())
    } else {
        s
    }
}

pub open spec fn trim(s: Seq<char>) -> Seq<char> {
    trim_end(trim_start(s))
}

pub open spec fn is_digit(c: char) -> bool {
    '0' <= c && c <= '9'
}

/// The decimal value of a string of digits.
pub open spec fn digits_value(s: Seq<char>) -> int
    decreases s.len(),
{
    if s.len() == 0 {
        0
    } else {
        digits_value(s.drop_last()) * 10 + (s.last() as u32 - '0' as u32)
    }
}

/// A decimal integer as `i64::from_str` reads it: an optional sign, then at
/// least one digit, and nothing else.
pub open spec fn sign_len(s: Seq<char>) -> int {
    if s.len() > 0 && (s[0] == '+' || s[0] == '-') {
        1
    } else {
        0
    }
}

pub open spec fn all_digits(s: Seq<char>) -> bool {
    forall|i: int| 0 <= i < s.len() ==> is_digit(#[trigger] s[i])
}

pub open spec fn decimal(s: Seq<char>) -> Option<int> {
    let body = s.subrange(sign_len(s), s.len() as int);
    if body.len() > 0 && all_digits(body) {
        Some(
            if sign_len(s) == 1 && s[0] == '-' {
                -digits_value(body)
            } else {
                digits_value(body)
            },
        )
    } else {
        None
    }
}

/// The number in columns `a..b` of `t`, white space around it ignored.
pub open spec fn field(t: Seq<char>, a: int, b: int) -> Option<int> {
    decimal(trim(t.subrange(a, b)))
}

pub open spec fn all_ascii(s: Seq<char>) -> bool {
    forall|i: int| 0 <= i < s.len() ==> ((#[trigger] s[i]) as u32) < 128
}

/// `YYYY:MM:DD HH:MM:SS`, read as UTC seconds since the epoch.
///
/// The six numbers sit at fixed columns of the trimmed text (the separators
/// between them are not looked at); each is a decimal that may carry a sign
/// and surrounding white space. A month or day out of range, an hour, minute
/// or second too large, or a year outside 1980..=2100 (a dead camera clock)
/// yields nothing. Text shorter than 19 characters, or with anything but ASCII
/// in its first 19, cannot hold the six numbers at their columns.
pub open spec fn exif_timestamp(s: Seq<char>) -> Option<int> {
    let t = trim(s);
    if t.len() < 19 || !all_ascii(t.take(19)) {
        None
    } else {
        match (
            field(t, 0, 4),
            field(t, 5, 7),
            field(t, 8, 10),
            field(t, 11, 13),
            field(t, 14, 16),
            field(t, 17, 19),
        ) {
            (Some(y), Some(mo), Some(d), Some(h), Some(mi), Some(sec)) => if !(1 <= mo <= 12) || !(1
                <= d <= 31) || h > 23 || mi > 59 || sec > 60 {
                None
            } else if !(1980 <= y <= 2100) {
                None
            } else {
                Some(civil_days(y, mo, d) * 86_400 + h * 3600 + mi * 60 + sec)
            },
            _ => None,
        }
    }
}

/// Where the non-space text of `t[a..b]` begins and ends.
fn trimmed_bounds(t: &[char], a: usize, b: usize) -> (r: (usize, usize))
    requires
        a <= b <= t@.len(),
    ensures
        a <= r.0 <= r.1 <= b,
        t@.subrange(r.0 as int, r.1 as int) == trim(t@.subrange(a as int, b as int)),
{
    let mut i = a;
    while i < b && is_space_char(t[i])
        invariant
            a <= i <= b <= t@.len(),
            trim_start(t@.subrange(a as int, b as int)) == trim_start(t@.subrange(i as int, b as int)),
        decreases b - i,
    {
        assert(t@.subrange(i as int, b as int).drop_first() =~= t@.subrange(i + 1, b as int));
        i = i + 1;
    }
    assert(trim_start(t@.subrange(i as int, b as int)) == t@.subrange(i as int, b as int));
    let mut j = b;
    while j > i && is_space_char(t[j - 1])
        invariant
            a <= i <= j <= b <= t@.len(),
            trim_start(t@.subrange(a as int, b as int)) == t@.subrange(i as int, b as int),
            trim_end(t@.subrange(i as int, b as int)) == trim_end(t@.subrange(i as int, j as int)),
        decreases j - i,
    {
        assert(t@.subrange(i as int, j as int).drop_last() =~= t@.subrange(i as int, j - 1));
        j = j - 1;
    }
    (i, j)
}

/// `s` with leading and trailing white space removed, as `str::trim` does.
pub fn trimmed_text(s: &str) -> (r: String)
    ensures
        r@ == trim(s@),
{
    let cs = chars_of(s);
    let (a, b) = trimmed_bounds(cs.as_slice(), 0, cs.len());
    proof {
        assert(cs@.subrange(0, cs@.len() as int) =~= s@);
    }
    String::from_str(s.substring_char(a, b))
}

/// The decimal in `t[a..b]`, white space around it ignored. Short fields only.
#[verifier::loop_isolation(false)]
fn field_value(t: &[char], a: usize, b: usize) -> (r: Option<i64>)
    requires
        a <= b <= t@.len(),
        b - a <= 4,
    ensures
        match field(t@, a as int, b as int) {
            Some(v) => r == Some(v as i64) && -9999 <= v <= 9999,
            None => r is None,
        },
{
    let (i, j) = trimmed_bounds(t, a, b);
    let ghost f = t@.subrange(i as int, j as int);
    let mut k = i;
    let mut neg = false;
    if k < j && (t[k] == '+' || t[k] == '-') {
        neg = t[k] == '-';
        k = k + 1;
    }
    let ghost body = t@.subrange(k as int, j as int);
    let ghost sign: int = sign_len(f);
    assert(sign == k - i);
    assert(f.subrange(sign, f.len() as int) =~= body);
    if k >= j {
        return None;
    }
    let mut v: i64 = 0;
    let mut p = k;
    while p < j
        invariant
            i <= k <= p <= j <= b <= t@.len(),
            j - k <= 4,
            body == t@.subrange(k as int, j as int),
            forall|q: int| k <= q < p ==> is_digit(#[trigger] t@[q]),
            v == digits_value(t@.subrange(k as int, p as int)),
            0 <= v,
            p - k == 0 ==> v == 0,
            p - k <= 1 ==> v < 10,
            p - k <= 2 ==> v < 100,
            p - k <= 3 ==> v < 1000,
            v < 10000,
        decreases j - p,
    {
        let c = t[p];
        if !('0' <= c && c <= '9') {
            assert(!is_digit(body[p - k]));
            assert(f.subrange(sign, f.len() as int)[p - k] == body[p - k]);
            assert(decimal(f) is None);
            return None;
        }
        assert(t@.subrange(k as int, p + 1).drop_last() =~= t@.subrange(k as int, p as int));
        v = v * 10 + (c as u32 - '0' as u32) as i64;
        p = p + 1;
    }
    assert forall|q: int| 0 <= q < body.len() implies is_digit(#[trigger] body[q]) by {
        assert(body[q] == t@[k + q]);
    }
    assert(all_digits(body));
    Some(
        if neg {
            -v
        } else {
            v
        },
    )
}

/// EXIF writes `YYYY:MM:DD HH:MM:SS`, interpreted as UTC: the true offset is
/// unknowable from the tag alone, and consistency is what grouping needs.
#[verifier::loop_isolation(false)]
pub fn parse_exif_datetime(s: &str) -> (r: Option<i64>)
    ensures
        match exif_timestamp(s@) {
            Some(v) => r == Some(v as i64),
            None => r is None,
        },
{
    let cs = chars_of(s);
    let all = cs.as_slice();
    let (lo, hi) = trimmed_bounds(all, 0, all.len());
    assert(all@.subrange(0, all@.len() as int) =~= s@);
    let t = crate::text::slice_chars(all, lo, hi);
    let ts = t.as_slice();
    if ts.len() < 19 {
        return None;
    }
    let mut i: usize = 0;
    while i < 19
        invariant
            i <= 19 <= ts@.len(),
            forall|q: int| 0 <= q < i ==> ((#[trigger] ts@[q]) as u32) < 128,
        decreases 19 - i,
    {
        if ts[i] as u32 >= 128 {
            assert(ts@.take(19)[i as int] == ts@[i as int]);
            return None;
        }
        i = i + 1;
    }
    assert(all_ascii(ts@.take(19)));
    let y = match field_value(ts, 0, 4) {
        Some(v) => v,
        None => return None,
    };
    let mo = match field_value(ts, 5, 7) {
        Some(v) => v,
        None => return None,
    };
    let d = match field_value(ts, 8, 10) {
        Some(v) => v,
        None => return None,
    };
    let h = match field_value(ts, 11, 13) {
        Some(v) => v,
        None => return None,
    };
    let mi = match field_value(ts, 14, 16) {
        Some(v) => v,
        None => return None,
    };
    let sec = match field_value(ts, 17, 19) {
        Some(v) => v,
        None => return None,
    };
    if !(1 <= mo && mo <= 12) || !(1 <= d && d <= 31) || h > 23 || mi > 59 || sec > 60 {
        return None;
    }
    // Cameras with a dead clock write 1970 or earlier; treat as unknown.
    if !(1980 <= y && y <= 2100) {
        return None;
    }
    let days = days_from_civil(y, mo, d);
    assert(-1_000_000 <= days <= 1_000_000) by {
        assert(-1_000_000 <= civil_days(y as int, mo as int, d as int) <= 1_000_000) by (nonlinear_arith)
            requires
                1980 <= y <= 2100,
                1 <= mo <= 12,
                1 <= d <= 31,
        {
        }
    }
    Some(days * 86_400 + h * 3600 + mi * 60 + sec)
}


// ---------------------------------------------------------------------------
// Dates in file names.

pub open spec fn is_digit_byte(c: u8) -> bool {
    0x30 <= c && c <= 0x39
}

/// Digits, and the separators a date in a name is written with: `- . _ /`.
pub open spec fn in_date_run(c: u8) -> bool {
    is_digit_byte(c) || c == 0x2D || c == 0x2E || c == 0x5F || c == 0x2F
}

/// The first `need` digits of the run of digits and separators at `j`.
pub open spec fn run_digits(b: Seq<u8>, j: int, need: nat) -> Seq<u8>
    decreases b.len() - j,
{
    if need == 0 || j < 0 || j >= b.len() || !in_date_run(b[j]) {
        Seq::empty()
    } else if is_digit_byte(b[j]) {
        seq![b[j]] + run_digits(b, j + 1, (need - 1) as nat)
    } else {
        run_digits(b, j + 1, need)
    }
}

pub open spec fn digit_bytes_value(s: Seq<u8>) -> int
    decreases s.len(),
{
    if s.len() == 0 {
        0
    } else {
        digit_bytes_value(s.drop_last()) * 10 + (s.last() - 0x30)
    }
}

/// The date a run of at least eight digits starting at `i` spells as
/// `YYYYMMDD` (separators skipped), if it starts a number and is a plausible
/// date between 1990 and 2100.
pub open spec fn name_date_at(b: Seq<u8>, i: int) -> Option<int> {
    if !is_digit_byte(b[i]) || (i > 0 && is_digit_byte(b[i - 1])) {
        None
    } else {
        let ds = run_digits(b, i, 8);
        if ds.len() < 8 {
            None
        } else {
            let y = digit_bytes_value(ds.subrange(0, 4));
            let mo = digit_bytes_value(ds.subrange(4, 6));
            let d = digit_bytes_value(ds.subrange(6, 8));
            if 1990 <= y <= 2100 && 1 <= mo <= 12 && 1 <= d <= 31 {
                Some(civil_days(y, mo, d) * 86_400)
            } else {
                None
            }
        }
    }
}

/// The first position, before the last seven bytes, where a name date starts.
pub open spec fn name_date_from(b: Seq<u8>, i: int) -> Option<int>
    decreases b.len() - i,
{
    if i < 0 || i >= b.len() - 7 {
        None
    } else {
        match name_date_at(b, i) {
            Some(v) => Some(v),
            None => name_date_from(b, i + 1),
        }
    }
}

pub proof fn lemma_run_digits_digits(b: Seq<u8>, j: int, need: nat)
    ensures
        run_digits(b, j, need).len() <= need,
        forall|k: int|
            0 <= k < run_digits(b, j, need).len() ==> is_digit_byte(
                #[trigger] run_digits(b, j, need)[k],
            ),
    decreases b.len() - j,
{
    if need == 0 || j < 0 || j >= b.len() || !in_date_run(b[j]) {
    } else if is_digit_byte(b[j]) {
        lemma_run_digits_digits(b, j + 1, (need - 1) as nat);
        let rest = run_digits(b, j + 1, (need - 1) as nat);
        assert forall|k: int|
            0 <= k < run_digits(b, j, need).len() implies is_digit_byte(
                #[trigger] run_digits(b, j, need)[k],
            ) by {
            if k > 0 {
                assert(run_digits(b, j, need)[k] == rest[k - 1]);
            }
        }
    } else {
        lemma_run_digits_digits(b, j + 1, need);
    }
}

pub proof fn lemma_digit_bytes_value_bound(s: Seq<u8>)
    requires
        forall|k: int| 0 <= k < s.len() ==> is_digit_byte(#[trigger] s[k]),
    ensures
        0 <= digit_bytes_value(s),
        s.len() <= 4 ==> digit_bytes_value(s) < 10000,
        s.len() <= 3 ==> digit_bytes_value(s) < 1000,
        s.len() <= 2 ==> digit_bytes_value(s) < 100,
        s.len() <= 1 ==> digit_bytes_value(s) < 10,
    decreases s.len(),
{
    if s.len() > 0 {
        lemma_digit_bytes_value_bound(s.drop_last());
        assert(is_digit_byte(s[s.len() - 1]));
    }
}

fn digits_number(ds: &Vec<u8>, from: usize, to: usize) -> (r: i64)
    requires
        from <= to <= ds@.len(),
        to - from <= 4,
        forall|k: int| 0 <= k < ds@.len() ==> is_digit_byte(#[trigger] ds@[k]),
    ensures
        r == digit_bytes_value(ds@.subrange(from as int, to as int)),
{
    let mut v: i64 = 0;
    let mut p = from;
    while p < to
        invariant
            from <= p <= to <= ds@.len(),
            to - from <= 4,
            forall|k: int| 0 <= k < ds@.len() ==> is_digit_byte(#[trigger] ds@[k]),
            v == digit_bytes_value(ds@.subrange(from as int, p as int)),
        decreases to - p,
    {
        proof {
            let sub = ds@.subrange(from as int, p as int);
            assert forall|k: int| 0 <= k < sub.len() implies is_digit_byte(#[trigger] sub[k]) by {
                assert(sub[k] == ds@[from + k]);
            }
            lemma_digit_bytes_value_bound(sub);
            assert(ds@.subrange(from as int, p + 1).drop_last() =~= sub);
        }
        v = v * 10 + (ds[p] - 0x30) as i64;
        p = p + 1;
    }
    v
}

/// A date embedded in a filename, for the many files that lost their EXIF:
/// `IMG_20190714_123456.jpg`, `Screenshot_2021-03-02`, `2019.07.14 отпуск`.
pub fn date_from_name(name: &str) -> (r: Option<i64>)
    ensures
        match name_date_from(name.spec_bytes(), 0) {
            Some(v) => r == Some(v as i64),
            None => r is None,
        },
{
    let b = name.as_bytes();
    let n = b.len();
    let limit = if n >= 7 {
        n - 7
    } else {
        0
    };
    let mut i: usize = 0;
    while i < limit
        invariant
            b@ == name.spec_bytes(),
            n == b@.len(),
            limit == (if n >= 7 { n - 7 } else { 0 }),
            i <= limit,
            name_date_from(b@, 0) == name_date_from(b@, i as int),
        decreases limit - i,
    {
        let c = b[i];
        if !(0x30 <= c && c <= 0x39) || (i > 0 && 0x30 <= b[i - 1] && b[i - 1] <= 0x39) {
            // Do not start mid-number.
            i = i + 1;
            continue;
        }
        let mut ds: Vec<u8> = Vec::new();
        let mut j = i;
        while j < n && ds.len() < 8 && (0x30 <= b[j] && b[j] <= 0x39 || b[j] == 0x2D || b[j]
            == 0x2E || b[j] == 0x5F || b[j] == 0x2F)
            invariant
                b@ == name.spec_bytes(),
                n == b@.len(),
                i <= j <= n,
                ds@.len() <= 8,
                ds@ + run_digits(b@, j as int, (8 - ds@.len()) as nat) == run_digits(b@, i as int, 8),
            decreases n - j,
        {
            if 0x30 <= b[j] && b[j] <= 0x39 {
                let ghost before = ds@;
                ds.push(b[j]);
                assert(before + run_digits(b@, j as int, (8 - before.len()) as nat) =~= ds@
                    + run_digits(b@, j + 1, (8 - ds@.len()) as nat));
            }
            j = j + 1;
        }
        assert(run_digits(b@, j as int, (8 - ds@.len()) as nat) =~= Seq::<u8>::empty());
        assert(ds@ =~= run_digits(b@, i as int, 8));
        if ds.len() >= 8 {
            proof {
                lemma_run_digits_digits(b@, i as int, 8);
            }
            let y = digits_number(&ds, 0, 4);
            let mo = digits_number(&ds, 4, 6);
            let d = digits_number(&ds, 6, 8);
            if 1990 <= y && y <= 2100 && 1 <= mo && mo <= 12 && 1 <= d && d <= 31 {
                let days = days_from_civil(y, mo, d);
                assert(-1_000_000 <= days <= 1_000_000) by {
                    assert(-1_000_000 <= civil_days(y as int, mo as int, d as int) <= 1_000_000)
                        by (nonlinear_arith)
                        requires
                            1990 <= y <= 2100,
                            1 <= mo <= 12,
                            1 <= d <= 31,
                    {
                    }
                }
                return Some(days * 86_400);
            }
        }
        i = i + 1;
    }
    None
}

// ---------------------------------------------------------------------------
// The XMP packet.

/// The first position at or after `i` where `needle` occurs in `h`.
pub open spec fn first_occurrence(h: Seq<u8>, needle: Seq<u8>, i: int) -> Option<int>
    decreases h.len() + 1 - i,
{
    if i < 0 || i + needle.len() > h.len() {
        None
    } else if holds_at(h, i, needle) {
        Some(i)
    } else {
        first_occurrence(h, needle, i + 1)
    }
}

pub proof fn lemma_first_occurrence_bounds(h: Seq<u8>, needle: Seq<u8>, i: int)
    ensures
        first_occurrence(h, needle, i) matches Some(k) ==> i <= k && k + needle.len() <= h.len(),
    decreases h.len() + 1 - i,
{
    if i >= 0 && i + needle.len() <= h.len() && !holds_at(h, i, needle) {
        lemma_first_occurrence_bounds(h, needle, i + 1);
    }
}

fn find(haystack: &[u8], needle: &[u8]) -> (r: Option<usize>)
    requires
        needle@.len() > 0,
    ensures
        match first_occurrence(haystack@, needle@, 0) {
            Some(k) => r == Some(k as usize),
            None => r is None,
        },
{
    proof {
        lemma_first_occurrence_bounds(haystack@, needle@, 0);
    }
    let n = haystack.len();
    let m = needle.len();
    if m > n {
        return None;
    }
    let mut i: usize = 0;
    while i <= n - m
        invariant
            n == haystack@.len(),
            m == needle@.len(),
            0 < m <= n,
            first_occurrence(haystack@, needle@, 0) == first_occurrence(haystack@, needle@, i as int),
        decreases n - m + 1 - i,
    {
        if bytes_at(haystack, i, needle) {
            return Some(i);
        }
        i = i + 1;
    }
    None
}

pub open spec fn xmp_open() -> Seq<u8> {
    seq![0x3Cu8, 0x78, 0x3A, 0x78, 0x6D, 0x70, 0x6D, 0x65, 0x74, 0x61]
}

pub open spec fn xmp_close() -> Seq<u8> {
    seq![0x3Cu8, 0x2F, 0x78, 0x3A, 0x78, 0x6D, 0x70, 0x6D, 0x65, 0x74, 0x61, 0x3E]
}

/// From the first `<x:xmpmeta` to the first `</x:xmpmeta>` after it,
/// inclusive.
pub open spec fn xmp_packet(b: Seq<u8>) -> Option<Seq<u8>> {
    match first_occurrence(b, xmp_open(), 0) {
        None => None,
        Some(start) => match first_occurrence(b.subrange(start, b.len() as int), xmp_close(), 0) {
            None => None,
            Some(k) => Some(b.subrange(start, start + k + xmp_close().len())),
        },
    }
}

/// Pull out the XMP packet, wherever in the file it sits.
pub fn find_xmp(bytes: &[u8]) -> (r: Option<&[u8]>)
    ensures
        match xmp_packet(bytes@) {
            Some(p) => r is Some && r->0@ == p,
            None => r is None,
        },
{
    let open: [u8; 10] = [0x3C, 0x78, 0x3A, 0x78, 0x6D, 0x70, 0x6D, 0x65, 0x74, 0x61];
    let close: [u8; 12] = [0x3C, 0x2F, 0x78, 0x3A, 0x78, 0x6D, 0x70, 0x6D, 0x65, 0x74, 0x61, 0x3E];
    assert(open@ == xmp_open());
    assert(close@ == xmp_close());
    let start = match find(bytes, &open) {
        Some(s) => s,
        None => return None,
    };
    proof {
        lemma_first_occurrence_bounds(bytes@, xmp_open(), 0);
    }
    let rest = &bytes[start..bytes.len()];
    let k = match find(rest, &close) {
        Some(k) => k,
        None => return None,
    };
    proof {
        lemma_first_occurrence_bounds(rest@, xmp_close(), 0);
    }
    let end = start + k + 12;
    Some(&bytes[start..end])
}

} // verus!
