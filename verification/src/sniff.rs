//! Container detection from magic bytes.
//!
//! The extension is a hint for read ordering and nothing more: a quarter of
//! this archive's images carry no extension at all, and plenty of the rest
//! carry the wrong one.
use vstd::prelude::*;
use crate::text::{ascii_lower_seq, ascii_lower_vec, chars_eq, chars_of, last_index_of, rfind_char, slice_chars};

verus! {

#[derive(Debug, Clone, Copy, PartialEq, Eq, Structural)]
pub enum Container {
    Jpeg,
    Png,
    /// TIFF byte order, which also covers ARW, CR2, NEF, DNG and friends.
    Tiff,
    Bmp,
    WebP,
    Gif,
    Psd,
    /// ISO-BMFF with a HEIC/AVIF brand.
    Heif,
    Unknown,
}

impl Container {
    pub open spec fn name(self) -> Seq<char> {
        match self {
            Container::Jpeg => "jpeg"@,
            Container::Png => "png"@,
            Container::Tiff => "tiff"@,
            Container::Bmp => "bmp"@,
            Container::WebP => "webp"@,
            Container::Gif => "gif"@,
            Container::Psd => "psd"@,
            Container::Heif => "heif"@,
            Container::Unknown => "unknown"@,
        }
    }

    pub fn as_str(self) -> (r: &'static str)
        ensures
            r@ == self.name(),
    {
        match self {
            Container::Jpeg => "jpeg",
            Container::Png => "png",
            Container::Tiff => "tiff",
            Container::Bmp => "bmp",
            Container::WebP => "webp",
            Container::Gif => "gif",
            Container::Psd => "psd",
            Container::Heif => "heif",
            Container::Unknown => "unknown",
        }
    }

    pub fn is_image(self) -> (r: bool)
        ensures
            r == (self != Container::Unknown),
    {
        !matches!(self, Container::Unknown)
    }

    /// TIFF containers keep an index of their contents, so a large preview can
    /// be lifted out with a seek instead of decoding the sensor data.
    pub fn is_indexed(self) -> (r: bool)
        ensures
            r == (self == Container::Tiff || self == Container::Heif),
    {
        matches!(self, Container::Tiff | Container::Heif)
    }
}

/// `d` holds `p` at offset `at`.
pub open spec fn holds_at(d: Seq<u8>, at: int, p: Seq<u8>) -> bool {
    0 <= at && at + p.len() <= d.len() && d.subrange(at, at + p.len()) == p
}

pub open spec fn is_heif_brand_spec(b: Seq<u8>) -> bool {
    b == seq![0x68u8, 0x65, 0x69, 0x63]  // heic
    || b == seq![0x68u8, 0x65, 0x69, 0x78]  // heix
    || b == seq![0x68u8, 0x65, 0x76, 0x63]  // hevc
    || b == seq![0x68u8, 0x65, 0x69, 0x6d]  // heim
    || b == seq![0x68u8, 0x65, 0x69, 0x73]  // heis
    || b == seq![0x6du8, 0x69, 0x66, 0x31]  // mif1
    || b == seq![0x6du8, 0x73, 0x66, 0x31]  // msf1
    || b == seq![0x61u8, 0x76, 0x69, 0x66]  // avif
    || b == seq![0x61u8, 0x76, 0x69, 0x73]  // avis
}

/// The container a file's first bytes announce.
pub open spec fn sniff_spec(h: Seq<u8>) -> Container {
    if h.len() < 12 {
        Container::Unknown
    } else if holds_at(h, 0, seq![0xFFu8, 0xD8, 0xFF]) {
        Container::Jpeg
    } else if holds_at(h, 0, seq![0x89u8, 0x50, 0x4E, 0x47, 0x0D, 0x0A, 0x1A, 0x0A]) {
        Container::Png
    } else if holds_at(h, 0, seq![0x49u8, 0x49, 0x2A, 0x00]) || holds_at(
        h,
        0,
        seq![0x4Du8, 0x4D, 0x00, 0x2A],
    ) {
        Container::Tiff
    } else if holds_at(h, 0, seq![0x49u8, 0x49, 0x2B, 0x00]) || holds_at(
        h,
        0,
        seq![0x4Du8, 0x4D, 0x00, 0x2B],
    ) {
        // BigTIFF, used by some large scans.
        Container::Tiff
    } else if holds_at(h, 0, seq![0x42u8, 0x4D]) {
        Container::Bmp
    } else if holds_at(h, 0, seq![0x52u8, 0x49, 0x46, 0x46]) && holds_at(
        h,
        8,
        seq![0x57u8, 0x45, 0x42, 0x50],
    ) {
        Container::WebP
    } else if holds_at(h, 0, seq![0x47u8, 0x49, 0x46, 0x38, 0x37, 0x61]) || holds_at(
        h,
        0,
        seq![0x47u8, 0x49, 0x46, 0x38, 0x39, 0x61],
    ) {
        Container::Gif
    } else if holds_at(h, 0, seq![0x38u8, 0x42, 0x50, 0x53]) {
        Container::Psd
    } else if holds_at(h, 4, seq![0x66u8, 0x74, 0x79, 0x70]) && is_heif_brand_spec(
        h.subrange(8, 12),
    ) {
        Container::Heif
    } else {
        Container::Unknown
    }
}

/// Whether two byte strings are equal.
pub fn bytes_eq(a: &[u8], b: &[u8]) -> (r: bool)
    ensures
        r == (a@ == b@),
{
    if a.len() != b.len() {
        return false;
    }
    let mut i: usize = 0;
    while i < a.len()
        invariant
            a@.len() == b@.len(),
            i <= a@.len(),
            forall|k: int| 0 <= k < i ==> a@[k] == b@[k],
        decreases a.len() - i,
    {
        if a[i] != b[i] {
            return false;
        }
        i = i + 1;
    }
    assert(a@ =~= b@);
    true
}

/// Only a file's first twelve bytes decide its container: fewer say
/// nothing, and whatever follows them changes nothing.
pub proof fn law_the_first_twelve_bytes_decide(h: Seq<u8>)
    ensures
        h.len() < 12 ==> sniff_spec(h) == Container::Unknown,
        h.len() >= 12 ==> sniff_spec(h) == sniff_spec(h.subrange(0, 12)),
{
    if h.len() >= 12 {
        let t = h.subrange(0, 12);
        assert(h.subrange(0, 2) =~= t.subrange(0, 2));
        assert(h.subrange(0, 3) =~= t.subrange(0, 3));
        assert(h.subrange(0, 4) =~= t.subrange(0, 4));
        assert(h.subrange(0, 6) =~= t.subrange(0, 6));
        assert(h.subrange(0, 8) =~= t.subrange(0, 8));
        assert(h.subrange(4, 8) =~= t.subrange(4, 8));
        assert(h.subrange(8, 12) =~= t.subrange(8, 12));
    }
}

/// The major brands of an ISO-BMFF file that mark a HEIF image: `heic`,
/// `heix`, `hevc`, `heim`, `heis`, `mif1`, `msf1`, `avif`, `avis`.
pub open spec fn heif_brands() -> Seq<Seq<u8>> {
    seq![
        seq![0x68u8, 0x65, 0x69, 0x63],
        seq![0x68u8, 0x65, 0x69, 0x78],
        seq![0x68u8, 0x65, 0x76, 0x63],
        seq![0x68u8, 0x65, 0x69, 0x6d],
        seq![0x68u8, 0x65, 0x69, 0x73],
        seq![0x6du8, 0x69, 0x66, 0x31],
        seq![0x6du8, 0x73, 0x66, 0x31],
        seq![0x61u8, 0x76, 0x69, 0x66],
        seq![0x61u8, 0x76, 0x69, 0x73],
    ]
}

/// A HEIF photo is recognised by its brand: a head of twelve bytes or more
/// whose first byte starts none of the other signatures (an ISO-BMFF head
/// starts with its box size) is HEIF exactly when it holds `ftyp` at offset
/// 4 and one of the HEIF brands at offset 8.
pub proof fn law_a_heif_brand_is_heif(h: Seq<u8>)
    requires
        h.len() >= 12,
        h[0] != 0xFF && h[0] != 0x89 && h[0] != 0x49 && h[0] != 0x4D && h[0] != 0x42 && h[0] != 0x52
            && h[0] != 0x47 && h[0] != 0x38,
    ensures
        (holds_at(h, 4, seq![0x66u8, 0x74, 0x79, 0x70]) && heif_brands().contains(h.subrange(8, 12)))
            <==> sniff_spec(h) == Container::Heif,
{
    assert(h.subrange(0, 2)[0] == h[0]);
    assert(h.subrange(0, 3)[0] == h[0]);
    assert(h.subrange(0, 4)[0] == h[0]);
    assert(h.subrange(0, 6)[0] == h[0]);
    assert(h.subrange(0, 8)[0] == h[0]);
    let b = h.subrange(8, 12);
    let hb = heif_brands();
    if hb.contains(b) {
        let i = choose|i: int| 0 <= i < hb.len() && hb[i] == b;
        assert(is_heif_brand_spec(b));
    }
    if is_heif_brand_spec(b) {
        if b == hb[0] { assert(hb.contains(b)); }
        else if b == hb[1] { assert(hb.contains(b)); }
        else if b == hb[2] { assert(hb.contains(b)); }
        else if b == hb[3] { assert(hb.contains(b)); }
        else if b == hb[4] { assert(hb.contains(b)); }
        else if b == hb[5] { assert(hb.contains(b)); }
        else if b == hb[6] { assert(hb.contains(b)); }
        else if b == hb[7] { assert(hb.contains(b)); }
        else { assert(b == hb[8]); assert(hb.contains(b)); }
    }
}

/// Whether `d` holds the bytes `p` at offset `at`.
pub fn bytes_at(d: &[u8], at: usize, p: &[u8]) -> (r: bool)
    ensures
        r == holds_at(d@, at as int, p@),
{
    if at > d.len() || p.len() > d.len() - at {
        return false;
    }
    bytes_eq(&d[at..at + p.len()], p)
}

pub fn is_heif_brand(b: &[u8]) -> (r: bool)
    ensures
        r == is_heif_brand_spec(b@),
{
    bytes_eq(b, &[0x68, 0x65, 0x69, 0x63]) || bytes_eq(b, &[0x68, 0x65, 0x69, 0x78])
        || bytes_eq(b, &[0x68, 0x65, 0x76, 0x63]) || bytes_eq(b, &[0x68, 0x65, 0x69, 0x6d])
        || bytes_eq(b, &[0x68, 0x65, 0x69, 0x73]) || bytes_eq(b, &[0x6d, 0x69, 0x66, 0x31])
        || bytes_eq(b, &[0x6d, 0x73, 0x66, 0x31]) || bytes_eq(b, &[0x61, 0x76, 0x69, 0x66])
        || bytes_eq(b, &[0x61, 0x76, 0x69, 0x73])
}

pub fn sniff(head: &[u8]) -> (r: Container)
    ensures
        r == sniff_spec(head@),
{
    if head.len() < 12 {
        return Container::Unknown;
    }
    if bytes_at(head, 0, &[0xFF, 0xD8, 0xFF]) {
        Container::Jpeg
    } else if bytes_at(head, 0, &[0x89, 0x50, 0x4E, 0x47, 0x0D, 0x0A, 0x1A, 0x0A]) {
        Container::Png
    } else if bytes_at(head, 0, &[0x49, 0x49, 0x2A, 0x00]) || bytes_at(
        head,
        0,
        &[0x4D, 0x4D, 0x00, 0x2A],
    ) {
        Container::Tiff
    } else if bytes_at(head, 0, &[0x49, 0x49, 0x2B, 0x00]) || bytes_at(
        head,
        0,
        &[0x4D, 0x4D, 0x00, 0x2B],
    ) {
        // BigTIFF, used by some large scans.
        Container::Tiff
    } else if bytes_at(head, 0, &[0x42, 0x4D]) {
        Container::Bmp
    } else if bytes_at(head, 0, &[0x52, 0x49, 0x46, 0x46]) && bytes_at(
        head,
        8,
        &[0x57, 0x45, 0x42, 0x50],
    ) {
        Container::WebP
    } else if bytes_at(head, 0, &[0x47, 0x49, 0x46, 0x38, 0x37, 0x61]) || bytes_at(
        head,
        0,
        &[0x47, 0x49, 0x46, 0x38, 0x39, 0x61],
    ) {
        Container::Gif
    } else if bytes_at(head, 0, &[0x38, 0x42, 0x50, 0x53]) {
        Container::Psd
    } else if bytes_at(head, 4, &[0x66, 0x74, 0x79, 0x70]) && is_heif_brand(&head[8..12]) {
        Container::Heif
    } else {
        Container::Unknown
    }
}


/// The container an extension (already in lower case) names.
pub open spec fn extension_container(e: Seq<char>) -> Option<Container> {
    if e == "jpg"@ || e == "jpeg"@ || e == "jpe"@ {
        Some(Container::Jpeg)
    } else if e == "png"@ {
        Some(Container::Png)
    } else if e == "tif"@ || e == "tiff"@ || e == "arw"@ || e == "cr2"@ || e == "cr3"@ || e
        == "nef"@ || e == "dng"@ || e == "orf"@ || e == "rw2"@ || e == "raf"@ || e == "pef"@ || e
        == "srw"@ || e == "arq"@ {
        Some(Container::Tiff)
    } else if e == "bmp"@ {
        Some(Container::Bmp)
    } else if e == "webp"@ {
        Some(Container::WebP)
    } else if e == "gif"@ {
        Some(Container::Gif)
    } else if e == "psd"@ {
        Some(Container::Psd)
    } else if e == "heic"@ || e == "heif"@ || e == "avif"@ {
        Some(Container::Heif)
    } else {
        None
    }
}

/// What a file name's extension — the text after its last dot, read
/// without regard to ASCII case — suggests the container is.
pub open spec fn extension_hint(name: Seq<char>) -> Option<Container> {
    match last_index_of(name, '.') {
        None => None,
        Some(k) => extension_container(ascii_lower_seq(name.subrange(k + 1, name.len() as int))),
    }
}

fn container_of_extension(e: &[char]) -> (r: Option<Container>)
    ensures
        r == extension_container(e@),
{
    if chars_eq(e, "jpg") || chars_eq(e, "jpeg") || chars_eq(e, "jpe") {
        Some(Container::Jpeg)
    } else if chars_eq(e, "png") {
        Some(Container::Png)
    } else if chars_eq(e, "tif") || chars_eq(e, "tiff") || chars_eq(e, "arw") || chars_eq(e, "cr2")
        || chars_eq(e, "cr3") || chars_eq(e, "nef") || chars_eq(e, "dng") || chars_eq(e, "orf")
        || chars_eq(e, "rw2") || chars_eq(e, "raf") || chars_eq(e, "pef") || chars_eq(e, "srw")
        || chars_eq(e, "arq") {
        Some(Container::Tiff)
    } else if chars_eq(e, "bmp") {
        Some(Container::Bmp)
    } else if chars_eq(e, "webp") {
        Some(Container::WebP)
    } else if chars_eq(e, "gif") {
        Some(Container::Gif)
    } else if chars_eq(e, "psd") {
        Some(Container::Psd)
    } else if chars_eq(e, "heic") || chars_eq(e, "heif") || chars_eq(e, "avif") {
        Some(Container::Heif)
    } else {
        None
    }
}

/// Extension hint, used only to order work and to spot mismatches.
pub fn hint_from_extension(name: &str) -> (r: Option<Container>)
    ensures
        r == extension_hint(name@),
{
    let chars = chars_of(name);
    let cs = chars.as_slice();
    match rfind_char(cs, '.') {
        None => None,
        Some(k) => {
            let n = cs.len();
            assert(k < n);
            let ext = slice_chars(cs, k + 1, n);
            let lower = ascii_lower_vec(&ext);
            container_of_extension(&lower)
        },
    }
}

} // verus!
