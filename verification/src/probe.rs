//! Where a file's pixels come from: the file itself, or the large JPEG
//! preview a raw container indexes.
use vstd::prelude::*;
use crate::sniff::{extension_hint, hint_from_extension, sniff, sniff_spec, Container};
use crate::tiff::{accept_all, candidates, first_per_offset, is_last_largest, largest_preview, Embedded};

verus! {

/// An embedded preview smaller than this is not worth preferring over a full
/// decode: Sony writes a 160x120 thumbnail next to the large preview.
pub const MIN_PREVIEW_PIXELS: u64 = 65536;

#[derive(Debug, Clone, Copy, PartialEq, Eq, Structural)]
pub enum PixelSource {
    /// Decoded from the file itself.
    Full,
    /// Lifted from a JPEG preview indexed inside a raw container.
    EmbeddedPreview { width: u32, height: u32 },
}

impl PixelSource {
    /// The word stored for this source.
    pub open spec fn name(self) -> Seq<char> {
        match self {
            PixelSource::Full => "full"@,
            PixelSource::EmbeddedPreview { .. } => "preview"@,
        }
    }

    pub fn as_str(self) -> (r: &'static str)
        ensures
            r@ == self.name(),
    {
        match self {
            PixelSource::Full => "full",
            PixelSource::EmbeddedPreview { .. } => "preview",
        }
    }
}

/// A preview kept only when it is large enough to work from.
pub open spec fn big_enough(p: Option<Embedded>) -> Option<Embedded> {
    match p {
        Some(e) => if e.pixel_count() >= MIN_PREVIEW_PIXELS {
            Some(e)
        } else {
            None
        },
        None => None,
    }
}

/// The embedded preview to work from instead of decoding the whole file:
/// only an indexed container offers one, and only the largest of its
/// previews, when it is large enough, is taken.
pub fn usable_preview(bytes: &[u8]) -> (r: Option<Embedded>)
    ensures
        !(sniff_spec(bytes@) == Container::Tiff || sniff_spec(bytes@) == Container::Heif) ==> r is None,
        (sniff_spec(bytes@) == Container::Tiff || sniff_spec(bytes@) == Container::Heif) ==> exists|
            v: Seq<Embedded>,
            l: Option<Embedded>,
        |
            first_per_offset(v, accept_all(bytes@, candidates(bytes@))) && is_last_largest(l, v) && r
                == big_enough(l),
{
    if !sniff(bytes).is_indexed() {
        return None;
    }
    let l = largest_preview(bytes);
    match l {
        Some(e) => if e.pixels() >= MIN_PREVIEW_PIXELS {
            Some(e)
        } else {
            None
        },
        None => None,
    }
}


/// What a file is, before anything is decoded: the container its first
/// bytes announce, and whether its name's extension says something else.
#[derive(Debug, Clone, Copy, PartialEq, Eq, Structural)]
pub struct Identified {
    pub container: Container,
    pub extension_lied: bool,
}

/// The container of the file whose front is `head`, and whether the
/// extension of `name_hint` names another one; nothing when the bytes are
/// no image at all, which is refused as "not an image".
pub fn identify(head: &[u8], name_hint: &str) -> (r: Option<Identified>)
    ensures
        sniff_spec(head@) == Container::Unknown ==> r is None,
        sniff_spec(head@) != Container::Unknown ==> r == Some(
            Identified {
                container: sniff_spec(head@),
                extension_lied: match extension_hint(name_hint@) {
                    Some(h) => h != sniff_spec(head@),
                    None => false,
                },
            },
        ),
{
    let container = sniff(head);
    if !container.is_image() {
        return None;
    }
    let extension_lied = match hint_from_extension(name_hint) {
        Some(h) => h != container,
        None => false,
    };
    Some(Identified { container, extension_lied })
}

/// Where the pixels came from and the size of the photograph: a preview
/// decoded at `decoded` stands for the raw frame, whose own size, when the
/// metadata records it (`raw`), describes the photograph; a full decode is
/// the photograph.
pub fn frame_of(raw: Option<(u32, u32)>, decoded: (u32, u32), from_preview: bool) -> (r: (
    PixelSource,
    u32,
    u32,
))
    ensures
        from_preview ==> r.0 == (PixelSource::EmbeddedPreview { width: decoded.0, height: decoded.1 })
            && (r.1, r.2) == match raw {
            Some(d) => d,
            None => decoded,
        },
        !from_preview ==> r == (PixelSource::Full, decoded.0, decoded.1),
{
    if from_preview {
        let (w, h) = match raw {
            Some(d) => d,
            None => decoded,
        };
        (PixelSource::EmbeddedPreview { width: decoded.0, height: decoded.1 }, w, h)
    } else {
        (PixelSource::Full, decoded.0, decoded.1)
    }
}

} // verus!
