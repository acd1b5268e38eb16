//! What a file's EXIF block and XMP packet say about it: the camera, the
//! capture date and where it came from, the sensor frame of a raw file, and
//! the provenance links. Aperture, focal length and position are floating
//! point and are read beside this.
use vstd::prelude::*;
use vstd::string::*;
use crate::meta::xmp::{lossy_text, text_view, utf8_lossy};
use crate::meta::{
    exif_timestamp, find_xmp, parse_exif_datetime, trim, trimmed_text, xmp_packet, DateSource,
    Provenance,
};
use crate::meta::xmp::{parse_xmp, provenance_of, xml_events};
use crate::sniff::Container;

verus! {

/// A parsed EXIF block, as kamadak-exif keeps it.
#[verifier::external_type_specification]
#[verifier::external_body]
pub struct ExExifBlock(exif::Exif);

/// One field of an EXIF block, as kamadak-exif keeps it.
#[verifier::external_type_specification]
#[verifier::external_body]
pub struct ExExifField(exif::Field);

/// The directory a tag number belongs to.
#[derive(Debug, Clone, Copy, PartialEq, Eq, Structural)]
pub enum TagContext {
    /// The TIFF attributes of the primary image.
    Tiff,
    /// The Exif directory.
    Exif,
}

pub const IMAGE_WIDTH: u16 = 0x100;
pub const IMAGE_LENGTH: u16 = 0x101;
pub const MAKE: u16 = 0x10f;
pub const MODEL: u16 = 0x110;
pub const ORIENTATION: u16 = 0x112;
pub const SOFTWARE: u16 = 0x131;
pub const DATE_TIME: u16 = 0x132;
pub const EXPOSURE_TIME: u16 = 0x829a;
pub const PHOTOGRAPHIC_SENSITIVITY: u16 = 0x8827;
pub const DATE_TIME_ORIGINAL: u16 = 0x9003;
pub const DATE_TIME_DIGITIZED: u16 = 0x9004;
pub const PIXEL_X_DIMENSION: u16 = 0xa002;
pub const PIXEL_Y_DIMENSION: u16 = 0xa003;
pub const BODY_SERIAL_NUMBER: u16 = 0xa431;
pub const LENS_MODEL: u16 = 0xa434;
/// DNG's `OriginalRawFileName`: the raw file a DNG was converted from.
pub const ORIGINAL_RAW_FILE_NAME: u16 = 0xc68b;

/// The key of a tag in an EXIF block: its directory (0 for the TIFF
/// attributes, 1 for the Exif directory, 2 for GPS, 3 for interoperability)
/// and its number.
pub open spec fn tag_key(context: TagContext, number: u16) -> (u8, u16) {
    (
        match context {
            TagContext::Tiff => 0u8,
            TagContext::Exif => 1u8,
        },
        number,
    )
}

/// What an EXIF field holds, as plain values: the unsigned integers of its
/// value (see [`field_uints`]), its strings if it is an ASCII field (see
/// [`field_strings`]), and its value as kamadak-exif displays it (see
/// [`field_shown`]).
pub type FieldView = (Seq<u32>, Option<Seq<Seq<u8>>>, Seq<char>);

/// What kamadak-exif's `Reader::read_from_container` makes of a file's
/// bytes: nothing when it finds no EXIF block it can read, else the fields
/// of the block's primary image, by [`tag_key`].
pub uninterp spec fn exif_block(bytes: Seq<u8>) -> Option<Map<(u8, u16), FieldView>>;

/// The fields a parsed EXIF block holds for its primary image, by
/// [`tag_key`].
pub uninterp spec fn exif_fields(x: exif::Exif) -> Map<(u8, u16), FieldView>;

/// The unsigned integers an EXIF field's value holds: the components of a
/// BYTE, SHORT or LONG value, widened to `u32`, in order; none for a value
/// of another type.
pub uninterp spec fn field_uints(f: exif::Field) -> Seq<u32>;

/// The strings an EXIF field's value holds when it is an ASCII value, each
/// as its bytes; `None` for a value of another type.
pub uninterp spec fn field_strings(f: exif::Field) -> Option<Seq<Seq<u8>>>;

/// What kamadak-exif's `Field::display_value` writes for a field.
pub uninterp spec fn field_shown(f: exif::Field) -> Seq<char>;

/// The field `f` as plain values.
pub open spec fn field_view(f: exif::Field) -> FieldView {
    (field_uints(f), field_strings(f), field_shown(f))
}

/// The EXIF block of a file, by kamadak-exif's
/// `Reader::read_from_container`, if it finds one it can read. The reading
/// depends on the bytes alone: the block found holds the fields that
/// [`exif_block`] names.
#[verifier::external_body]
fn read_exif(bytes: &[u8]) -> (r: Option<exif::Exif>)
    ensures
        r is Some <==> exif_block(bytes@) is Some,
        r matches Some(x) ==> exif_fields(x) == exif_block(bytes@).unwrap(),
{
    exif::Reader::new().read_from_container(&mut std::io::Cursor::new(bytes)).ok()
}

/// The field of the primary image with this tag, by `Exif::get_field`,
/// which looks the tag up among the block's fields.
#[verifier::external_body]
fn exif_field<'a>(x: &'a exif::Exif, context: TagContext, number: u16) -> (r: Option<&'a exif::Field>)
    ensures
        r is Some <==> exif_fields(*x).contains_key(tag_key(context, number)),
        r matches Some(f) ==> field_view(*f) == exif_fields(*x)[tag_key(context, number)],
{
    let context = match context {
        TagContext::Tiff => exif::Context::Tiff,
        TagContext::Exif => exif::Context::Exif,
    };
    x.get_field(exif::Tag(context, number), exif::In::PRIMARY)
}

/// The strings of an ASCII field, `None` for a field of another type.
#[verifier::external_body]
fn field_ascii(f: &exif::Field) -> (r: Option<Vec<Vec<u8>>>)
    ensures
        match r {
            Some(l) => Some(l@.map_values(|b: Vec<u8>| b@)),
            None => None,
        } == field_strings(*f),
{
    match &f.value {
        exif::Value::Ascii(v) => Some(v.clone()),
        _ => None,
    }
}

/// The first unsigned integer of a field, by `Value::get_uint(0)`: none
/// when the value is not BYTE, SHORT or LONG, or holds no component.
#[verifier::external_body]
fn field_uint(f: &exif::Field) -> (r: Option<u32>)
    ensures
        r == first_uint(field_uints(*f)),
{
    f.value.get_uint(0)
}

/// A field's value as kamadak-exif displays it, by `Field::display_value`.
#[verifier::external_body]
fn field_display(f: &exif::Field) -> (r: String)
    ensures
        r@ == field_shown(*f),
{
    f.display_value().to_string()
}

/// The first of `v`, if any.
pub open spec fn first_uint(v: Seq<u32>) -> Option<u32> {
    if v.len() > 0 {
        Some(v[0])
    } else {
        None
    }
}

/// The first unsigned integer of the field with key `key` among `fields`,
/// if there is such a field and its value has one.
pub open spec fn uint_at(fields: Map<(u8, u16), FieldView>, key: (u8, u16)) -> Option<u32> {
    if fields.contains_key(key) {
        first_uint(fields[key].0)
    } else {
        None
    }
}

/// The strings of the field with key `key` among `fields`, if there is such
/// a field and it is an ASCII one.
pub open spec fn strings_at(fields: Map<(u8, u16), FieldView>, key: (u8, u16)) -> Option<Seq<Seq<u8>>> {
    if fields.contains_key(key) {
        fields[key].1
    } else {
        None
    }
}

/// How the field with key `key` among `fields` is displayed, if there is one.
pub open spec fn shown_at(fields: Map<(u8, u16), FieldView>, key: (u8, u16)) -> Option<Seq<char>> {
    if fields.contains_key(key) {
        Some(fields[key].2)
    } else {
        None
    }
}

/// The text an ASCII field carries: its first string, decoded and trimmed,
/// if anything is left.
pub open spec fn ascii_text(v: Option<Seq<Seq<u8>>>) -> Option<Seq<char>> {
    match v {
        Some(list) => if list.len() > 0 && trim(utf8_lossy(list[0])).len() > 0 {
            Some(trim(utf8_lossy(list[0])))
        } else {
            None
        },
        None => None,
    }
}

/// The text an ASCII field carries, from its strings.
pub fn ascii_value(v: Option<Vec<Vec<u8>>>) -> (r: Option<String>)
    ensures
        text_view(r) == ascii_text(
            match v {
                Some(l) => Some(l@.map_values(|b: Vec<u8>| b@)),
                None => None,
            },
        ),
{
    match v {
        Some(list) => {
            if list.len() == 0 {
                return None;
            }
            let t = trimmed_text(lossy_text(list[0].as_slice()).as_str());
            if t.as_str().is_empty() {
                None
            } else {
                Some(t)
            }
        },
        None => None,
    }
}

fn ascii_of(x: &exif::Exif, context: TagContext, number: u16) -> (r: Option<String>)
    ensures
        text_view(r) == ascii_text(strings_at(exif_fields(*x), tag_key(context, number))),
{
    match exif_field(x, context, number) {
        Some(f) => ascii_value(field_ascii(f)),
        None => None,
    }
}

fn shown_of(x: &exif::Exif, context: TagContext, number: u16) -> (r: Option<String>)
    ensures
        text_view(r) == shown_at(exif_fields(*x), tag_key(context, number)),
{
    match exif_field(x, context, number) {
        Some(f) => Some(field_display(f)),
        None => None,
    }
}

fn uint_of(x: &exif::Exif, context: TagContext, number: u16) -> (r: Option<u32>)
    ensures
        r == uint_at(exif_fields(*x), tag_key(context, number)),
{
    match exif_field(x, context, number) {
        Some(f) => field_uint(f),
        None => None,
    }
}

/// What an EXIF block says, field by field, before anything is decided.
#[derive(Debug, Clone, Default)]
pub struct ExifFacts {
    pub orientation: Option<u32>,
    pub make: Option<String>,
    pub model: Option<String>,
    pub body_serial: Option<String>,
    pub lens: Option<String>,
    pub iso: Option<u32>,
    pub exposure: Option<String>,
    pub software: Option<String>,
    /// `DateTimeOriginal`, `DateTimeDigitized` and `DateTime`.
    pub date_original: Option<String>,
    pub date_digitized: Option<String>,
    pub date_time: Option<String>,
    pub pixel_x: Option<u32>,
    pub image_width: Option<u32>,
    pub pixel_y: Option<u32>,
    pub image_length: Option<u32>,
    pub dng_original_raw: Option<String>,
}

/// The texts of the facts are those of the block's fields `fields`: the
/// trimmed text of the ASCII field with each tag, and the exposure time as
/// kamadak-exif displays it.
pub open spec fn texts_read(f: ExifFacts, fields: Map<(u8, u16), FieldView>) -> bool {
    &&& text_view(f.make) == ascii_text(strings_at(fields, tag_key(TagContext::Tiff, MAKE)))
    &&& text_view(f.model) == ascii_text(strings_at(fields, tag_key(TagContext::Tiff, MODEL)))
    &&& text_view(f.body_serial) == ascii_text(
        strings_at(fields, tag_key(TagContext::Exif, BODY_SERIAL_NUMBER)),
    )
    &&& text_view(f.lens) == ascii_text(strings_at(fields, tag_key(TagContext::Exif, LENS_MODEL)))
    &&& text_view(f.exposure) == shown_at(fields, tag_key(TagContext::Exif, EXPOSURE_TIME))
    &&& text_view(f.software) == ascii_text(strings_at(fields, tag_key(TagContext::Tiff, SOFTWARE)))
    &&& text_view(f.date_original) == ascii_text(
        strings_at(fields, tag_key(TagContext::Exif, DATE_TIME_ORIGINAL)),
    )
    &&& text_view(f.date_digitized) == ascii_text(
        strings_at(fields, tag_key(TagContext::Exif, DATE_TIME_DIGITIZED)),
    )
    &&& text_view(f.date_time) == ascii_text(strings_at(fields, tag_key(TagContext::Tiff, DATE_TIME)))
    &&& text_view(f.dng_original_raw) == ascii_text(
        strings_at(fields, tag_key(TagContext::Tiff, ORIGINAL_RAW_FILE_NAME)),
    )
}

/// The numbers of the facts are those of the block's fields `fields`.
pub open spec fn numbers_read(f: ExifFacts, fields: Map<(u8, u16), FieldView>) -> bool {
    &&& f.orientation == uint_at(fields, tag_key(TagContext::Tiff, ORIENTATION))
    &&& f.iso == uint_at(fields, tag_key(TagContext::Exif, PHOTOGRAPHIC_SENSITIVITY))
    &&& f.pixel_x == uint_at(fields, tag_key(TagContext::Exif, PIXEL_X_DIMENSION))
    &&& f.image_width == uint_at(fields, tag_key(TagContext::Tiff, IMAGE_WIDTH))
    &&& f.pixel_y == uint_at(fields, tag_key(TagContext::Exif, PIXEL_Y_DIMENSION))
    &&& f.image_length == uint_at(fields, tag_key(TagContext::Tiff, IMAGE_LENGTH))
}

/// What the EXIF block of a file says, if kamadak-exif finds one: facts
/// exactly when it reads a block, each the value of the block's field with
/// its tag.
pub fn exif_facts(bytes: &[u8]) -> (r: Option<ExifFacts>)
    ensures
        r is Some <==> exif_block(bytes@) is Some,
        r matches Some(f) ==> texts_read(f, exif_block(bytes@).unwrap()) && numbers_read(
            f,
            exif_block(bytes@).unwrap(),
        ),
{
    let x = match read_exif(bytes) {
        Some(x) => x,
        None => return None,
    };
    Some(
        ExifFacts {
            orientation: uint_of(&x, TagContext::Tiff, ORIENTATION),
            make: ascii_of(&x, TagContext::Tiff, MAKE),
            model: ascii_of(&x, TagContext::Tiff, MODEL),
            body_serial: ascii_of(&x, TagContext::Exif, BODY_SERIAL_NUMBER),
            lens: ascii_of(&x, TagContext::Exif, LENS_MODEL),
            iso: uint_of(&x, TagContext::Exif, PHOTOGRAPHIC_SENSITIVITY),
            exposure: shown_of(&x, TagContext::Exif, EXPOSURE_TIME),
            software: ascii_of(&x, TagContext::Tiff, SOFTWARE),
            date_original: ascii_of(&x, TagContext::Exif, DATE_TIME_ORIGINAL),
            date_digitized: ascii_of(&x, TagContext::Exif, DATE_TIME_DIGITIZED),
            date_time: ascii_of(&x, TagContext::Tiff, DATE_TIME),
            pixel_x: uint_of(&x, TagContext::Exif, PIXEL_X_DIMENSION),
            image_width: uint_of(&x, TagContext::Tiff, IMAGE_WIDTH),
            pixel_y: uint_of(&x, TagContext::Exif, PIXEL_Y_DIMENSION),
            image_length: uint_of(&x, TagContext::Tiff, IMAGE_LENGTH),
            dng_original_raw: ascii_of(&x, TagContext::Tiff, ORIGINAL_RAW_FILE_NAME),
        },
    )
}

/// What the library reads of an image's metadata.
#[derive(Debug, Clone, Default)]
pub struct ImageMeta {
    pub orientation: u16,
    pub taken_at: Option<i64>,
    pub date_source: DateSource,
    pub camera_make: Option<String>,
    pub camera_model: Option<String>,
    pub body_serial: Option<String>,
    pub lens: Option<String>,
    pub iso: Option<u32>,
    pub exposure: Option<String>,
    /// `Software` / `CreatorTool`: names the editor that wrote the file.
    pub software: Option<String>,
    /// Dimensions of the photograph itself, when the container records them
    /// separately from whatever preview was decoded.
    pub raw_dimensions: Option<(u32, u32)>,
    pub provenance: Provenance,
}

/// The capture time a date text gives, if it parses.
pub open spec fn stamp(t: Option<String>) -> Option<int> {
    match t {
        Some(s) => exif_timestamp(s@),
        None => None,
    }
}

/// The capture date and where it came from: the original date, else the
/// digitized one, else the file's own date, the first that parses.
pub open spec fn capture_date(f: ExifFacts) -> (Option<int>, DateSource) {
    if stamp(f.date_original) is Some {
        (stamp(f.date_original), DateSource::Exif)
    } else if stamp(f.date_digitized) is Some {
        (stamp(f.date_digitized), DateSource::Digitized)
    } else if stamp(f.date_time) is Some {
        (stamp(f.date_time), DateSource::FileDateTime)
    } else {
        (None, DateSource::NoDate)
    }
}

/// `a` if present, else `b`.
pub open spec fn either(a: Option<u32>, b: Option<u32>) -> Option<u32> {
    match a {
        Some(x) => Some(x),
        None => b,
    }
}

/// For a raw file the primary directory describes the sensor frame, which
/// is the photograph rather than the preview: its width and height, both
/// present and neither zero.
pub open spec fn sensor_frame(f: ExifFacts, container: Container) -> Option<(u32, u32)> {
    let w = either(f.pixel_x, f.image_width);
    let h = either(f.pixel_y, f.image_length);
    if (container == Container::Tiff || container == Container::Heif) && w is Some && h is Some
        && w.unwrap() > 0 && h.unwrap() > 0 {
        Some((w.unwrap(), h.unwrap()))
    } else {
        None
    }
}

/// `m` is what the EXIF facts `exif` and the XMP reading `xmp` say of a
/// file in `container`. XMP fills only what EXIF left open.
pub open spec fn composed(
    m: ImageMeta,
    exif: Option<ExifFacts>,
    xmp: Option<(Provenance, Option<String>)>,
    container: Container,
) -> bool {
    let software = match exif {
        Some(f) => text_view(f.software),
        None => None,
    };
    &&& match exif {
        Some(f) => {
            &&& m.orientation == (match f.orientation {
                Some(o) => o,
                None => 1u32,
            }) as u16
            &&& m.taken_at == match capture_date(f).0 {
                Some(t) => Some(t as i64),
                None => None,
            }
            &&& m.date_source == capture_date(f).1
            &&& text_view(m.camera_make) == text_view(f.make)
            &&& text_view(m.camera_model) == text_view(f.model)
            &&& text_view(m.body_serial) == text_view(f.body_serial)
            &&& text_view(m.lens) == text_view(f.lens)
            &&& m.iso == f.iso
            &&& text_view(m.exposure) == text_view(f.exposure)
            &&& m.raw_dimensions == sensor_frame(f, container)
            &&& text_view(m.provenance.dng_original_raw) == text_view(f.dng_original_raw)
        },
        None => {
            &&& m.orientation == 1
            &&& m.taken_at is None
            &&& m.date_source == DateSource::NoDate
            &&& m.camera_make is None && m.camera_model is None && m.body_serial is None
            &&& m.lens is None && m.iso is None && m.exposure is None
            &&& m.raw_dimensions is None
            &&& m.provenance.dng_original_raw is None
        },
    }
    &&& match xmp {
        Some((p, tool)) => {
            &&& text_view(m.provenance.document_id) == text_view(p.document_id)
            &&& text_view(m.provenance.original_document_id) == text_view(p.original_document_id)
            &&& text_view(m.provenance.derived_from) == text_view(p.derived_from)
            &&& text_view(m.software) == match software {
                Some(s) => Some(s),
                None => text_view(tool),
            }
        },
        None => {
            &&& m.provenance.document_id is None
            &&& m.provenance.original_document_id is None
            &&& m.provenance.derived_from is None
            &&& text_view(m.software) == software
        },
    }
}

fn stamp_of(t: &Option<String>) -> (r: Option<i64>)
    ensures
        match stamp(*t) {
            Some(v) => r == Some(v as i64),
            None => r is None,
        },
{
    match t {
        Some(s) => parse_exif_datetime(s.as_str()),
        None => None,
    }
}

/// The metadata that EXIF facts and an XMP reading give together.
pub fn compose(
    exif: Option<ExifFacts>,
    xmp: Option<(Provenance, Option<String>)>,
    container: Container,
) -> (m: ImageMeta)
    ensures
        composed(m, exif, xmp, container),
{
    let mut m = ImageMeta {
        orientation: 1,
        taken_at: None,
        date_source: DateSource::NoDate,
        camera_make: None,
        camera_model: None,
        body_serial: None,
        lens: None,
        iso: None,
        exposure: None,
        software: None,
        raw_dimensions: None,
        provenance: Provenance {
            document_id: None,
            original_document_id: None,
            derived_from: None,
            dng_original_raw: None,
        },
    };
    if let Some(f) = exif {
        m.orientation = match f.orientation {
            Some(o) => o as u16,
            None => 1,
        };
        let original = stamp_of(&f.date_original);
        let digitized = stamp_of(&f.date_digitized);
        let file_time = stamp_of(&f.date_time);
        if original.is_some() {
            m.taken_at = original;
            m.date_source = DateSource::Exif;
        } else if digitized.is_some() {
            m.taken_at = digitized;
            m.date_source = DateSource::Digitized;
        } else if file_time.is_some() {
            m.taken_at = file_time;
            m.date_source = DateSource::FileDateTime;
        }
        let w = match f.pixel_x {
            Some(x) => Some(x),
            None => f.image_width,
        };
        let h = match f.pixel_y {
            Some(y) => Some(y),
            None => f.image_length,
        };
        if container.is_indexed() {
            if let (Some(w), Some(h)) = (w, h) {
                if w > 0 && h > 0 {
                    m.raw_dimensions = Some((w, h));
                }
            }
        }
        m.camera_make = f.make;
        m.camera_model = f.model;
        m.body_serial = f.body_serial;
        m.lens = f.lens;
        m.iso = f.iso;
        m.exposure = f.exposure;
        m.software = f.software;
        m.provenance.dng_original_raw = f.dng_original_raw;
    }
    if let Some((p, tool)) = xmp {
        m.provenance.document_id = p.document_id;
        m.provenance.original_document_id = p.original_document_id;
        m.provenance.derived_from = p.derived_from;
        if m.software.is_none() {
            m.software = tool;
        }
    }
    m
}

/// `f` is what the EXIF block `block` says: nothing when there is none,
/// else each fact the value of the block's field with its tag.
pub open spec fn exif_read(f: Option<ExifFacts>, block: Option<Map<(u8, u16), FieldView>>) -> bool {
    match block {
        None => f is None,
        Some(fields) => f matches Some(g) && texts_read(g, fields) && numbers_read(g, fields),
    }
}

/// `x` is what the XMP packet `packet` says: nothing when there is none,
/// else what its events name.
pub open spec fn xmp_read(
    x: Option<(Provenance, Option<String>)>,
    packet: Option<Seq<u8>>,
) -> bool {
    match packet {
        None => x is None,
        Some(p) => x matches Some(r) && provenance_of(r, xml_events(p)),
    }
}

/// The metadata of an image in `container`: what its EXIF block says, as
/// kamadak-exif reads it, composed (see [`compose`]) with what its XMP
/// packet adds, as quick-xml reads it. A date is there exactly when its
/// source is; a sensor frame only for an indexed container and with both
/// sides positive; without an EXIF block the orientation is upright and
/// there is no date; without an XMP packet either, nothing is known of the
/// file's provenance or the software that wrote it.
pub fn read(bytes: &[u8], container: Container) -> (m: ImageMeta)
    ensures
        exists|f: Option<ExifFacts>, x: Option<(Provenance, Option<String>)>|
            #![trigger composed(m, f, x, container)]
            composed(m, f, x, container) && exif_read(f, exif_block(bytes@)) && xmp_read(
                x,
                xmp_packet(bytes@),
            ),
        m.taken_at is None <==> m.date_source == DateSource::NoDate,
        m.raw_dimensions matches Some((w, h)) ==> (container == Container::Tiff || container
            == Container::Heif) && w > 0 && h > 0,
        exif_block(bytes@) is None ==> m.orientation == 1 && m.taken_at is None,
        exif_block(bytes@) is None && xmp_packet(bytes@) is None ==> m.software is None
            && m.provenance.document_id is None && m.provenance.original_document_id is None
            && m.provenance.derived_from is None && m.provenance.dng_original_raw is None,
{
    let facts = exif_facts(bytes);
    let xmp = match find_xmp(bytes) {
        Some(packet) => Some(parse_xmp(packet)),
        None => None,
    };
    let m = compose(facts, xmp, container);
    proof {
        assert(composed(m, facts, xmp, container));
    }
    m
}

} // verus!
