use photo_cleanup::meta::camera::{compose, exif_facts, read, ExifFacts};
use photo_cleanup::meta::{DateSource, Provenance};
use photo_cleanup::sniff::Container;

/// A little-endian TIFF: IFD0 with `tiff` entries, and an Exif IFD with
/// `exif` entries. Each entry is (tag, type, count, payload).
fn tiff(tiff_entries: &[(u16, u16, u32, Vec<u8>)], exif_entries: &[(u16, u16, u32, Vec<u8>)]) -> Vec<u8> {
    let mut out = b"II*\0".to_vec();
    out.extend_from_slice(&8u32.to_le_bytes());
    let ifd0_len = 2 + 12 * (tiff_entries.len() + 1) + 4;
    let exif_at = 8 + ifd0_len;
    let exif_len = 2 + 12 * exif_entries.len() + 4;
    let mut data_at = exif_at + exif_len;
    let mut data: Vec<u8> = Vec::new();
    let mut entry = |out: &mut Vec<u8>, (tag, ty, count, payload): &(u16, u16, u32, Vec<u8>)| {
        out.extend_from_slice(&tag.to_le_bytes());
        out.extend_from_slice(&ty.to_le_bytes());
        out.extend_from_slice(&count.to_le_bytes());
        if payload.len() <= 4 {
            let mut p = payload.clone();
            p.resize(4, 0);
            out.extend_from_slice(&p);
        } else {
            out.extend_from_slice(&(data_at as u32).to_le_bytes());
            data.extend_from_slice(payload);
            data_at += payload.len();
        }
    };
    let mut ifd0: Vec<(u16, u16, u32, Vec<u8>)> = tiff_entries.to_vec();
    ifd0.push((0x8769, 4, 1, (exif_at as u32).to_le_bytes().to_vec()));
    ifd0.sort_by_key(|e| e.0);
    out.extend_from_slice(&(ifd0.len() as u16).to_le_bytes());
    for e in &ifd0 {
        entry(&mut out, e);
    }
    out.extend_from_slice(&0u32.to_le_bytes());
    let mut ex = exif_entries.to_vec();
    ex.sort_by_key(|e| e.0);
    out.extend_from_slice(&(ex.len() as u16).to_le_bytes());
    for e in &ex {
        entry(&mut out, e);
    }
    out.extend_from_slice(&0u32.to_le_bytes());
    out.extend_from_slice(&data);
    out
}

fn ascii(tag: u16, s: &str) -> (u16, u16, u32, Vec<u8>) {
    let mut b = s.as_bytes().to_vec();
    b.push(0);
    (tag, 2, b.len() as u32, b)
}

fn short(tag: u16, v: u16) -> (u16, u16, u32, Vec<u8>) {
    (tag, 3, 1, v.to_le_bytes().to_vec())
}

fn long(tag: u16, v: u32) -> (u16, u16, u32, Vec<u8>) {
    (tag, 4, 1, v.to_le_bytes().to_vec())
}

fn camera_file() -> Vec<u8> {
    tiff(
        &[
            long(0x100, 6000),
            long(0x101, 4000),
            ascii(0x10f, "  SONY  "),
            ascii(0x110, "ILCE-7M3"),
            short(0x112, 6),
            ascii(0x132, "2020:01:01 00:00:00"),
        ],
        &[
            ascii(0x9003, "2019:07:14 18:32:05"),
            ascii(0xa431, "00123"),
            short(0x8827, 400),
        ],
    )
}

#[test]
fn a_camera_file_yields_its_camera_date_and_sensor_frame() {
    let m = read(&camera_file(), Container::Tiff);
    assert_eq!(m.camera_make.as_deref(), Some("SONY"));
    assert_eq!(m.camera_model.as_deref(), Some("ILCE-7M3"));
    assert_eq!(m.body_serial.as_deref(), Some("00123"));
    assert_eq!(m.orientation, 6);
    assert_eq!(m.iso, Some(400));
    assert_eq!(m.taken_at, Some(1_563_129_125));
    assert_eq!(m.date_source, DateSource::Exif);
    assert_eq!(m.raw_dimensions, Some((6000, 4000)));
    assert!(m.provenance.is_empty());
}

#[test]
fn only_an_indexed_container_reports_the_sensor_frame() {
    let m = read(&camera_file(), Container::Jpeg);
    assert_eq!(m.raw_dimensions, None);
}

#[test]
fn the_file_date_stands_in_when_the_capture_dates_are_missing() {
    let bytes = tiff(&[ascii(0x132, "2020:01:01 00:00:00")], &[ascii(0x9003, "garbage")]);
    let m = read(&bytes, Container::Tiff);
    assert_eq!(m.taken_at, Some(1_577_836_800));
    assert_eq!(m.date_source, DateSource::FileDateTime);
}

#[test]
fn xmp_fills_what_exif_left_open() {
    let mut bytes = tiff(&[ascii(0x131, "Camera firmware 1.0")], &[]);
    bytes.extend_from_slice(
        br#"<x:xmpmeta><rdf:Description xmp:CreatorTool="Lightroom" xmpMM:DocumentID="xmp.did:1"/></x:xmpmeta>"#,
    );
    let m = read(&bytes, Container::Tiff);
    assert_eq!(m.software.as_deref(), Some("Camera firmware 1.0"));
    assert_eq!(m.provenance.document_id.as_deref(), Some("xmp.did:1"));
}

#[test]
fn a_file_without_exif_still_reads_its_xmp() {
    let bytes = br#"junk<x:xmpmeta><rdf:Description xmp:CreatorTool="GIMP"/></x:xmpmeta>"#;
    assert!(exif_facts(bytes).is_none());
    let m = read(bytes, Container::Png);
    assert_eq!(m.orientation, 1);
    assert_eq!(m.date_source, DateSource::NoDate);
    assert_eq!(m.software.as_deref(), Some("GIMP"));
}

#[test]
fn facts_compose_in_order_of_trust() {
    let f = ExifFacts {
        date_original: Some("garbage".into()),
        date_digitized: Some("2019:07:14 18:32:05".into()),
        date_time: Some("2020:01:01 00:00:00".into()),
        pixel_x: Some(0),
        image_width: Some(10),
        pixel_y: None,
        image_length: Some(20),
        orientation: Some(65_544),
        ..Default::default()
    };
    let m = compose(Some(f.clone()), None, Container::Heif);
    assert_eq!(m.taken_at, Some(1_563_129_125));
    assert_eq!(m.date_source, DateSource::Digitized);
    // A zero width from PixelXDimension is taken as given, and refused.
    assert_eq!(m.raw_dimensions, None);
    assert_eq!(m.orientation, 8);
    let p = Provenance {
        derived_from: Some("xmp.did:P".into()),
        ..Default::default()
    };
    let m = compose(None, Some((p, Some("Affinity".into()))), Container::Jpeg);
    assert_eq!(m.provenance.derived_from.as_deref(), Some("xmp.did:P"));
    assert_eq!(m.software.as_deref(), Some("Affinity"));
}

#[test]
fn each_fact_comes_from_the_field_with_its_tag() {
    let mut exposure = 1u32.to_le_bytes().to_vec();
    exposure.extend_from_slice(&250u32.to_le_bytes());
    let bytes = tiff(
        &[ascii(0x10f, "Maker"), ascii(0x110, "Model"), ascii(0x131, "Lightroom")],
        &[(0x829a, 5, 1, exposure), ascii(0xa434, "FE 35mm F1.8")],
    );
    let f = exif_facts(&bytes).unwrap();
    assert_eq!(f.make.as_deref(), Some("Maker"));
    assert_eq!(f.model.as_deref(), Some("Model"));
    assert_eq!(f.software.as_deref(), Some("Lightroom"));
    assert_eq!(f.lens.as_deref(), Some("FE 35mm F1.8"));
    assert_eq!(f.exposure.as_deref(), Some("1/250"));
    assert_eq!(f.body_serial, None);
    assert_eq!(f.iso, None);
    assert_eq!(f.orientation, None);
}
