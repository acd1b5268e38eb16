use photo_cleanup::lang::Lang;
use photo_cleanup::family::links::{detect, shutter_candidates, stem_text, LinkFacts, LinkKind};

fn file(dir: &str, name: &str, container: &str) -> LinkFacts {
    LinkFacts {
        name: name.into(),
        dir: dir.into(),
        container: container.into(),
        ..Default::default()
    }
}

#[test]
fn a_raw_and_its_camera_jpeg_are_paired() {
    let mut raw = file("/foto", "DSC01234.ARW", "tiff");
    let mut jpg = file("/foto", "DSC01234.JPG", "jpeg");
    raw.taken_at = Some(1000);
    jpg.taken_at = Some(1001);
    raw.camera_model = Some("ILCE-7M3".into());
    jpg.camera_model = Some("ILCE-7M3".into());
    let links = detect(&[raw, jpg], Lang::En);
    assert_eq!(links.len(), 1);
    assert_eq!((links[0].a, links[0].b), (0, 1));
    assert_eq!(links[0].kind, LinkKind::RawJpegPair);
    assert_eq!(links[0].detail, "same name DSC01234 and the same moment");
}

#[test]
fn frames_moments_apart_or_from_other_bodies_are_not_pairs() {
    let mut raw = file("/foto", "DSC1.ARW", "tiff");
    let mut jpg = file("/foto", "DSC1.JPG", "jpeg");
    raw.taken_at = Some(1000);
    jpg.taken_at = Some(1010);
    assert!(detect(&[raw.clone(), jpg.clone()], Lang::En).is_empty());
    jpg.taken_at = Some(1000);
    jpg.camera_model = Some("X100V".into());
    assert!(detect(&[raw.clone(), jpg.clone()], Lang::En).is_empty());
    // Without a date on either side the shared name still pairs them.
    let a = file("/foto", "IMG_1.HEIC", "heif");
    let b = file("/foto", "IMG_1.jpg", "jpeg");
    assert_eq!(detect(&[a, b], Lang::En).len(), 1);
    // The same container twice is not a camera pair.
    let c = file("/foto", "x.jpg", "jpeg");
    let d = file("/foto", "X.JPG", "jpeg");
    assert!(detect(&[c, d], Lang::En).is_empty());
}

#[test]
fn identical_bytes_link_neighbours_in_order() {
    let mut fs: Vec<LinkFacts> = (0..3).map(|i| file(&format!("/d{i}"), &format!("f{i}.jpg"), "jpeg")).collect();
    for f in fs.iter_mut() {
        f.partial_hash = Some(vec![9, 9]);
    }
    fs[1].pixel_hash = Some(vec![1]);
    let links = detect(&fs, Lang::En);
    let pairs: Vec<(usize, usize, LinkKind)> = links.iter().map(|l| (l.a, l.b, l.kind)).collect();
    assert_eq!(pairs, vec![(0, 1, LinkKind::SameBytes), (1, 2, LinkKind::SameBytes)]);
    assert_eq!(links[0].detail, "same size and the same bytes at both ends");
}

#[test]
fn a_dng_links_to_the_raw_it_names_in_its_own_folder_first() {
    let mut dng = file("/a", "DSC01234.dng", "tiff");
    dng.dng_original_raw = Some("DSC01234.ARW".into());
    let here = file("/a", "dsc01234.arw", "tiff");
    let elsewhere = file("/b", "DSC01234.ARW", "tiff");
    let links = detect(&[dng.clone(), elsewhere.clone(), here.clone()], Lang::En);
    let conv: Vec<_> = links.iter().filter(|l| l.kind == LinkKind::DngConversion).collect();
    assert_eq!(conv.len(), 1);
    assert_eq!((conv[0].a, conv[0].b), (0, 2));
    assert_eq!(conv[0].detail, "OriginalRawFileName = DSC01234.ARW");
    // The DNG shares its own stem, so its folder always answers the
    // lookup: with no raw beside it, it links nowhere.
    let links = detect(&[dng.clone(), elsewhere], Lang::En);
    assert!(links.iter().all(|l| l.kind != LinkKind::DngConversion));
    // Named differently from its raw, it finds the raw in any folder.
    let mut renamed = dng;
    renamed.name = "edited.dng".into();
    let links = detect(&[renamed, file("/b", "DSC01234.ARW", "tiff")], Lang::En);
    let conv: Vec<_> = links.iter().filter(|l| l.kind == LinkKind::DngConversion).collect();
    assert_eq!(conv.len(), 1);
    assert_eq!((conv[0].a, conv[0].b), (0, 1));
}

#[test]
fn adobe_document_chains_link_derivations_and_siblings() {
    let mut parent = file("/p", "a.psd", "psd");
    parent.doc_id = Some("xmp.did:1".into());
    parent.orig_doc_id = Some("xmp.did:0".into());
    let mut child = file("/c", "b.jpg", "jpeg");
    child.derived_from = Some("xmp.did:1".into());
    child.orig_doc_id = Some("xmp.did:0".into());
    let links = detect(&[parent, child], Lang::En);
    let kinds: Vec<LinkKind> = links.iter().map(|l| l.kind).collect();
    assert_eq!(kinds, vec![LinkKind::XmpDerived, LinkKind::XmpSibling]);
    assert_eq!((links[0].a, links[0].b), (1, 0));
    assert_eq!(links[0].detail, "xmpMM:DerivedFrom = xmp.did:1");
    assert_eq!(links[1].detail, "shared OriginalDocumentID = xmp.did:0");
}

#[test]
fn a_stem_keeps_its_case() {
    assert_eq!(stem_text("DSC01234.ARW"), "DSC01234");
    assert_eq!(stem_text("noext"), "noext");
}

#[test]
fn frames_of_one_body_and_second_are_shutter_candidates() {
    let mut files: Vec<LinkFacts> = Vec::new();
    for (serial, t) in [("A1", 50), ("B2", 50), ("A1", 50), ("A1", 51), ("A1", 50), ("B2", 50)] {
        let mut f = file("/foto", "x.jpg", "jpeg");
        f.body_serial = Some(serial.into());
        f.taken_at = Some(t);
        files.push(f);
    }
    files.push(file("/foto", "y.jpg", "jpeg"));
    let pairs = shutter_candidates(&files);
    assert_eq!(pairs, vec![(0, 2), (0, 4), (2, 4), (1, 5)]);
}

#[test]
fn a_lone_frame_has_no_shutter_candidate() {
    let mut f = file("/foto", "x.jpg", "jpeg");
    f.body_serial = Some("A1".into());
    f.taken_at = Some(50);
    assert!(shutter_candidates(&[f]).is_empty());
}

#[test]
fn a_link_says_why_in_the_interface_language() {
    let mut raw = file("/a", "DSC01234.ARW", "tiff");
    let mut jpg = file("/a", "DSC01234.JPG", "jpeg");
    raw.taken_at = Some(1000);
    jpg.taken_at = Some(1000);
    let links = detect(&[raw, jpg], Lang::Ru);
    assert_eq!(links.len(), 1);
    assert_eq!(links[0].detail, "одно имя DSC01234 и один момент съёмки");
}
