use photo_cleanup::family::roles::{assign, FileFacts, Role};

fn jpeg(name: &str, w: i64, h: i64) -> FileFacts {
    FileFacts {
        path: format!("/foto/{name}"),
        name: name.into(),
        container: "jpeg".into(),
        width: w,
        height: h,
        camera_model: Some("ILCE-6700".into()),
        ..Default::default()
    }
}

fn raw_file(name: &str) -> FileFacts {
    FileFacts {
        path: format!("/foto/{name}"),
        name: name.into(),
        container: "tiff".into(),
        pixel_source: "preview".into(),
        width: 6000,
        height: 4000,
        camera_model: Some("ILCE-7M3".into()),
        ..Default::default()
    }
}

/// Members in file order; quality ranked by pixel count.
fn roles_of(files: &[FileFacts]) -> Vec<Role> {
    let members: Vec<usize> = (0..files.len()).collect();
    let mut px: Vec<i64> = files.iter().map(|f| f.width * f.height).collect();
    px.sort();
    px.dedup();
    let q: Vec<u64> = files
        .iter()
        .map(|f| px.iter().position(|&p| p == f.width * f.height).unwrap() as u64)
        .collect();
    assign(files, &members, &q)
}

#[test]
fn a_raw_and_the_camera_jpeg_beside_it_are_not_duplicates() {
    let files = vec![raw_file("DSC01234.ARW"), jpeg("DSC01234.JPG", 6000, 4000)];
    let r = roles_of(&files);
    assert_eq!(r[0], Role::Original);
    assert_eq!(r[1], Role::CameraJpeg);
    assert!(r.iter().all(|x| !x.removable_by_default()));
}

#[test]
fn two_exports_of_one_frame_have_no_original_between_them() {
    let mut a = jpeg("DSC01147.jpg", 4000, 2667);
    let mut b = jpeg("DSC01147.jpg", 4000, 2667);
    a.software = Some("Adobe Photoshop Lightroom Classic 14.1.1".into());
    b.software = Some("Adobe Photoshop Lightroom Classic 14.1.1".into());
    let r = roles_of(&[a, b]);
    assert_eq!(r, vec![Role::Export, Role::Export]);
    assert!(!r.contains(&Role::Original));
}

#[test]
fn an_exact_copy_is_the_only_role_removed_by_default() {
    let mut a = jpeg("DSC1.jpg", 4000, 3000);
    let mut b = jpeg("DSC1 (1).jpg", 4000, 3000);
    a.pixel_hash = Some(vec![7; 32]);
    b.pixel_hash = Some(vec![7; 32]);
    let members = vec![0usize, 1];
    // The first scores higher, so the second becomes the copy.
    let r = assign(&[a, b], &members, &[2, 1]);
    assert_eq!(r[0], Role::Original);
    assert_eq!(r[1], Role::Copy);
    assert!(r[1].removable_by_default());
    assert!(!r[0].removable_by_default());
}

#[test]
fn a_much_smaller_rendition_is_a_resize() {
    let files = vec![raw_file("DSC01234.ARW"), jpeg("DSC01234_web.jpg", 1200, 800)];
    assert_eq!(roles_of(&files)[1], Role::Resize);
}

#[test]
fn a_dng_that_names_its_source_is_a_conversion() {
    let mut dng = raw_file("DSC01234.dng");
    dng.dng_original_raw = Some("DSC01234.ARW".into());
    let r = roles_of(&[raw_file("DSC01234.ARW"), dng]);
    assert_eq!(r[1], Role::Converted);
}

#[test]
fn identical_twins_keep_the_one_outside_the_archive_folder() {
    let mut a = jpeg("a.jpg", 4000, 3000);
    let mut b = jpeg("a.jpg", 4000, 3000);
    a.path = "/foto/old/archive/a.jpg".into();
    b.path = "/foto/a.jpg".into();
    a.pixel_hash = Some(vec![1; 32]);
    b.pixel_hash = Some(vec![1; 32]);
    let r = assign(&[a, b], &[0, 1], &[5, 5]);
    assert_eq!(r[0], Role::Copy);
    assert_ne!(r[1], Role::Copy);
}

#[test]
fn equally_placed_twins_keep_the_path_that_sorts_first() {
    let mut a = jpeg("b.jpg", 10, 10);
    let mut b = jpeg("a.jpg", 10, 10);
    a.pixel_hash = Some(vec![2; 4]);
    b.pixel_hash = Some(vec![2; 4]);
    let r = assign(&[a, b], &[0, 1], &[0, 0]);
    assert_eq!(r[0], Role::Copy);
    assert_ne!(r[1], Role::Copy);
    assert!(assign(&[], &[], &[]).is_empty());
}
