use photo_cleanup::family::perceptual::{
    candidates, derivation_plausible, straight_from_camera, verdict, Candidate, PairLook,
    ShotFacts, Verdict, CROP_MAX, MAX_CANDIDATES_PER_FILE, PHASH_MAX,
};

/// The two similarity bars of the default parameters.
const SSIM_MIN: f64 = 0.90;
const SSIM_MIN_SAME_SHAPE: f64 = 0.97;

fn plausible(a: &ShotFacts, b: &ShotFacts, ssim: f64) -> bool {
    derivation_plausible(a, b, ssim >= SSIM_MIN, ssim >= SSIM_MIN_SAME_SHAPE)
}

fn f(w: i64, h: i64, container: &str, taken: Option<i64>) -> ShotFacts {
    ShotFacts {
        width: w,
        height: h,
        container: container.into(),
        taken_at: taken,
        ..Default::default()
    }
}

fn raw(taken: i64) -> ShotFacts {
    ShotFacts {
        width: 5456,
        height: 3632,
        container: "tiff".into(),
        pixel_source: "preview".into(),
        taken_at: Some(taken),
        ..Default::default()
    }
}

/// A frame as the camera wrote it: a name, a body, nothing derived.
fn from_camera(name: &str, taken: i64) -> ShotFacts {
    ShotFacts {
        name: format!("{name}.JPG"),
        width: 6192,
        height: 4128,
        container: "jpeg".into(),
        taken_at: Some(taken),
        camera_model: Some("ILCE-6700".into()),
        ..Default::default()
    }
}

#[test]
fn two_frames_of_a_burst_are_not_one_photograph() {
    let a = from_camera("DSC04122", 1_770_000_000);
    let b = from_camera("DSC04123", 1_770_000_000);
    assert!(!plausible(&a, &b, 0.971), "кадры серии приняты за один снимок");
    assert!(!plausible(&a, &b, 0.999));
}

#[test]
fn a_camera_jpeg_beside_its_raw_still_belongs_to_the_same_shot() {
    let jpeg = from_camera("DSC04122", 1_770_000_000);
    let mut twin = from_camera("DSC04122", 1_770_000_000);
    twin.name = "DSC04122.ARW".into();
    assert!(plausible(&jpeg, &twin, 0.98));
}

#[test]
fn an_export_under_a_new_name_is_still_a_rendition() {
    let original = from_camera("DSC04122", 1_770_000_000);
    let mut export = from_camera("beach-sunset", 1_770_000_000);
    export.software = Some("Adobe Lightroom Classic 13.2".into());
    assert!(!straight_from_camera(&export));
    assert!(straight_from_camera(&original));
    assert!(plausible(&original, &export, 0.98));
}

#[test]
fn a_tripod_sequence_is_not_a_set_of_duplicates() {
    let (a, b) = (raw(1_450_000_000), raw(1_450_000_300));
    for ssim in [0.860, 0.879, 0.921, 0.957] {
        assert!(!plausible(&a, &b, ssim), "два кадра RAW слились при SSIM {ssim}");
    }
}

#[test]
fn a_rescaled_copy_is_a_plausible_derivative() {
    let big = f(6000, 4000, "jpeg", Some(1));
    let small = f(1200, 800, "jpeg", Some(1));
    assert!(plausible(&big, &small, 0.91));
    assert!(!plausible(&big, &small, 0.80));
}

#[test]
fn a_format_conversion_is_a_plausible_derivative() {
    let a = f(4000, 3000, "jpeg", Some(1));
    let b = f(4000, 3000, "png", Some(1));
    assert!(plausible(&a, &b, 0.93));
}

#[test]
fn same_size_same_format_needs_a_near_perfect_match() {
    let a = f(4000, 3000, "jpeg", Some(1_000));
    let b = f(4000, 3000, "jpeg", Some(1_000));
    assert!(plausible(&a, &b, 0.985));
    assert!(!plausible(&a, &b, 0.93));
}

#[test]
fn two_frames_seconds_apart_are_not_merged_even_when_nearly_identical() {
    let a = f(4000, 3000, "jpeg", Some(1_000));
    let b = f(4000, 3000, "jpeg", Some(1_040));
    assert!(!plausible(&a, &b, 0.99));
    let c = f(4000, 3000, "jpeg", Some(1_001));
    assert!(plausible(&a, &c, 0.99));
}

fn cand(a: usize, b: usize, d: u32, crop: bool) -> Candidate {
    Candidate {
        a,
        b,
        phash_distance: d,
        via_crop: crop,
    }
}

#[test]
fn close_hashes_and_close_regions_are_leads() {
    let phash = [0u64, 0b1, u64::MAX, 0b11];
    let mut crops = [[0u64; 5], [0u64; 5], [u64::MAX; 5], [0u64; 5]];
    // The third frame shares one region with the first: a crop.
    crops[2][4] = 0b111;
    crops[0][1] = 0b101;
    let found = candidates(&phash, &crops, PHASH_MAX, CROP_MAX, MAX_CANDIDATES_PER_FILE);
    assert_eq!(
        found,
        vec![
            cand(0, 1, 1, false),
            cand(0, 2, 64, true),
            cand(0, 3, 2, false),
            cand(1, 2, 63, true),
            cand(1, 3, 1, false),
            cand(2, 3, 62, true),
        ]
    );
}

#[test]
fn a_file_keeps_only_its_closest_leads() {
    // File 0 is close to 1 (2 bits), 2 (1 bit), 3 (2 bits) and 4 (1 bit).
    let phash = [0u64, 0b11, 0b1, 0b110, 0b1000];
    let crops = [[u64::MAX; 5], [0; 5], [0; 5], [0; 5], [0; 5]];
    let found = candidates(&phash, &crops, 2, 0, 2);
    let of_zero: Vec<_> = found.iter().filter(|c| c.a == 0).copied().collect();
    assert_eq!(of_zero, vec![cand(0, 2, 1, false), cand(0, 4, 1, false)]);
    assert!(candidates(&phash, &crops, 2, 0, 0).is_empty());
}

#[test]
fn a_candidate_is_screened_in_order() {
    let a = f(4000, 3000, "jpeg", Some(1));
    let b = f(1200, 900, "jpeg", Some(1));
    let seen = PairLook {
        flat_a: false,
        flat_b: false,
        thumbs: true,
        similar: true,
        near_identical: false,
    };
    assert_eq!(verdict(&a, &b, seen), Verdict::Verified);
    assert_eq!(verdict(&a, &b, PairLook { flat_b: true, thumbs: false, ..seen }), Verdict::Blank);
    assert_eq!(verdict(&a, &b, PairLook { thumbs: false, ..seen }), Verdict::ThumbnailMissing);
    assert_eq!(verdict(&a, &b, PairLook { similar: false, ..seen }), Verdict::Dissimilar);
    assert_eq!(verdict(&raw(1), &raw(2), seen), Verdict::Series);
}
