use photo_cleanup::db::files::{crops_from, FileRow};
use photo_cleanup::probe::{frame_of, identify, usable_preview, Identified, PixelSource};
use photo_cleanup::db::marks::{Mark, MarkScope, Marks};
use photo_cleanup::db::model::{BundleState, JournalStatus};
use photo_cleanup::hash::{blake3, content_hash, crop_distance, hamming, pixel_hash};
use photo_cleanup::lightroom::{check_originals, join_catalog_path, OriginalsCheck};
use photo_cleanup::paths::{join, same_dir};
use photo_cleanup::unionfind::UnionFind;

#[test]
fn joins_paths_with_and_without_slashes() {
    assert_eq!(
        join_catalog_path("/mnt/disk3/foto/", "2019/07/", "DSC01234.ARW"),
        "/mnt/disk3/foto/2019/07/DSC01234.ARW"
    );
    assert_eq!(
        join_catalog_path("/mnt/disk3/foto", "", "DSC01234.ARW"),
        "/mnt/disk3/foto/DSC01234.ARW"
    );
}

#[test]
fn a_folder_of_only_slashes_adds_nothing() {
    assert_eq!(join_catalog_path("/photos///", "///", "a.arw"), "/photos/a.arw");
    assert_eq!(join_catalog_path("/photos/", "/2019/", "a.arw"), "/photos/2019/a.arw");
}

#[test]
fn originals_are_all_present_only_when_none_is_missing() {
    let c = check_originals(&[true, false, true, false]);
    assert_eq!(c.total, 4);
    assert_eq!(c.missing, 2);
    assert!(!c.all_present());
    let c = check_originals(&[]);
    assert_eq!((c.total, c.missing), (0, 0));
    assert!(c.all_present());
    assert!(OriginalsCheck { total: 3, missing: 0 }.all_present());
}

#[test]
fn hamming_counts_differing_bits() {
    assert_eq!(hamming(0, 0), 0);
    assert_eq!(hamming(0b1010, 0b1011), 1);
    assert_eq!(hamming(0, u64::MAX), 64);
    assert_eq!(hamming(u64::MAX, 0x0F0F_0F0F_0F0F_0F0F), 32);
}

#[test]
fn crop_distance_is_the_closest_region_pair() {
    let a = [0u64, 1, 2, 3, 4];
    let b = [u64::MAX, u64::MAX, u64::MAX, u64::MAX, 0b111];
    // 0b111 against 3 (0b011) differs in one bit.
    assert_eq!(crop_distance(&a, &b), 1);
    let far = [u64::MAX; 5];
    assert_eq!(crop_distance(&[0; 5], &far), 64);
}

#[test]
fn blake3_matches_the_reference_digest_of_nothing() {
    let d = blake3(b"");
    assert_eq!(d[0], 0xaf);
    assert_eq!(d[1], 0x13);
    assert_eq!(d[31], 0x62);
    assert_ne!(blake3(b"a"), d);
}

#[test]
fn pixels_treat_an_unknown_side_as_zero() {
    let mut r = FileRow {
        id: 1,
        path: "/a.jpg".into(),
        name: "a.jpg".into(),
        size: 10,
        container: None,
        width: Some(4000),
        height: Some(3000),
        pixel_source: None,
        partial_hash: None,
        pixel_hash: None,
        phash: None,
        dhash: None,
        thumb_key: None,
        skipped_reason: None,
        state: "present".into(),
    };
    assert_eq!(r.pixels(), 12_000_000);
    r.height = None;
    assert_eq!(r.pixels(), 0);
}

#[test]
fn stored_words_of_the_database_read_back() {
    for s in [MarkScope::Absolute, MarkScope::EveryRoot] {
        assert_eq!(MarkScope::parse(s.as_str()), s);
    }
    assert_eq!(MarkScope::parse("somewhere"), MarkScope::Absolute);
    for b in [BundleState::Present, BundleState::Quarantined, BundleState::Purged] {
        assert_eq!(BundleState::parse(b.as_str()), b);
    }
    for j in [
        JournalStatus::Pending,
        JournalStatus::Done,
        JournalStatus::Failed,
        JournalStatus::Undone,
        JournalStatus::Purged,
    ] {
        assert_eq!(JournalStatus::parse(j.as_str()), j);
    }
    assert_eq!(JournalStatus::parse(""), JournalStatus::Pending);
}

#[test]
fn marks_are_empty_without_a_mark() {
    let mut m = Marks::default();
    assert!(m.is_empty());
    m.marks.push(Mark { path: "D/театр".into(), scope: MarkScope::EveryRoot });
    assert!(!m.is_empty());
}

#[test]
fn paths_join_and_compare_as_unix_does() {
    assert_eq!(join("/a/b", "c"), "/a/b/c");
    assert_eq!(join("/a/b/", "c"), "/a/b/c");
    assert_eq!(join("/a/b", "/c"), "/c");
    assert_eq!(join("", "c"), "c");
    assert!(same_dir("/a/b/", "/a//b"));
    assert!(same_dir("/a/./b", "/a/b"));
    assert!(!same_dir("/a/b", "a/b"));
    assert!(!same_dir("/a/b", "/a/c"));
}

#[test]
fn union_find_groups_cover_every_element_once() {
    let mut u = UnionFind::new(7);
    u.union(6, 5);
    u.union(4, 5);
    u.union(0, 2);
    let g = u.groups();
    let mut all: Vec<usize> = g.values().flatten().copied().collect();
    all.sort();
    assert_eq!(all, (0..7).collect::<Vec<_>>());
    for (k, members) in &g {
        assert!(members.contains(k));
        assert!(members.windows(2).all(|w| w[0] < w[1]));
    }
}

#[test]
fn crop_hashes_read_back_from_their_blob() {
    let mut blob = Vec::new();
    for v in [1u64, 0x0102_0304_0506_0708, u64::MAX] {
        blob.extend_from_slice(&v.to_le_bytes());
    }
    blob.push(9);
    assert_eq!(crops_from(Some(blob)), [1, 0x0102_0304_0506_0708, u64::MAX, 0, 0]);
    assert_eq!(crops_from(None), [0; 5]);
}

#[test]
fn pixel_sources_have_their_stored_words() {
    assert_eq!(PixelSource::Full.as_str(), "full");
    assert_eq!(PixelSource::EmbeddedPreview { width: 1, height: 2 }.as_str(), "preview");
    // A JPEG is not an indexed container: it offers no preview to lift.
    let jpeg = [0xFFu8, 0xD8, 0xFF, 0xE0, 0, 16, 0, 0, 0, 0, 0, 0, 0, 0];
    assert!(usable_preview(&jpeg).is_none());
    assert!(usable_preview(b"II*\0").is_none());
}

#[test]
fn a_pixel_hash_covers_the_size_and_the_grey_values() {
    assert_eq!(pixel_hash(2, 1, &[1, 2]), blake3(&[2, 0, 0, 0, 1, 0, 0, 0, 1, 2]));
    // The same bytes as a frame of another shape are another picture.
    assert_ne!(pixel_hash(1, 2, &[1, 2]), pixel_hash(2, 1, &[1, 2]));
}

#[test]
fn a_content_hash_keeps_the_colour() {
    assert_eq!(
        content_hash(1, 1, &[255, 0, 0]),
        blake3(b"rgb8\x01\x00\x00\x00\x01\x00\x00\x00\xff\x00\x00")
    );
    assert_ne!(content_hash(1, 1, &[255, 0, 0]), content_hash(1, 1, &[0, 255, 0]));
    assert_ne!(content_hash(1, 1, &[7, 7, 7]), pixel_hash(1, 1, &[7]));
}

#[test]
fn a_file_is_identified_by_its_bytes_and_a_lying_extension_is_noted() {
    let mut jpeg = vec![0xFF, 0xD8, 0xFF, 0xE0];
    jpeg.resize(32, 0);
    assert_eq!(
        identify(&jpeg, "IMG_1.jpg"),
        Some(Identified { container: photo_cleanup::sniff::Container::Jpeg, extension_lied: false })
    );
    assert_eq!(
        identify(&jpeg, "IMG_1.png"),
        Some(Identified { container: photo_cleanup::sniff::Container::Jpeg, extension_lied: true })
    );
    assert_eq!(
        identify(&jpeg, "IMG_1"),
        Some(Identified { container: photo_cleanup::sniff::Container::Jpeg, extension_lied: false })
    );
    assert_eq!(identify(b"hello, world, this is text", "notes.jpg"), None);
}

#[test]
fn a_preview_reports_its_own_size_and_the_raw_frame_the_photographs() {
    assert_eq!(
        frame_of(Some((6000, 4000)), (1616, 1080), true),
        (PixelSource::EmbeddedPreview { width: 1616, height: 1080 }, 6000, 4000)
    );
    assert_eq!(
        frame_of(None, (1616, 1080), true),
        (PixelSource::EmbeddedPreview { width: 1616, height: 1080 }, 1616, 1080)
    );
    assert_eq!(frame_of(Some((6000, 4000)), (800, 600), false), (PixelSource::Full, 800, 600));
}

#[test]
fn hamming_obeys_the_triangle_inequality() {
    let (a, b, c) = (0b1100u64, 0b1010u64, 0b0110u64);
    assert!(hamming(a, c) <= hamming(a, b) + hamming(b, c));
    assert_eq!(hamming(a, b), hamming(b, a));
    assert_eq!(hamming(a, a), 0);
}
