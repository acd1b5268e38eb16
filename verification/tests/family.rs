use photo_cleanup::db::files::PlanRow;
use photo_cleanup::lang::Lang;
use photo_cleanup::family::categories::{matches_screen, named_as_screenshot, screenshot, Category, ShotCertainty};
use photo_cleanup::family::curation::{tail_key, CurationIndex};
use photo_cleanup::family::links::{stem_lower, LinkKind};
use photo_cleanup::family::plan::{compute_plan, keeper_of, protection_index, Policy};
use photo_cleanup::family::roles::Role;
use photo_cleanup::family::series::SeriesKind;

fn index() -> CurationIndex {
    CurationIndex::build(vec![
        (
            "/mnt/user/data/media/foto/2019/DSC01234.ARW".to_string(),
            Some(5),
        ),
        ("/var/folders/x/foto/Dump/DSC05555.JPG".to_string(), Some(3)),
    ])
}

#[test]
fn an_exact_path_matches() {
    let c = index()
        .lookup("/mnt/user/data/media/foto/2019/DSC01234.ARW")
        .unwrap();
    assert!(c.exact);
    assert_eq!(c.rating, Some(5));
}

#[test]
fn the_unraid_share_and_the_disk_behind_it_are_the_same_file() {
    let c = index()
        .lookup("/mnt/disk3/data/media/foto/2019/DSC01234.ARW")
        .unwrap();
    assert!(!c.exact);
    assert_eq!(c.rating, Some(5));
}

#[test]
fn a_symlinked_prefix_still_matches() {
    let c = index()
        .lookup("/private/var/folders/x/foto/Dump/DSC05555.JPG")
        .unwrap();
    assert_eq!(c.rating, Some(3));
}

#[test]
fn an_unrelated_file_does_not_match() {
    assert!(index()
        .lookup("/mnt/disk1/other/2019/DSC09999.ARW")
        .is_none());
}

#[test]
fn a_reused_sony_number_in_another_folder_does_not_match() {
    assert!(index()
        .lookup("/mnt/disk1/data/media/foto/2023/DSC01234.ARW")
        .is_none());
}

#[test]
fn an_ambiguous_tail_keeps_the_stronger_rating() {
    let idx = CurationIndex::build(vec![
        ("/a/foto/2019/DSC1.JPG".to_string(), Some(2)),
        ("/b/foto/2019/DSC1.JPG".to_string(), Some(5)),
    ]);
    assert_eq!(idx.lookup("/c/foto/2019/DSC1.JPG").unwrap().rating, Some(5));
}

#[test]
fn the_tail_key_is_the_last_three_components_in_lower_case() {
    assert_eq!(tail_key("/mnt/disk3/Foto//2019/DSC01234.ARW"), "foto/2019/dsc01234.arw");
    assert_eq!(tail_key("a/b"), "a/b");
    assert_eq!(tail_key("///"), "");
}

#[test]
fn an_exact_match_is_case_insensitive_even_in_cyrillic() {
    let idx = CurationIndex::build(vec![("/Фото/Архив/IMG_1.JPG".to_string(), None)]);
    let c = idx.lookup("/фото/архив/img_1.jpg").unwrap();
    assert!(c.exact);
    assert_eq!(c.rating, None);
    assert!(!idx.is_empty());
    assert!(CurationIndex::build(vec![]).is_empty());
}

#[test]
fn a_rated_entry_beats_an_unrated_one_on_a_shared_tail() {
    let idx = CurationIndex::build(vec![
        ("/a/x/y/z.jpg".to_string(), None),
        ("/b/x/y/z.jpg".to_string(), Some(1)),
    ]);
    assert_eq!(idx.lookup("/c/x/y/z.jpg").unwrap().rating, Some(1));
    let idx = CurationIndex::build(vec![
        ("/a/x/y/z.jpg".to_string(), Some(4)),
        ("/b/x/y/z.jpg".to_string(), None),
    ]);
    assert_eq!(idx.lookup("/c/x/y/z.jpg").unwrap().rating, Some(4));
}

fn row(id: i64, role: &str, keeper: bool, path: &str) -> PlanRow {
    PlanRow {
        family_id: 1,
        file_id: id,
        role: role.into(),
        path: path.into(),
        size: 1000,
        width: 4000,
        height: 3000,
        mtime: 0,
        inode: id,
        dev: 1,
        disk: "d".into(),
        pixel_hash: Some(vec![1; 32]),
        content_hash: None,
        is_keeper: keeper,
    }
}

#[test]
fn the_default_policy_only_takes_exact_copies() {
    let p = Policy::default();
    assert!(p.remove_roles.contains(&Role::Copy));
    for r in [
        Role::Original,
        Role::CameraJpeg,
        Role::Converted,
        Role::Export,
        Role::Resize,
        Role::Unknown,
    ] {
        assert!(
            !p.remove_roles.contains(&r),
            "{r:?} удалялась бы по умолчанию"
        );
    }
    assert!(p.respect_lightroom);
}

#[test]
fn the_keeper_is_what_makes_the_rest_safe_to_move() {
    let members = vec![
        row(1, "original", true, "/a/keep.jpg"),
        row(2, "copy", false, "/b/copy.jpg"),
    ];
    let k = keeper_of(&members).unwrap();
    assert_eq!(k.file_id, 1);
}

#[test]
fn a_family_without_a_marked_keeper_falls_back_to_the_largest() {
    let mut members = vec![
        row(1, "copy", false, "/a/small.jpg"),
        row(2, "copy", false, "/b/big.jpg"),
    ];
    members[0].width = 100;
    members[0].height = 100;
    assert_eq!(keeper_of(&members).unwrap().file_id, 2);
}

#[test]
fn among_equally_large_members_the_last_is_kept() {
    let members = vec![
        row(1, "copy", false, "/a/one.jpg"),
        row(2, "copy", false, "/b/two.jpg"),
        row(3, "copy", false, "/c/three.jpg"),
    ];
    assert_eq!(keeper_of(&members).unwrap().file_id, 3);
    assert!(keeper_of(&[]).is_none());
}

#[test]
fn the_word_in_the_database_survives_the_round_trip() {
    for kind in [
        SeriesKind::Burst,
        SeriesKind::Bracket,
        SeriesKind::PixelShift,
    ] {
        assert_eq!(SeriesKind::parse(kind.as_str()), kind);
    }
}

#[test]
fn an_unknown_series_word_reads_as_a_burst() {
    assert_eq!(SeriesKind::parse("timelapse"), SeriesKind::Burst);
    assert!(SeriesKind::PixelShift.protected());
    assert!(!SeriesKind::Bracket.protected());
    assert!(!SeriesKind::Burst.protected());
}

#[test]
fn every_role_reads_back_and_only_a_copy_is_removable() {
    for r in [
        Role::Original,
        Role::CameraJpeg,
        Role::Converted,
        Role::Export,
        Role::Resize,
        Role::Copy,
        Role::Unknown,
    ] {
        assert_eq!(Role::parse(r.as_str()), Some(r));
        assert_eq!(r.removable_by_default(), r == Role::Copy);
    }
    assert_eq!(Role::parse("duplicate"), None);
    assert_eq!(Role::CameraJpeg.as_str(), "camera-jpg");
    assert_eq!(Role::CameraJpeg.label(), "CAMERA JPG");
    assert_eq!(Role::Unknown.label(), "?");
}

#[test]
fn every_category_reads_back() {
    for c in [
        Category::Document,
        Category::Screenshot,
        Category::Blank,
        Category::Monochrome,
        Category::Photo,
    ] {
        assert_eq!(Category::parse(c.as_str()), Some(c));
    }
    assert_eq!(Category::parse("Photo"), None);
}

#[test]
fn screen_sizes_match_in_either_orientation() {
    assert!(matches_screen(1920, 1080));
    assert!(matches_screen(1080, 1920));
    assert!(matches_screen(1170, 2532));
    assert!(matches_screen(750, 1334));
    assert!(!matches_screen(6000, 4000));
    assert!(!matches_screen(1920, 1081));
}

#[test]
fn link_kinds_have_their_stored_words() {
    assert_eq!(LinkKind::SameBytes.as_str(), "same-bytes");
    assert_eq!(LinkKind::RawJpegPair.as_str(), "raw-jpeg-pair");
    assert_eq!(LinkKind::SameShutter.as_str(), "same-shutter");
}

#[test]
fn a_stem_drops_only_the_last_extension_and_lowers_the_case() {
    assert_eq!(stem_lower("DSC01234.ARW"), "dsc01234");
    assert_eq!(stem_lower("archive.tar.GZ"), "archive.tar");
    assert_eq!(stem_lower("README"), "readme");
    assert_eq!(stem_lower("Снимок.PNG"), "снимок");
}


fn plan_row(family: i64, id: i64, role: &str, keeper: bool, path: &str, size: i64) -> PlanRow {
    let mut r = row(id, role, keeper, path);
    r.family_id = family;
    r.size = size;
    r
}

#[test]
fn a_plan_takes_copies_refuses_catalogued_ones_and_keeps_the_keeper() {
    let rows = vec![
        plan_row(1, 1, "original", true, "/a/DSC1.ARW", 30),
        plan_row(1, 2, "copy", false, "/b/x/DSC1 (1).ARW", 30),
        plan_row(1, 3, "copy", false, "/c/foto/2019/DSC1.ARW", 50),
        plan_row(2, 4, "export", false, "/d/e.jpg", 10),
        plan_row(2, 5, "copy", false, "/d/f.jpg", 10),
    ];
    let protected = CurationIndex::build(vec![("/lr/foto/2019/dsc1.arw".to_string(), Some(4))]);
    let plan = compute_plan(&rows, &Policy::default(), &protected);
    // Family 2 has no marked keeper: the last of the largest (the copy, id 5)
    // stays, and the default policy does not take an export.
    assert_eq!(plan.candidates.len(), 1);
    assert_eq!(plan.candidates[0].file_id, 2);
    assert_eq!(plan.candidates[0].keeper_id, 1);
    assert_eq!(plan.candidates[0].keeper_path, "/a/DSC1.ARW");
    assert_eq!(plan.candidates[0].reason, "точная копия, те же пиксели сохранены в DSC1.ARW");
    assert_eq!(plan.refusals.len(), 1);
    assert_eq!(plan.refusals[0].path, "/c/foto/2019/DSC1.ARW");
    assert_eq!(plan.refusals[0].why, "файл в каталоге Lightroom, 4 звёзд (совпадение по пути)");
}

#[test]
fn a_resize_is_taken_only_below_the_threshold_and_says_its_size() {
    let mut small = plan_row(7, 2, "resize", false, "/w/small.jpg", 5);
    small.width = 1200;
    small.height = 800;
    let big = plan_row(7, 3, "resize", false, "/w/big.jpg", 9);
    let rows = vec![plan_row(7, 1, "original", true, "/w/keep/DSC7.ARW", 20), small, big];
    let policy = Policy {
        remove_roles: vec![Role::Resize],
        resize_below_pixels: 2_000_000,
        respect_lightroom: false,
    };
    let plan = compute_plan(&rows, &policy, &CurationIndex::build(vec![]));
    assert_eq!(plan.candidates.len(), 1);
    assert_eq!(
        plan.candidates[0].reason,
        "уменьшенная версия 1200×800, полный кадр остаётся в DSC7.ARW"
    );
    assert!(plan.refusals.is_empty());
}

#[test]
fn candidates_come_largest_first_and_refusals_by_path() {
    let rows = vec![
        plan_row(1, 1, "original", true, "/k1", 1),
        plan_row(1, 2, "export", false, "/z/one.jpg", 3),
        plan_row(1, 3, "export", false, "/a/two.jpg", 9),
        plan_row(1, 4, "export", false, "/m/three.jpg", 5),
    ];
    let policy = Policy {
        remove_roles: vec![Role::Export],
        resize_below_pixels: 0,
        respect_lightroom: true,
    };
    let plan = compute_plan(&rows, &policy, &CurationIndex::build(vec![]));
    let sizes: Vec<i64> = plan.candidates.iter().map(|c| c.size).collect();
    assert_eq!(sizes, vec![9, 5, 3]);
    assert_eq!(plan.candidates[0].reason, "EXPORT — в семействе остаётся k1");
    let index = CurationIndex::build(vec![
        ("/z/one.jpg".to_string(), None),
        ("/a/two.jpg".to_string(), Some(0)),
    ]);
    let plan = compute_plan(&rows, &policy, &index);
    let paths: Vec<&str> = plan.refusals.iter().map(|r| r.path.as_str()).collect();
    assert_eq!(paths, vec!["/a/two.jpg", "/z/one.jpg"]);
    assert_eq!(plan.refusals[0].why, "файл в каталоге Lightroom");
}

#[test]
fn a_plan_counts_the_bytes_it_frees() {
    let rows = vec![
        plan_row(1, 1, "original", true, "/a/x.ARW", 30),
        plan_row(1, 2, "copy", false, "/b/x.ARW", 30),
        plan_row(1, 3, "copy", false, "/c/x.ARW", 30),
    ];
    let plan = compute_plan(&rows, &Policy::default(), &CurationIndex::build(vec![]));
    assert_eq!(plan.candidates.len(), 2);
    assert_eq!(plan.bytes(), 60);
}

#[test]
fn categories_are_named_for_the_screen() {
    assert_eq!(Category::Document.label(Lang::En), "Documents and scans");
    assert_eq!(Category::Blank.label(Lang::En), "Empty frames");
    assert_eq!(Category::Photo.label(Lang::En), "Photographs");
    assert_eq!(Category::Screenshot.label(Lang::Ru), "Скриншоты");
    assert_eq!(Category::Monochrome.label(Lang::Ru), "Чёрно-белое");
}

#[test]
fn a_screenshot_is_caught_by_its_name() {
    let v = screenshot("Снимок экрана 2021-03-02 в 11.15.png", 6000, 4000, false, Lang::En).unwrap();
    assert_eq!(v.certainty, ShotCertainty::Likely);
    assert_eq!(v.evidence, vec!["the file name says screenshot".to_string()]);
}

#[test]
fn cyrillic_names_are_matched_case_insensitively() {
    for name in ["Снимок экрана 2021-03-02 в 11.15.png", "СНИМОК ЭКРАНА.png", "Скриншот игры.png"] {
        assert!(named_as_screenshot(name), "not recognised: {name}");
        assert!(screenshot(name, 6000, 4000, false, Lang::En).is_some());
    }
    assert!(named_as_screenshot("Captura de pantalla.PNG"));
    assert!(!named_as_screenshot("DSC01234.JPG"));
}

#[test]
fn a_screenshot_is_caught_by_its_dimensions_without_a_name() {
    let v = screenshot("IMG_0042.png", 1170, 2532, false, Lang::En).unwrap();
    assert_eq!(v.certainty, ShotCertainty::Likely);
    assert!(v.evidence[0].contains("1170"));
    assert_eq!(v.evidence, vec!["screen-sized 1170×2532, no camera".to_string()]);
}

#[test]
fn a_photograph_that_happens_to_be_screen_sized_is_not_a_screenshot() {
    assert!(screenshot("DSC01234.JPG", 1920, 1080, true, Lang::En).is_none());
}

#[test]
fn a_named_screen_sized_grab_is_sure() {
    let v = screenshot("Screenshot 2024-01-01.png", 1080, 1920, false, Lang::En).unwrap();
    assert_eq!(v.certainty, ShotCertainty::Sure);
    assert_eq!(v.evidence.len(), 2);
    // With a camera behind it the name still says so, and the size agrees.
    let v = screenshot("Screenshot 2024-01-01.png", 1080, 1920, true, Lang::En).unwrap();
    assert_eq!(v.certainty, ShotCertainty::Sure);
    assert_eq!(v.evidence, vec!["the file name says screenshot".to_string()]);
}

#[test]
fn screenshot_evidence_speaks_the_interface_language() {
    let v = screenshot("IMG_0042.png", 1170, 2532, false, Lang::Ru).unwrap();
    assert_eq!(v.evidence, vec!["размер экрана 1170×2532, камеры нет".to_string()]);
    let v = screenshot("Скриншот.png", 10, 10, true, Lang::Ru).unwrap();
    assert_eq!(v.evidence, vec!["имя файла говорит о снимке экрана".to_string()]);
}

#[test]
fn a_policy_that_ignores_lightroom_protects_nothing() {
    let catalogued = vec![("/foto/2019/DSC1.JPG".to_string(), Some(5))];
    let mut policy = Policy::default();
    let on = protection_index(&policy, catalogued.clone());
    assert!(on.lookup("/foto/2019/DSC1.JPG").is_some());
    policy.respect_lightroom = false;
    let off = protection_index(&policy, catalogued);
    assert!(off.lookup("/foto/2019/DSC1.JPG").is_none());
    assert!(off.is_empty());
}
