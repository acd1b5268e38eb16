use photo_cleanup::db::marks::{ordered_roots, Mark, MarkScope, Marks};

fn marks(roots: &[&str], list: &[(&str, MarkScope)]) -> Marks {
    let mut roots: Vec<String> = roots.iter().map(|r| r.to_string()).collect();
    roots.sort_by(|a, b| b.len().cmp(&a.len()).then_with(|| a.cmp(b)));
    Marks {
        roots,
        marks: list
            .iter()
            .map(|(p, s)| Mark {
                path: p.to_string(),
                scope: *s,
            })
            .collect(),
    }
}

#[test]
fn one_relative_mark_speaks_for_every_disk_of_an_array() {
    let m = marks(
        &["/mnt/disk1", "/mnt/disk2", "/mnt/disk3"],
        &[("D/разобрано/даня/театр", MarkScope::EveryRoot)],
    );
    for disk in ["disk1", "disk2", "disk3"] {
        let path = format!("/mnt/{disk}/D/разобрано/даня/театр/IMG_1.JPG");
        assert!(m.covering(&path).is_some(), "{path}");
    }
    assert!(m
        .covering("/mnt/disk2/D/разобрано/даня/театр/сканы/IMG_2.JPG")
        .is_some());
    assert!(m
        .covering("/mnt/disk1/D/разобрано/даня/цирк/IMG_3.JPG")
        .is_none());
}

#[test]
fn a_disk_outside_the_roots_is_not_covered_by_a_relative_mark() {
    // Its path has no relative reading, so nothing relative can claim it.
    let m = marks(&["/mnt/disk1"], &[("D/разобрано", MarkScope::EveryRoot)]);
    assert!(m.covering("/mnt/disk9/D/разобрано/a.jpg").is_none());
    assert!(m.covering("/mnt/disk1/D/разобрано/a.jpg").is_some());
}

#[test]
fn an_absolute_mark_still_means_one_disk_and_only_that_one() {
    let m = marks(
        &["/mnt/disk1", "/mnt/disk2"],
        &[("/mnt/disk1/D/разобрано", MarkScope::Absolute)],
    );
    assert!(m.covering("/mnt/disk1/D/разобрано/a.jpg").is_some());
    assert!(m.covering("/mnt/disk2/D/разобрано/a.jpg").is_none());
}

#[test]
fn the_most_specific_root_decides_what_relative_means() {
    let m = marks(
        &["/mnt/disk1", "/mnt/disk1/D/архив"],
        &[("2014", MarkScope::EveryRoot)],
    );
    // Read against the inner root the rest is `2014`; against the outer
    // one it would be `D/архив/2014` and nothing would match.
    assert!(m.covering("/mnt/disk1/D/архив/2014/a.jpg").is_some());
    assert!(m.covering("/mnt/disk1/D/другое/2014/a.jpg").is_none());
}

#[test]
fn a_name_that_merely_starts_the_same_is_a_different_folder() {
    let m = marks(&["/mnt/disk1"], &[("D/2014", MarkScope::EveryRoot)]);
    assert!(m.covering("/mnt/disk1/D/2014-old/a.jpg").is_none());
    assert!(m.covering("/mnt/disk1/D/2014/a.jpg").is_some());
}

#[test]
fn the_deeper_mark_speaks_and_an_absolute_one_wins_a_tie() {
    let m = marks(
        &["/mnt/disk1"],
        &[
            ("D", MarkScope::EveryRoot),
            ("D/2014", MarkScope::EveryRoot),
            ("/mnt/disk1/D", MarkScope::Absolute),
        ],
    );
    let deep = m.covering("/mnt/disk1/D/2014/a.jpg").unwrap();
    assert_eq!(deep.path, "D/2014");
    let tie = m.covering("/mnt/disk1/D/a.jpg").unwrap();
    assert_eq!(tie.path, "/mnt/disk1/D");
    assert_eq!(tie.scope, MarkScope::Absolute);
}

#[test]
fn with_no_roots_a_path_is_its_own_relative_form() {
    let m = marks(&[""], &[("srv/photo", MarkScope::EveryRoot)]);
    let (root, rest) = m.split("/srv/photo/a.jpg").unwrap();
    assert_eq!(root, "");
    assert_eq!(rest.len(), 3);
    assert!(m.covering("/srv/photo/a.jpg").is_some());
}

#[test]
fn a_relative_node_takes_the_deepest_relative_mark() {
    let m = marks(
        &["/mnt/disk1"],
        &[
            ("D/2014", MarkScope::EveryRoot),
            ("D", MarkScope::EveryRoot),
            ("/mnt/disk1/D/2014/x", MarkScope::Absolute),
        ],
    );
    assert_eq!(m.covering_relative("D/2014/x").unwrap().path, "D/2014");
    assert!(m.covering_relative("E").is_none());
}

#[test]
fn a_folder_is_marked_however_it_is_spelled() {
    let m = marks(&["/mnt/disk1"], &[("/mnt/disk1/D", MarkScope::Absolute)]);
    assert!(m.marked("/mnt/disk1//D/", MarkScope::Absolute));
    assert!(!m.marked("/mnt/disk1/D", MarkScope::EveryRoot));
    assert!(!m.marked("/mnt/disk1/D/E", MarkScope::Absolute));
}

fn strings(v: &[&str]) -> Vec<String> {
    v.iter().map(|s| s.to_string()).collect()
}

#[test]
fn roots_are_tried_longest_first_once_each_without_trailing_separators() {
    let roots = ordered_roots(&strings(&[
        "/mnt/disk1/",
        "/mnt/disk1/D/архив",
        "",
        "/mnt/disk2",
        "/mnt/disk1",
    ]));
    assert_eq!(roots, strings(&["/mnt/disk1/D/архив", "/mnt/disk1", "/mnt/disk2"]));
}

#[test]
fn root_length_is_counted_in_bytes() {
    // "/жжж" is four characters but seven bytes; "/ж/ж" and "/abcde" are
    // six bytes each, and then the name decides.
    let roots = ordered_roots(&strings(&["/abcde", "/ж/ж", "/жжж"]));
    assert_eq!(roots, strings(&["/жжж", "/abcde", "/ж/ж"]));
}

#[test]
fn with_no_roots_configured_the_empty_root_stands_in() {
    assert_eq!(ordered_roots(&[]), strings(&[""]));
    assert_eq!(ordered_roots(&strings(&["", "/", "//"])), strings(&[""]));
}

#[test]
fn a_mark_above_absorbs_the_marks_below_it() {
    let m = marks(
        &["/mnt/disk1"],
        &[
            ("D/2014", MarkScope::EveryRoot),
            ("D/2015/x", MarkScope::EveryRoot),
            ("/mnt/disk1/D/2014", MarkScope::Absolute),
            ("E", MarkScope::EveryRoot),
        ],
    );
    assert_eq!(
        m.absorbed_by("D", MarkScope::EveryRoot),
        Some(vec!["D/2014".to_string(), "D/2015/x".to_string()])
    );
}

#[test]
fn a_folder_already_covered_is_not_marked_again() {
    let m = marks(&["/mnt/disk1"], &[("D", MarkScope::EveryRoot)]);
    assert_eq!(m.absorbed_by("D/2014", MarkScope::EveryRoot), None);
    assert_eq!(m.absorbed_by("D", MarkScope::EveryRoot), None);
    // Naming one disk and naming a path everywhere are different sentences.
    assert_eq!(m.absorbed_by("/mnt/disk1/D/2014", MarkScope::Absolute), Some(vec![]));
}

#[test]
fn keepers_no_mark_covers_are_taken_back() {
    let m = marks(&["/mnt/disk1"], &[("D/2014", MarkScope::EveryRoot)]);
    let rows = vec![
        (1, 10, "/mnt/disk1/D/2014/a.jpg".to_string()),
        (2, 11, "/mnt/disk1/D/2015/b.jpg".to_string()),
        (3, 12, "/elsewhere/c.jpg".to_string()),
    ];
    assert_eq!(m.uncovered(&rows), vec![(2, 11), (3, 12)]);
}
