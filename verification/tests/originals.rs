use photo_cleanup::db::marks::{Mark, MarkScope, Marks};
use photo_cleanup::family::originals::{
    settle_family, settle_plan, KeeperChange, SettleFamily, SettleMember, SettleReport, Settled,
};

fn marks(roots: &[&str], list: &[(&str, MarkScope)]) -> Marks {
    let mut roots: Vec<String> = roots.iter().map(|r| r.to_string()).collect();
    roots.sort_by(|a, b| b.len().cmp(&a.len()).then_with(|| a.cmp(b)));
    Marks {
        roots,
        marks: list.iter().map(|(p, s)| Mark { path: p.to_string(), scope: *s }).collect(),
    }
}

fn member(id: i64, path: &str, same: bool) -> SettleMember {
    SettleMember { file_id: id, path: path.into(), quality_rank: 0, same_picture: same, rejected: false }
}

fn group(family: i64, keeper: i64, members: Vec<SettleMember>) -> SettleFamily {
    SettleFamily { family, members, by_hand: false, keeper: Some(keeper) }
}

/// What applying the rule reports once every change was written.
fn apply(m: &Marks, fs: &[SettleFamily]) -> (SettleReport, Vec<KeeperChange>) {
    let (mut report, changes) = settle_plan(m, fs);
    for c in &changes {
        report.count_move(c, true);
    }
    (report, changes)
}

#[test]
fn a_mark_reaches_every_depth_below_the_folder_it_names() {
    let m = marks(&[], &[("/foto", MarkScope::Absolute)]);
    let g = group(1, 10, vec![
        member(10, "/backup/2014/DSC_0001.JPG", true),
        member(11, "/foto/2014/raw/june/DSC_0001.JPG", true),
    ]);
    let (report, changes) = apply(&m, &[g]);
    assert_eq!(report, SettleReport { groups: 1, moved: 1, untouched: 0, by_hand: 0 });
    assert_eq!(changes, vec![KeeperChange { family: 1, file: 11, was: Some(10) }]);
}

#[test]
fn one_relative_mark_settles_the_same_folder_on_every_disk() {
    let m = marks(
        &["/mnt/disk1", "/mnt/disk2", "/mnt/disk3"],
        &[("D/разобрано/даня/театр", MarkScope::EveryRoot)],
    );
    let mut fs = Vec::new();
    for (n, disk) in ["disk1", "disk2", "disk3"].iter().enumerate() {
        let loose = 100 + 2 * n as i64;
        let good = loose + 1;
        fs.push(group(n as i64, loose, vec![
            member(loose, &format!("/mnt/{disk}/D/свалка/IMG.JPG"), true),
            member(good, &format!("/mnt/{disk}/D/разобрано/даня/театр/IMG.JPG"), true),
        ]));
    }
    let (report, changes) = apply(&m, &fs);
    assert_eq!(report, SettleReport { groups: 3, moved: 3, untouched: 0, by_hand: 0 });
    let kept: Vec<i64> = changes.iter().map(|c| c.file).collect();
    assert_eq!(kept, vec![101, 103, 105]);
}

#[test]
fn a_disk_added_later_is_covered_without_marking_it_again() {
    let m = marks(&["/mnt/disk1", "/mnt/disk4"], &[("D/театр", MarkScope::EveryRoot)]);
    let g = group(1, 7, vec![
        member(7, "/mnt/disk4/D/свалка/IMG.JPG", true),
        member(8, "/mnt/disk4/D/театр/IMG.JPG", true),
    ]);
    assert_eq!(settle_family(&m, &g), Settled::Keep(8));
}

#[test]
fn a_folder_whose_name_merely_starts_the_same_is_not_covered() {
    let m = marks(&[], &[("/foto", MarkScope::Absolute)]);
    let g = group(1, 10, vec![
        member(10, "/backup/2014/DSC_0001.JPG", true),
        member(11, "/foto-old/2014/DSC_0001.JPG", true),
    ]);
    assert_eq!(settle_family(&m, &g), Settled::NotCovered);
    assert_eq!(apply(&m, &[g]), (SettleReport::default(), vec![]));
}

#[test]
fn a_frame_set_aside_by_hand_is_not_chosen_by_the_rule() {
    let m = marks(&[], &[("/foto", MarkScope::Absolute)]);
    let mut original = member(11, "/foto/2014/DSC_0001.JPG", true);
    original.rejected = true;
    let g = group(1, 10, vec![member(10, "/backup/2014/DSC_0001.JPG", true), original]);
    let (report, changes) = apply(&m, &[g]);
    assert_eq!(report.groups, 1);
    assert_eq!(report.moved, 0);
    assert!(changes.is_empty());
}

#[test]
fn a_different_photograph_in_the_marked_folder_is_left_for_a_person() {
    let m = marks(&[], &[("/foto", MarkScope::Absolute)]);
    let g = group(1, 10, vec![
        member(10, "/backup/2014/DSC_0001.JPG", true),
        member(11, "/foto/2014/DSC_0001.jpg", false),
    ]);
    let (report, changes) = apply(&m, &[g]);
    assert_eq!(report, SettleReport { groups: 1, moved: 0, untouched: 1, by_hand: 0 });
    assert!(changes.is_empty());
}

#[test]
fn a_keeper_the_user_chose_by_hand_outranks_the_rule() {
    let m = marks(&[], &[("/foto", MarkScope::Absolute)]);
    let mut g = group(1, 10, vec![
        member(10, "/backup/2014/DSC_0001.JPG", true),
        member(11, "/foto/2014/DSC_0001.JPG", true),
    ]);
    g.by_hand = true;
    assert_eq!(apply(&m, &[g]), (SettleReport { groups: 1, moved: 0, untouched: 0, by_hand: 1 }, vec![]));
}

#[test]
fn the_deeper_mark_then_quality_then_the_older_file_decides() {
    let m = marks(&[], &[("/foto", MarkScope::Absolute), ("/foto/best", MarkScope::Absolute)]);
    let mut a = member(5, "/foto/x/IMG.JPG", true);
    a.quality_rank = 9;
    let b = member(6, "/foto/best/IMG.JPG", true);
    let g = group(1, 5, vec![a.clone(), b]);
    assert_eq!(settle_family(&m, &g), Settled::Keep(6));
    let mut c = member(3, "/foto/y/IMG.JPG", true);
    c.quality_rank = 9;
    let g = group(1, 5, vec![a, c]);
    assert_eq!(settle_family(&m, &g), Settled::Keep(3));
    // A change that names the file already kept moves nothing.
    let mut r = SettleReport::default();
    r.count_move(&KeeperChange { family: 1, file: 5, was: Some(5) }, true);
    assert_eq!(r.moved, 0);
}

#[test]
fn settling_twice_moves_nothing_the_second_time() {
    let m = marks(&[], &[("/foto", MarkScope::Absolute)]);
    let mut fs = vec![
        group(1, 10, vec![member(10, "/backup/a.JPG", true), member(11, "/foto/a.JPG", true)]),
        group(2, 20, vec![member(20, "/backup/b.JPG", true), member(21, "/foto/b.JPG", false)]),
        group(3, 30, vec![member(30, "/elsewhere/c.JPG", true)]),
    ];
    let (first, changes) = apply(&m, &fs);
    assert_eq!(first, SettleReport { groups: 2, moved: 1, untouched: 1, by_hand: 0 });
    for c in &changes {
        for f in fs.iter_mut() {
            if f.family == c.family {
                f.keeper = Some(c.file);
            }
        }
    }
    let (second, again) = apply(&m, &fs);
    assert_eq!(second, SettleReport { groups: 2, moved: 0, untouched: 1, by_hand: 0 });
    assert_eq!(again, vec![KeeperChange { family: 1, file: 11, was: Some(11) }]);
}

#[test]
fn with_no_mark_nothing_is_reached() {
    let m = marks(&["/mnt/disk1"], &[]);
    let fs = vec![group(1, 10, vec![member(10, "/foto/a.JPG", true), member(11, "/foto/b.JPG", true)])];
    assert_eq!(apply(&m, &fs), (SettleReport::default(), vec![]));
}
