use photo_cleanup::db::marks::{Mark, MarkScope, Marks};
use photo_cleanup::family::plan::Candidate;
use photo_cleanup::family::review::{decision, review_groups, ReviewChoice, ReviewRow};
use photo_cleanup::family::reports::Group;
use photo_cleanup::family::roles::Role;

fn row(family: i64, file: i64, keeper: bool, path: &str, size: i64, id: Option<u8>) -> ReviewRow {
    ReviewRow {
        family_id: family,
        file_id: file,
        is_keeper: keeper,
        path: path.into(),
        role: if keeper { "original".into() } else { "copy".into() },
        size,
        mtime: 5,
        content_hash: None,
        pixel_hash: None,
        pixel_source: None,
        partial_hash: None,
        identity: id.map(|b| vec![b; 4]),
    }
}

fn copy(family: i64, file: i64) -> Candidate {
    Candidate {
        file_id: file,
        family_id: family,
        path: String::new(),
        size: 0,
        role: Role::Copy,
        keeper_id: 0,
        keeper_path: String::new(),
        reason: String::new(),
    }
}

fn no_marks() -> Marks {
    Marks { marks: vec![], roots: vec![] }
}

#[test]
fn groups_come_by_family_with_members_by_file_id() {
    let rows = vec![
        row(7, 30, false, "/b/x.jpg", 100, Some(1)),
        row(3, 11, true, "/a/y.jpg", 50, Some(2)),
        row(7, 12, true, "/a/x.jpg", 100, Some(1)),
        row(5, 40, true, "/a/z.jpg", 1, None),
        row(3, 10, false, "/c/y.jpg", 50, Some(2)),
    ];
    let gs = review_groups(&rows, None, &[], &[], &[], &no_marks(), &[], &[]).unwrap();
    assert_eq!(gs.iter().map(|g| g.id).collect::<Vec<_>>(), vec![3, 7]);
    assert_eq!(gs[0].files, vec![10, 11]);
    assert_eq!(gs[1].files, vec![12, 30]);
    assert_eq!(gs[1].paths, vec!["/a/x.jpg".to_string(), "/b/x.jpg".to_string()]);
    assert_eq!(gs[0].bytes, 50);
    assert!(gs[0].exact);
    assert!(!gs[0].eligible, "no copy candidate");
    assert_eq!(gs[0].state, "pending");
    assert!(gs[0].untouched);
    assert_eq!(gs[0].decision_source, None);
    assert_eq!(gs[0].revision, vec![None, None]);
    // Only one family asked for.
    let one = review_groups(&rows, Some(7), &[], &[], &[], &no_marks(), &[], &[]).unwrap();
    assert_eq!(one.len(), 1);
    assert_eq!(one[0].id, 7);
}

#[test]
fn the_snapshot_is_the_members_as_json() {
    let rows = vec![row(1, 1, true, "/a", 10, None), row(1, 2, false, "/b", 20, None)];
    let gs = review_groups(&rows, None, &[], &[], &[], &no_marks(), &[], &[]).unwrap();
    assert_eq!(
        gs[0].snapshot,
        r#"[[1,true,"/a","original",10,5,null,null,null,null],[2,false,"/b","copy",20,5,null,null,null,null]]"#
    );
}

#[test]
fn exact_copies_the_plan_takes_are_eligible() {
    let rows = vec![row(1, 1, true, "/a", 10, Some(9)), row(1, 2, false, "/b", 20, Some(9))];
    let gs = review_groups(&rows, None, &[], &[], &[], &no_marks(), &[copy(1, 2)], &[]).unwrap();
    assert!(gs[0].exact && gs[0].eligible);
    let other = vec![row(1, 1, true, "/a", 10, Some(9)), row(1, 2, false, "/b", 20, Some(8))];
    let gs = review_groups(&other, None, &[], &[], &[], &no_marks(), &[copy(1, 2)], &[]).unwrap();
    assert!(!gs[0].exact && !gs[0].eligible);
}

#[test]
fn a_shared_choice_holds_only_while_the_group_is_unchanged() {
    let rows = vec![row(1, 1, true, "/a", 10, Some(9)), row(1, 2, false, "/b", 20, Some(9))];
    let snap = review_groups(&rows, None, &[], &[], &[], &no_marks(), &[], &[]).unwrap()[0].snapshot.clone();
    let choice = |op: i64, state: &str, snapshot: &str| ReviewChoice {
        state: state.into(),
        snapshot: snapshot.into(),
        operation: op,
    };
    let agreed = vec![(1, choice(4, "plan", &snap)), (2, choice(4, "plan", &snap))];
    let g = &review_groups(&rows, None, &agreed, &[], &[], &no_marks(), &[], &[]).unwrap()[0];
    assert_eq!(g.state, "plan");
    assert_eq!(g.decision_source.as_deref(), Some("queue"));
    assert_eq!(g.revision, vec![Some(4), Some(4)]);
    assert!(!g.untouched);
    let stale = vec![(1, choice(4, "plan", "old")), (2, choice(4, "plan", "old"))];
    let g = &review_groups(&rows, None, &stale, &[], &[], &no_marks(), &[], &[]).unwrap()[0];
    assert_eq!(g.state, "pending");
    let kept = vec![(1, choice(3, "keep", "old")), (2, choice(3, "keep", "x"))];
    let g = &review_groups(&rows, None, &kept, &[], &[], &no_marks(), &[], &[]).unwrap()[0];
    assert_eq!(g.state, "keep");
}

#[test]
fn decisions_made_elsewhere_are_inherited() {
    let rows = vec![row(1, 1, true, "/foto/a", 10, Some(9)), row(1, 2, false, "/b", 20, Some(9))];
    let g = &review_groups(&rows, None, &[], &[1], &[], &no_marks(), &[], &[]).unwrap()[0];
    assert_eq!((g.state.as_str(), g.decision_source.as_deref()), ("reviewed", Some("manual")));
    let marks = Marks { marks: vec![Mark { path: "/foto".into(), scope: MarkScope::Absolute }], roots: vec![] };
    let g = &review_groups(&rows, None, &[], &[], &[], &marks, &[], &[]).unwrap()[0];
    assert_eq!(g.decision_source.as_deref(), Some("folder"));
    let g = &review_groups(&rows, None, &[], &[], &[2], &no_marks(), &[], &[]).unwrap()[0];
    assert_eq!((g.state.as_str(), g.decision_source.as_deref()), ("reviewed", Some("manual")));
    assert!(!g.untouched);
}

#[test]
fn each_group_carries_the_plans_reasons_for_it() {
    let rows = vec![row(1, 1, true, "/a", 10, None), row(1, 2, false, "/b", 20, None)];
    let refusals = vec![(1, "in a catalog".to_string()), (2, "other".to_string()), (1, "smaller".to_string())];
    let g = &review_groups(&rows, None, &[], &[], &[], &no_marks(), &[], &refusals).unwrap()[0];
    assert_eq!(g.reasons, vec!["in a catalog".to_string(), "smaller".to_string()]);
}

fn queued(id: i64, eligible: bool, files: Vec<i64>, snapshot: &str) -> Group {
    Group {
        id,
        state: "pending".into(),
        exact: eligible,
        eligible,
        bytes: 0,
        files,
        snapshot: snapshot.into(),
        revision: vec![],
        paths: vec![],
        untouched: true,
        reasons: vec![],
        decision_source: None,
    }
}

#[test]
fn only_verified_exact_copies_go_into_the_plan() {
    let groups = vec![queued(1, true, vec![10, 11], "a"), queued(2, false, vec![20, 21], "b")];
    assert_eq!(
        decision(&groups, "plan"),
        Err("Only verified exact-copy groups can be added to the plan".to_string())
    );
    assert_eq!(
        decision(&groups, "keep"),
        Ok(vec![(10, "a".to_string()), (11, "a".to_string()), (20, "b".to_string()), (21, "b".to_string())])
    );
    assert_eq!(
        decision(&groups[..1], "plan"),
        Ok(vec![(10, "a".to_string()), (11, "a".to_string())])
    );
}
