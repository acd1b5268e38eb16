use photo_cleanup::family::grouping::{
    family_kind, join_families, keeper_position, EvidenceFrom, FamilyKind,
};
use photo_cleanup::family::links::{Link, LinkKind};
use photo_cleanup::unionfind::UnionFind;

fn link(a: usize, b: usize) -> Link {
    Link {
        a,
        b,
        kind: LinkKind::SameBytes,
        detail: "identical bytes".into(),
    }
}

fn groups(uf: &mut UnionFind) -> Vec<Vec<usize>> {
    uf.groups().into_values().collect()
}

#[test]
fn links_then_looks_join_files_and_name_their_evidence() {
    let (mut uf, ev) = join_families(
        5,
        &[false; 5],
        &[link(0, 1)],
        &[(2, 3), (1, 2)],
        &[],
        &[0; 5],
        10,
    );
    assert_eq!(groups(&mut uf), vec![vec![0, 1, 2, 3], vec![4]]);
    assert_eq!(
        ev,
        vec![
            Some(EvidenceFrom::Link(0)),
            Some(EvidenceFrom::Link(0)),
            Some(EvidenceFrom::Look(0)),
            Some(EvidenceFrom::Look(0)),
            None
        ]
    );
}

#[test]
fn a_file_split_off_by_hand_joins_nothing() {
    let mut split = [false; 3];
    split[1] = true;
    let (mut uf, ev) = join_families(3, &split, &[link(0, 1)], &[(1, 2)], &[(0, 1)], &[0; 3], 64);
    assert_eq!(groups(&mut uf), vec![vec![0], vec![1], vec![2]]);
    assert_eq!(ev, vec![None, None, None]);
}

#[test]
fn one_moment_joins_only_where_appearance_agrees() {
    let phash = [0b000u64, 0b111, 0b001];
    let (mut uf, ev) = join_families(3, &[false; 3], &[], &[], &[(0, 1), (0, 2)], &phash, 2);
    assert_eq!(groups(&mut uf), vec![vec![0, 2], vec![1]]);
    assert_eq!(ev, vec![None, None, None]);
    let (mut uf, _) = join_families(3, &[false; 3], &[], &[], &[(0, 1), (0, 2)], &phash, 3);
    assert_eq!(groups(&mut uf), vec![vec![0, 1, 2]]);
}

#[test]
fn a_family_is_single_linked_or_perceptual() {
    let ev = vec![None, Some(EvidenceFrom::Link(0)), None, None];
    assert_eq!(family_kind(&[0], &ev), FamilyKind::Single);
    assert_eq!(family_kind(&[0, 1], &ev), FamilyKind::Linked);
    assert_eq!(family_kind(&[2, 3], &ev), FamilyKind::Perceptual);
    assert_eq!(FamilyKind::Perceptual.as_str(), "perceptual");
    assert_eq!(FamilyKind::Linked.as_str(), "linked");
    assert_eq!(FamilyKind::Single.as_str(), "single");
}

#[test]
fn a_keeper_chosen_by_hand_outranks_the_ranking() {
    assert_eq!(keeper_position(&[10, 11, 12], &[12, 11], 0), 1);
    assert_eq!(keeper_position(&[10, 11, 12], &[99], 2), 2);
}
