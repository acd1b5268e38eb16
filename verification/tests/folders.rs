use photo_cleanup::family::folders::{keeper_moves, Frame};

const WORK: &str = "/foto/2014";
const BACK: &str = "/foto/backup/2014";

fn frame(file_id: i64, dir: &str, family_id: i64, keeper: i64, pixels: u8) -> Frame {
    Frame {
        series_id: 1,
        file_id,
        dir: dir.into(),
        family_id,
        keeper_file: Some(keeper),
        pixel_hash: Some(vec![pixels; 32]),
    }
}

#[test]
fn a_burst_is_kept_in_the_folder_that_holds_most_of_it() {
    // Three frames in the working folder, two of them copied into a backup;
    // both copied groups keep the backup's file.
    let (a1, a2, b1, b2, c1) = (1, 2, 3, 4, 5);
    let (fa, fb, fc) = (10, 11, 12);
    let frames = vec![
        frame(a1, WORK, fa, a2, 1),
        frame(a2, BACK, fa, a2, 1),
        frame(b1, WORK, fb, b2, 2),
        frame(b2, BACK, fb, b2, 2),
        frame(c1, WORK, fc, c1, 3),
    ];
    assert_eq!(keeper_moves(&frames, &[]), vec![(fa, a1), (fb, b1)]);
}

#[test]
fn a_keeper_the_user_chose_is_never_moved() {
    let (a1, a2, b1) = (1, 2, 3);
    let frames = vec![
        frame(a1, WORK, 10, a2, 1),
        frame(a2, BACK, 10, a2, 1),
        frame(b1, WORK, 11, b1, 2),
    ];
    assert!(keeper_moves(&frames, &[a2]).is_empty());
}

#[test]
fn a_different_photograph_is_never_swapped_in() {
    let (a1, a2, b1) = (1, 2, 3);
    let frames = vec![
        frame(a1, WORK, 10, a2, 1),
        frame(a2, BACK, 10, a2, 9),
        frame(b1, WORK, 11, b1, 2),
    ];
    assert!(keeper_moves(&frames, &[]).is_empty());
}

#[test]
fn a_tie_between_folders_goes_to_the_first_by_name() {
    // One frame in each folder: "/foto/2014" sorts before "/foto/backup".
    let frames = vec![frame(1, WORK, 10, 2, 1), frame(2, BACK, 10, 2, 1)];
    assert_eq!(keeper_moves(&frames, &[]), vec![(10, 1)]);
}

#[test]
fn a_file_chosen_by_hand_is_not_taken_from_another_keeper() {
    let frames = vec![
        frame(1, WORK, 10, 2, 1),
        frame(2, BACK, 10, 2, 1),
        frame(3, WORK, 11, 3, 2),
    ];
    assert!(keeper_moves(&frames, &[1]).is_empty());
}

#[test]
fn bursts_are_settled_each_in_its_own_home() {
    // Series 2 lives in the backup; its frame there takes the keeping back.
    let mut frames = vec![
        frame(1, WORK, 10, 2, 1),
        frame(2, BACK, 10, 2, 1),
        frame(3, WORK, 11, 3, 2),
        frame(4, BACK, 20, 5, 4),
        frame(5, WORK, 20, 5, 4),
        frame(6, BACK, 21, 6, 6),
    ];
    for f in frames.iter_mut().skip(3) {
        f.series_id = 2;
    }
    assert_eq!(keeper_moves(&frames, &[]), vec![(10, 1), (20, 4)]);
}
