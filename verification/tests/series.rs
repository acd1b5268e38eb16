use photo_cleanup::family::series::{
    series_kind, series_runs, FrameFacts, SeriesKind, DEFAULT_GAP_SECS,
};
use photo_cleanup::lang::Lang;

fn frame(id: i64, t: i64, phash: u64) -> FrameFacts {
    FrameFacts {
        id,
        taken_at: Some(t),
        camera_model: Some("ILCE-7M3".into()),
        phash,
    }
}

#[test]
fn frames_seconds_apart_form_one_series() {
    let files = vec![frame(1, 1000, 0b1010), frame(2, 1002, 0b1011), frame(3, 1004, 0b1010)];
    let s = series_runs(&files, 10);
    assert_eq!(s.len(), 1);
    assert_eq!(s[0].members.len(), 3);
    assert_eq!(s[0].started_at, Some(1000));
    assert_eq!(s[0].camera.as_deref(), Some("ILCE-7M3"));
}

#[test]
fn a_long_gap_starts_a_new_series() {
    let files = vec![
        frame(1, 1000, 0b1010),
        frame(2, 1002, 0b1010),
        frame(3, 5000, 0b1010),
        frame(4, 5002, 0b1010),
    ];
    assert_eq!(series_runs(&files, 10).len(), 2);
}

#[test]
fn two_unrelated_shots_moments_apart_are_not_a_series() {
    let files = vec![
        frame(1, 1000, 0x0000_0000_0000_0000),
        frame(2, 1003, 0xFFFF_FFFF_FFFF_FFFF),
    ];
    assert!(series_runs(&files, 10).is_empty());
}

#[test]
fn frames_from_different_cameras_never_join() {
    let mut files = vec![frame(1, 1000, 0b1010), frame(2, 1001, 0b1010)];
    files[1].camera_model = Some("X100V".into());
    assert!(series_runs(&files, 10).is_empty());
}

#[test]
fn a_single_frame_is_not_a_series() {
    assert!(series_runs(&[frame(1, 1000, 0b1010)], 10).is_empty());
}

#[test]
fn frames_are_taken_in_time_order_and_series_by_their_start() {
    // Out of order on input; an export without a camera takes no part.
    let mut export = frame(9, 1001, 0b1010);
    export.camera_model = None;
    let files = vec![
        frame(4, 5002, 0b1),
        frame(1, 1000, 0b1010),
        export,
        frame(3, 5000, 0b1),
        frame(2, 1003, 0b1010),
    ];
    let s = series_runs(&files, DEFAULT_GAP_SECS);
    assert_eq!(s.len(), 2);
    assert_eq!(s[0].members, vec![1, 4]);
    assert_eq!(s[1].members, vec![3, 0]);
    assert_eq!(s[1].started_at, Some(5000));
}

#[test]
fn a_guess_about_the_camera_is_worded_as_a_guess() {
    for lang in [Lang::Ru, Lang::En] {
        for kind in [SeriesKind::PixelShift, SeriesKind::Bracket] {
            let label = kind.label(lang);
            assert!(
                label.starts_with("похоже") || label.starts_with("looks like"),
                "метка утверждает режим камеры: {label}"
            );
            assert!(!kind.because(lang).is_empty(), "не сказано, что измерено");
        }
    }
    assert_eq!(SeriesKind::Burst.label(Lang::En), "burst");
    assert_eq!(SeriesKind::Burst.label(Lang::Ru), "серия");
    assert!(SeriesKind::PixelShift.protected());
}

/// Whether the frames' clipping (high plus low) differs widely, as the
/// shell measures it.
fn exposures_differ(clip: &[f64]) -> bool {
    let hi = clip.iter().cloned().fold(0.0f64, f64::max);
    let lo = clip.iter().cloned().fold(f64::MAX, f64::min);
    hi - lo > 0.08
}

#[test]
fn a_pixel_shift_set_is_recognised_and_protected() {
    // Four raw frames inside a second, visually identical.
    let files: Vec<FrameFacts> = (1..=4).map(|i| frame(i, 1000 + i / 4, 0b1010)).collect();
    let s = series_runs(&files, 10);
    assert_eq!(s.len(), 1);
    let taken: Vec<Option<i64>> = s[0].members.iter().map(|&m| files[m].taken_at).collect();
    let kind = series_kind(&taken, &[true; 4], exposures_differ(&[0.0; 4]));
    assert_eq!(kind, SeriesKind::PixelShift);
    assert!(kind.protected());
}

#[test]
fn bracketing_is_told_apart_by_its_exposure_spread() {
    let files = vec![frame(1, 1000, 0b1010), frame(2, 1001, 0b1010), frame(3, 1002, 0b1010)];
    let s = series_runs(&files, 10);
    let taken: Vec<Option<i64>> = s[0].members.iter().map(|&m| files[m].taken_at).collect();
    let kind = series_kind(&taken, &[false; 3], exposures_differ(&[0.18, 0.0, 0.15]));
    assert_eq!(kind, SeriesKind::Bracket);
}

#[test]
fn a_slow_or_unclipped_run_is_a_burst() {
    let taken = [Some(1000), Some(1005)];
    assert_eq!(series_kind(&taken, &[false; 2], true), SeriesKind::Burst);
    assert_eq!(series_kind(&[Some(1), Some(2), Some(3), None], &[true; 4], false), SeriesKind::PixelShift);
    assert_eq!(series_kind(&[None, None], &[true; 2], true), SeriesKind::Burst);
}

#[test]
fn every_series_member_is_a_real_frame_in_one_series_only() {
    let mut loose = frame(9, 1001, 0b1010);
    loose.camera_model = None;
    let files = vec![
        frame(1, 1000, 0b1010),
        loose,
        frame(2, 1002, 0b1010),
        frame(3, 5000, 0b1010),
        frame(4, 5003, 0b1010),
    ];
    let s = series_runs(&files, DEFAULT_GAP_SECS);
    let mut seen: Vec<usize> = s.iter().flat_map(|r| r.members.iter().copied()).collect();
    let n = seen.len();
    seen.sort();
    seen.dedup();
    assert_eq!(seen.len(), n);
    assert_eq!(seen, vec![0, 2, 3, 4]);
}
