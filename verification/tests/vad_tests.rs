use mp4_audio_extractor::vad::{keep_runs, merge_runs, voiced_flags, voiced_runs, EnergyLevel};
use EnergyLevel::{Above, AtOrBelow, Unordered};

#[test]
fn runs_of_voiced_frames() {
    let flags = vec![false, true, true, false, true];
    assert_eq!(voiced_runs(&flags), vec![(1, 3), (4, 5)]);
}

#[test]
fn run_from_the_first_frame() {
    let flags = vec![true, true, false, false, true, false];
    assert_eq!(voiced_runs(&flags), vec![(0, 2), (4, 5)]);
}

#[test]
fn no_voiced_frame() {
    assert!(voiced_runs(&vec![false, false]).is_empty());
    assert!(voiced_runs(&vec![]).is_empty());
}

#[test]
fn all_voiced() {
    assert_eq!(voiced_runs(&vec![true; 7]), vec![(0, 7)]);
}

#[test]
fn unordered_level_keeps_the_state() {
    let levels = vec![Unordered, Above, Unordered, AtOrBelow, Unordered, Above];
    assert_eq!(
        voiced_flags(&levels),
        vec![false, true, true, false, false, true]
    );
}

#[test]
fn levels_to_segments() {
    let levels = vec![AtOrBelow, Above, Unordered, Above, AtOrBelow, Above];
    let runs = voiced_runs(&voiced_flags(&levels));
    assert_eq!(runs, vec![(1, 4), (5, 6)]);
}

#[test]
fn short_runs_dropped() {
    let runs = vec![(0, 2), (3, 10), (12, 13)];
    assert_eq!(keep_runs(&runs, &vec![false, true, false]), vec![(3, 10)]);
    assert_eq!(keep_runs(&runs, &vec![true, true, true]), runs);
}

#[test]
fn close_runs_merged() {
    let runs = vec![(0, 2), (3, 5), (9, 10), (11, 12), (20, 21)];
    let join = vec![true, true, false, true, true];
    assert_eq!(merge_runs(&runs, &join), vec![(0, 5), (9, 21)]);
}

#[test]
fn merge_without_joins() {
    let runs = vec![(1, 2), (4, 6)];
    assert_eq!(merge_runs(&runs, &vec![false, false]), runs);
    assert!(merge_runs(&vec![], &vec![]).is_empty());
}
