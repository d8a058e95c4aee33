use mc_mot::association::SCORE_ONE;
use mc_mot::multicam::MultiCameraTracker;
use mc_mot::sort::Track;
use std::collections::HashMap;

fn track(id: i64) -> Track {
    Track { x1: 0, y1: 0, x2: 10, y2: 10, id, label: 0 }
}

fn tracks(ids: &[&[i64]]) -> Vec<Vec<Track>> {
    ids.iter().map(|list| list.iter().map(|id| track(*id)).collect()).collect()
}

/// Scores of 1 for the tracks whose ids are paired, 0 for others.
fn scores(ids: &[&[i64]], pairs: &[(i64, i64)]) -> Vec<Vec<Vec<Vec<i64>>>> {
    ids.iter()
        .map(|rows| {
            ids.iter()
                .map(|cols| {
                    rows.iter()
                        .map(|r| {
                            cols.iter()
                                .map(|c| if pairs.contains(&(*r, *c)) { SCORE_ONE } else { 0 })
                                .collect()
                        })
                        .collect()
                })
                .collect()
        })
        .collect()
}

fn map(entries: &[(i64, i64)]) -> HashMap<i64, i64> {
    entries.iter().copied().collect()
}

#[test]
fn wrong_number_of_cameras_gives_no_ids() {
    let mut tracker = MultiCameraTracker::new(2, SCORE_ONE / 5);
    assert_eq!(tracker.update(&tracks(&[&[1]]), &[]), vec![map(&[]), map(&[])]);
}

#[test]
fn one_camera_keeps_its_ids_apart() {
    let mut tracker = MultiCameraTracker::new(1, SCORE_ONE / 5);
    let ids: &[&[i64]] = &[&[4, 9]];
    assert_eq!(
        tracker.update(&tracks(ids), &scores(ids, &[])),
        vec![map(&[(4, 1), (9, 2)])]
    );
    let ids: &[&[i64]] = &[&[9, 5]];
    assert_eq!(
        tracker.update(&tracks(ids), &scores(ids, &[])),
        vec![map(&[(4, 1), (9, 2), (5, 3)])]
    );
}

#[test]
fn matched_tracks_share_an_id() {
    let mut tracker = MultiCameraTracker::new(2, SCORE_ONE / 5);
    let ids: &[&[i64]] = &[&[1, 2], &[3, 4]];
    assert_eq!(
        tracker.update(&tracks(ids), &scores(ids, &[(1, 3), (2, 4)])),
        vec![map(&[(1, 1), (2, 2)]), map(&[(3, 1), (4, 2)])]
    );
    assert_eq!(
        tracker.update(&tracks(ids), &scores(ids, &[(1, 3), (2, 4)])),
        vec![map(&[(1, 1), (2, 2)]), map(&[(3, 1), (4, 2)])]
    );
}

#[test]
fn tracks_that_do_not_overlap_stay_apart() {
    let mut tracker = MultiCameraTracker::new(2, SCORE_ONE / 5);
    let ids: &[&[i64]] = &[&[1], &[3]];
    assert_eq!(
        tracker.update(&tracks(ids), &scores(ids, &[])),
        vec![map(&[(1, 1)]), map(&[(3, 2)])]
    );
}

#[test]
fn id_of_the_older_track_survives() {
    let mut tracker = MultiCameraTracker::new(2, SCORE_ONE / 5);
    let ids: &[&[i64]] = &[&[], &[7]];
    tracker.update(&tracks(ids), &scores(ids, &[]));
    let ids: &[&[i64]] = &[&[3], &[7]];
    assert_eq!(
        tracker.update(&tracks(ids), &scores(ids, &[(3, 7)])),
        vec![map(&[(3, 1)]), map(&[(7, 1)])]
    );
}

#[test]
fn third_camera_joins_an_identity() {
    let mut tracker = MultiCameraTracker::new(3, SCORE_ONE / 5);
    let ids: &[&[i64]] = &[&[1], &[2], &[3]];
    assert_eq!(
        tracker.update(&tracks(ids), &scores(ids, &[(1, 2), (2, 3)])),
        vec![map(&[(1, 1)]), map(&[(2, 1)]), map(&[(3, 1)])]
    );
}

#[test]
fn merged_identities_stay_merged() {
    let mut tracker = MultiCameraTracker::new(2, SCORE_ONE / 5);
    let ids: &[&[i64]] = &[&[1], &[2]];
    tracker.update(&tracks(ids), &scores(ids, &[(1, 2)]));
    assert_eq!(
        tracker.update(&tracks(ids), &scores(ids, &[])),
        vec![map(&[(1, 1)]), map(&[(2, 1)])]
    );
}

#[test]
fn ids_that_are_no_longer_visible_stay() {
    let mut tracker = MultiCameraTracker::new(2, SCORE_ONE / 5);
    let ids: &[&[i64]] = &[&[1, 5], &[2]];
    tracker.update(&tracks(ids), &scores(ids, &[(1, 2)]));
    let ids: &[&[i64]] = &[&[], &[9]];
    assert_eq!(
        tracker.update(&tracks(ids), &scores(ids, &[])),
        vec![map(&[(1, 1), (5, 2)]), map(&[(2, 1), (9, 4)])]
    );
}
