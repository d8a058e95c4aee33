use mc_mot::association::{associate_detections_to_trackers, SCORE_ONE};

fn percent(n: i64) -> i64 {
    SCORE_ONE / 100 * n
}

#[test]
fn without_trackers_all_detections_are_left() {
    let scores = vec![vec![], vec![]];
    assert_eq!(
        associate_detections_to_trackers(&scores, 0, percent(30)),
        (vec![], vec![0, 1], vec![])
    );
}

#[test]
fn without_detections_all_trackers_are_left() {
    assert_eq!(
        associate_detections_to_trackers(&[], 2, percent(30)),
        (vec![], vec![], vec![0, 1])
    );
}

#[test]
fn unambiguous_overlaps_are_matched() {
    let scores = vec![
        vec![0, percent(80), 0],
        vec![percent(60), percent(20), 0],
        vec![0, 0, percent(10)],
    ];
    assert_eq!(
        associate_detections_to_trackers(&scores, 3, percent(30)),
        (vec![(0, 1), (1, 0)], vec![2], vec![2])
    );
}

#[test]
fn ambiguous_overlaps_are_matched_by_total_score() {
    let scores = vec![
        vec![percent(90), percent(80)],
        vec![percent(85), percent(10)],
    ];
    assert_eq!(
        associate_detections_to_trackers(&scores, 2, percent(30)),
        (vec![(0, 1), (1, 0)], vec![], vec![])
    );
}

#[test]
fn pair_below_threshold_is_dropped() {
    let scores = vec![vec![percent(20)]];
    assert_eq!(
        associate_detections_to_trackers(&scores, 1, percent(30)),
        (vec![], vec![0], vec![0])
    );
}

#[test]
fn pair_at_threshold_is_kept() {
    let scores = vec![vec![percent(30)]];
    assert_eq!(
        associate_detections_to_trackers(&scores, 1, percent(30)),
        (vec![(0, 0)], vec![], vec![])
    );
}

#[test]
fn dropped_pairs_come_after_those_without_a_pair() {
    let scores = vec![vec![percent(5)], vec![percent(1)]];
    assert_eq!(
        associate_detections_to_trackers(&scores, 1, percent(30)),
        (vec![], vec![1, 0], vec![0])
    );
}

#[test]
fn every_detection_and_tracker_is_accounted_for_once() {
    let scores = vec![
        vec![percent(50), percent(40), percent(1)],
        vec![percent(45), percent(50), percent(2)],
        vec![percent(35), percent(31), percent(3)],
        vec![0, 0, 0],
    ];
    let (matches, dets, trks) = associate_detections_to_trackers(&scores, 3, percent(30));
    let mut all_dets: Vec<usize> = matches.iter().map(|m| m.0).chain(dets).collect();
    let mut all_trks: Vec<usize> = matches.iter().map(|m| m.1).chain(trks).collect();
    all_dets.sort();
    all_trks.sort();
    assert_eq!(all_dets, vec![0, 1, 2, 3]);
    assert_eq!(all_trks, vec![0, 1, 2]);
    assert_eq!(matches, vec![(0, 0), (1, 1)]);
}

#[test]
fn ties_go_to_the_lowest_tracker() {
    let scores = vec![vec![percent(50); 3]; 2];
    let expected = (vec![(0, 0), (1, 1)], vec![], vec![2]);
    assert_eq!(associate_detections_to_trackers(&scores, 3, percent(30)), expected);
    assert_eq!(associate_detections_to_trackers(&scores, 3, percent(30)), expected);
}
