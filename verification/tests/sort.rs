use mc_mot::association::SCORE_ONE;
use mc_mot::sort::{shared_id, BBox, KalmanBoxTracker, SharedId, Sort, Track};

fn bbox(x: i64) -> BBox {
    BBox { x1: x, y1: 0, x2: x + 50, y2: 200 }
}

/// A frame in which detection `i` overlaps tracker `i` and no other.
fn frame(sort: &mut Sort<i64>, count: &mut SharedId, filters: Vec<i64>) -> Vec<Track> {
    sort.predict(&vec![false; sort.len()]);
    let mut scores = Vec::new();
    for d in 0..filters.len() {
        let row: Vec<i64> = (0..sort.len()).map(|t| if t == d { SCORE_ONE } else { 0 }).collect();
        scores.push(row);
    }
    let labels = vec![0; filters.len()];
    sort.update(&scores, &labels, filters, count);
    let boxes: Vec<BBox> = (0..sort.len()).map(|t| bbox(*sort.filter(t))).collect();
    sort.report(&boxes)
}

fn ids(tracks: &[Track]) -> Vec<i64> {
    tracks.iter().map(|t| t.id).collect()
}

#[test]
fn counter_starts_at_zero() {
    assert_eq!(shared_id().taken(), 0);
}

#[test]
fn first_frame_reports_new_trackers_last_first() {
    let mut count = shared_id();
    let mut sort = Sort::new(30, 3, SCORE_ONE / 10);
    sort.predict(&[]);
    let (matches, starts) =
        sort.update(&[vec![], vec![]], &[5, 6], vec![100, 300], &mut count);
    assert_eq!(matches, vec![]);
    assert_eq!(starts, vec![0, 1]);
    let tracks = sort.report(&[bbox(100), bbox(300)]);
    assert_eq!(
        tracks,
        vec![
            Track { x1: 300, y1: 0, x2: 350, y2: 200, id: 2, label: 6 },
            Track { x1: 100, y1: 0, x2: 150, y2: 200, id: 1, label: 5 },
        ]
    );
    assert_eq!(count.taken(), 2);
}

#[test]
fn missing_labels_are_zero() {
    let mut count = shared_id();
    let mut sort = Sort::new(30, 3, SCORE_ONE / 10);
    sort.predict(&[]);
    sort.update(&[vec![], vec![]], &[5], vec![1, 2], &mut count);
    let tracks = sort.report(&[bbox(1), bbox(2)]);
    assert_eq!(tracks[0].label, 0);
    assert_eq!(tracks[1].label, 5);
}

#[test]
fn ids_stay_the_same_from_frame_to_frame() {
    let mut count = shared_id();
    let mut one = Sort::new(30, 3, SCORE_ONE / 10 * 3);
    let mut two = Sort::new(30, 3, SCORE_ONE / 10 * 3);
    assert_eq!(ids(&frame(&mut one, &mut count, vec![100, 300])), vec![2, 1]);
    assert_eq!(ids(&frame(&mut two, &mut count, vec![80, 280])), vec![4, 3]);
    assert_eq!(ids(&frame(&mut one, &mut count, vec![105, 305])), vec![2, 1]);
    assert_eq!(ids(&frame(&mut two, &mut count, vec![85, 285])), vec![4, 3]);
    assert_eq!(count.taken(), 4);
}

#[test]
fn late_tracker_needs_hits_before_it_is_reported() {
    let mut count = shared_id();
    let mut sort = Sort::new(30, 2, SCORE_ONE / 10);
    for _ in 0..3 {
        frame(&mut sort, &mut count, vec![]);
    }
    assert_eq!(ids(&frame(&mut sort, &mut count, vec![10])), vec![]);
    assert_eq!(ids(&frame(&mut sort, &mut count, vec![10])), vec![]);
    assert_eq!(ids(&frame(&mut sort, &mut count, vec![10])), vec![1]);
}

#[test]
fn unseen_tracker_is_not_reported_and_goes_after_max_age() {
    let mut count = shared_id();
    let mut sort = Sort::new(2, 1, SCORE_ONE / 10);
    frame(&mut sort, &mut count, vec![10]);
    assert_eq!(frame(&mut sort, &mut count, vec![]), vec![]);
    assert_eq!(sort.len(), 1);
    assert_eq!(frame(&mut sort, &mut count, vec![]), vec![]);
    assert_eq!(sort.len(), 1);
    assert_eq!(frame(&mut sort, &mut count, vec![]), vec![]);
    assert_eq!(sort.len(), 0);
}

#[test]
fn lost_predictions_remove_their_trackers() {
    let mut count = shared_id();
    let mut sort = Sort::new(30, 1, SCORE_ONE / 10);
    frame(&mut sort, &mut count, vec![10, 20, 30]);
    sort.predict(&[true, false, true]);
    assert_eq!(sort.len(), 1);
    assert_eq!(*sort.filter(0), 20);
}

#[test]
fn filters_can_be_changed() {
    let mut count = shared_id();
    let mut sort = Sort::new(30, 1, SCORE_ONE / 10);
    frame(&mut sort, &mut count, vec![10, 20]);
    *sort.filter_mut(1) = 25;
    assert_eq!(*sort.filter(0), 10);
    assert_eq!(*sort.filter(1), 25);
}

#[test]
fn tracker_counts_frames_and_detections() {
    let mut count = shared_id();
    let mut tracker = KalmanBoxTracker::new((), 3, &mut count);
    assert_eq!(tracker.id, 0);
    assert_eq!(tracker.label, 3);
    tracker.predict();
    assert_eq!((tracker.age, tracker.time_since_update), (1, 1));
    tracker.update();
    assert_eq!((tracker.hits, tracker.hit_streak, tracker.time_since_update), (1, 1, 0));
    tracker.predict();
    assert_eq!(tracker.hit_streak, 1);
    tracker.predict();
    assert_eq!((tracker.hit_streak, tracker.time_since_update), (0, 2));
    assert_eq!(KalmanBoxTracker::new((), 0, &mut count).id, 1);
}

#[test]
fn ids_are_never_used_again() {
    let mut count = shared_id();
    let mut one = Sort::new(0, 0, SCORE_ONE / 10);
    let mut two = Sort::new(0, 0, SCORE_ONE / 10);
    let mut first = Vec::new();
    let mut second = Vec::new();
    for round in 0..4 {
        first.extend(ids(&frame(&mut one, &mut count, vec![round, round + 100])));
        frame(&mut one, &mut count, vec![]);
        second.extend(ids(&frame(&mut two, &mut count, vec![round])));
        frame(&mut two, &mut count, vec![]);
    }
    assert_eq!(first, vec![2, 1, 5, 4, 8, 7, 11, 10]);
    assert_eq!(second, vec![3, 6, 9, 12]);
}

#[test]
fn frame_without_detections_takes_no_id() {
    let mut count = shared_id();
    let mut sort = Sort::new(30, 3, SCORE_ONE / 10);
    frame(&mut sort, &mut count, vec![10, 20]);
    assert_eq!(frame(&mut sort, &mut count, vec![]), vec![]);
    assert_eq!(count.taken(), 2);
}

#[test]
fn tracker_is_not_reported_in_the_frame_it_starts_in() {
    let mut count = shared_id();
    let mut sort = Sort::new(30, 1, SCORE_ONE / 10);
    assert_eq!(ids(&frame(&mut sort, &mut count, vec![10])), vec![1]);
    assert_eq!(ids(&frame(&mut sort, &mut count, vec![10, 20])), vec![1]);
    assert_eq!(ids(&frame(&mut sort, &mut count, vec![10, 20])), vec![2, 1]);
}
