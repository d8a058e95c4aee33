use mc_mot::association::SCORE_ONE;
use mc_mot::multicam::MultiCameraTracker;
use mc_mot::sort::{shared_id, BBox, SharedId, Sort, Track};
use std::collections::HashMap;

type Corners = [f64; 4];

fn iou(a: Corners, b: Corners) -> f64 {
    let w = (a[2].min(b[2]) - a[0].max(b[0])).max(0.0);
    let h = (a[3].min(b[3]) - a[1].max(b[1])).max(0.0);
    let area = |c: Corners| (c[2] - c[0]) * (c[3] - c[1]);
    w * h / (area(a) + area(b) - w * h)
}

fn scores(rows: &[Corners], cols: &[Corners]) -> Vec<Vec<i64>> {
    rows.iter()
        .map(|r| {
            cols.iter().map(|c| (iou(*r, *c) * SCORE_ONE as f64).ceil() as i64).collect()
        })
        .collect()
}

/// A frame of a tracker whose filters are the last boxes.
fn frame(sort: &mut Sort<Corners>, count: &mut SharedId, dets: &[Corners]) -> Vec<Track> {
    let known: Vec<Corners> = (0..sort.len()).map(|t| *sort.filter(t)).collect();
    sort.predict(&vec![false; known.len()]);
    let (matches, _) = sort.update(&scores(dets, &known), &[0, 0], dets.to_vec(), count);
    for (d, t) in matches {
        *sort.filter_mut(t) = dets[d];
    }
    let boxes: Vec<BBox> = (0..sort.len())
        .map(|t| {
            let c = sort.filter(t);
            BBox { x1: c[0] as i64, y1: c[1] as i64, x2: c[2] as i64, y2: c[3] as i64 }
        })
        .collect();
    sort.report(&boxes)
}

fn corners(tracks: &[Track]) -> Vec<Corners> {
    tracks
        .iter()
        .map(|t| [t.x1 as f64, t.y1 as f64, t.x2 as f64, t.y2 as f64])
        .collect()
}

fn fuse(global: &mut MultiCameraTracker, one: Vec<Track>, two: Vec<Track>) -> Vec<HashMap<i64, i64>> {
    let all = [corners(&one), corners(&two)];
    let pairs: Vec<Vec<Vec<Vec<i64>>>> = all
        .iter()
        .map(|rows| all.iter().map(|cols| scores(rows, cols)).collect())
        .collect();
    global.update(&[one, two], &pairs)
}

#[test]
fn two_people_in_two_cameras_keep_their_ids() {
    let mut count = shared_id();
    let mut sort1 = Sort::new(30, 3, SCORE_ONE / 10 * 3);
    let mut sort2 = Sort::new(30, 3, SCORE_ONE / 10 * 3);
    let mut global = MultiCameraTracker::new(2, SCORE_ONE / 10 * 2);
    let expected: Vec<HashMap<i64, i64>> = vec![
        [(2, 1), (1, 2)].into_iter().collect(),
        [(4, 1), (3, 2)].into_iter().collect(),
    ];

    let dets1 = [[100.0, 200.0, 150.0, 400.0], [300.0, 220.0, 360.0, 430.0]];
    let dets2 = [[80.0, 180.0, 130.0, 380.0], [280.0, 200.0, 340.0, 410.0]];
    let tracks1 = frame(&mut sort1, &mut count, &dets1);
    let tracks2 = frame(&mut sort2, &mut count, &dets2);
    assert_eq!(tracks1[0], Track { x1: 300, y1: 220, x2: 360, y2: 430, id: 2, label: 0 });
    assert_eq!(tracks2[1], Track { x1: 80, y1: 180, x2: 130, y2: 380, id: 3, label: 0 });
    assert_eq!(fuse(&mut global, tracks1, tracks2), expected);

    let dets1 = [[105.0, 205.0, 155.0, 405.0], [305.0, 225.0, 365.0, 435.0]];
    let dets2 = [[85.0, 185.0, 135.0, 385.0], [285.0, 205.0, 345.0, 415.0]];
    let tracks1 = frame(&mut sort1, &mut count, &dets1);
    let tracks2 = frame(&mut sort2, &mut count, &dets2);
    assert_eq!(tracks1.len(), 2);
    assert_eq!(tracks2.len(), 2);
    assert_eq!(fuse(&mut global, tracks1, tracks2), expected);
    assert_eq!(count.taken(), 4);
}
