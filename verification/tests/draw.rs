use mc_mot::draw::{self, color_from_id, draw_tracks, pixel, rect, Frame, History, TRAIL_LEN};
use mc_mot::sort::Track;
use std::collections::HashMap;

const RED: [u8; 3] = [255, 1, 2];

fn black(width: u32, height: u32) -> Frame {
    Frame::from_raw(width, height, vec![0; (3 * width * height) as usize]).unwrap()
}

/// The pixels that are not black, row by row.
fn colored(frame: Frame) -> Vec<(u32, u32)> {
    let width = frame.width();
    let height = frame.height();
    let bytes = frame.into_raw();
    let mut found = Vec::new();
    for y in 0..height {
        for x in 0..width {
            let at = 3 * (y * width + x) as usize;
            if bytes[at..at + 3] != [0, 0, 0] {
                found.push((x, y));
            }
        }
    }
    found
}

fn track(x1: i64, y1: i64, x2: i64, y2: i64, id: i64) -> Track {
    Track { x1, y1, x2, y2, id, label: 0 }
}

#[test]
fn colors_are_fixed() {
    assert_eq!(color_from_id(0), [60, 71, 209]);
    assert_eq!(color_from_id(1), [60, 94, 129]);
    assert_eq!(color_from_id(2), [60, 117, 48]);
    assert_eq!(color_from_id(7), [61, 233, 156]);
    assert_eq!(color_from_id(-1), [60, 48, 34]);
    assert_eq!(color_from_id(i64::MAX), [60, 48, 34]);
    assert_eq!(color_from_id(i64::MIN), [60, 71, 209]);
}

#[test]
fn frame_needs_three_bytes_for_each_pixel() {
    assert!(Frame::from_raw(2, 2, vec![0; 11]).is_none());
    let frame = Frame::from_raw(2, 2, (0..12).collect()).unwrap();
    assert_eq!((frame.width(), frame.height()), (2, 2));
    assert_eq!(frame.into_raw(), (0..12).collect::<Vec<u8>>());
    assert!(Frame::from_raw(2, 2, vec![0; 13]).is_some());
    assert!(Frame::from_raw(u32::MAX, u32::MAX, vec![]).is_none());
}

#[test]
fn frame_width_is_not_its_height() {
    let frame = black(3, 5);
    assert_eq!(frame.width(), 3);
    assert_eq!(frame.height(), 5);
}

#[test]
fn pixel_is_written_in_place() {
    let mut frame = black(3, 2);
    pixel(&mut frame, 2, 1, [7, 8, 9]);
    let mut expected = vec![0; 18];
    expected[15] = 7;
    expected[16] = 8;
    expected[17] = 9;
    assert_eq!(frame.into_raw(), expected);
}

#[test]
fn pixels_outside_are_ignored() {
    let mut frame = black(3, 2);
    for (x, y) in [(-1, 0), (0, -1), (3, 0), (0, 2), (i32::MAX, 0), (0, i32::MIN)] {
        pixel(&mut frame, x, y, RED);
    }
    assert_eq!(colored(frame), vec![]);
}

#[test]
fn line_of_one_pixel() {
    let mut frame = black(3, 3);
    draw::line(&mut frame, 1, 1, 1, 1, RED);
    assert_eq!(colored(frame), vec![(1, 1)]);
}

#[test]
fn line_has_its_ends_and_no_gaps() {
    let mut frame = black(8, 4);
    draw::line(&mut frame, 0, 0, 6, 2, RED);
    assert_eq!(
        colored(frame),
        vec![(0, 0), (1, 0), (2, 1), (3, 1), (4, 1), (5, 2), (6, 2)]
    );
}

#[test]
fn line_rounds_halves_away_from_its_start() {
    let mut frame = black(4, 4);
    draw::line(&mut frame, 0, 0, 2, 1, RED);
    assert_eq!(colored(frame), vec![(0, 0), (1, 1), (2, 1)]);
    let mut frame = black(4, 4);
    draw::line(&mut frame, 2, 1, 0, 0, RED);
    assert_eq!(colored(frame), vec![(0, 0), (1, 0), (2, 1)]);
}

#[test]
fn steep_and_diagonal_lines() {
    let mut frame = black(4, 6);
    draw::line(&mut frame, 2, 5, 1, 1, RED);
    assert_eq!(colored(frame), vec![(1, 1), (1, 2), (1, 3), (2, 4), (2, 5)]);
    let mut frame = black(4, 4);
    draw::line(&mut frame, 3, 0, 0, 3, RED);
    assert_eq!(colored(frame), vec![(3, 0), (2, 1), (1, 2), (0, 3)]);
}

#[test]
fn line_that_leaves_the_frame_is_cut() {
    let mut frame = black(3, 3);
    draw::line(&mut frame, -2, 1, 10, 1, RED);
    assert_eq!(colored(frame), vec![(0, 1), (1, 1), (2, 1)]);
}

#[test]
fn outline_is_three_pixels_wide() {
    let mut frame = black(12, 12);
    rect(&mut frame, 2, 2, 9, 9, RED);
    let mut expected = Vec::new();
    for y in 1..=10 {
        for x in 1..=10 {
            if !(3 < x && x < 8 && 3 < y && y < 8) {
                expected.push((x, y));
            }
        }
    }
    assert_eq!(colored(frame), expected);
}

#[test]
fn drawing_leaves_the_given_frame() {
    let frame = black(20, 20);
    let mut history = History::new();
    let out = draw_tracks(&frame, &[track(2, 2, 9, 9, 1)], &HashMap::new(), &mut history);
    assert_eq!((out.width(), out.height()), (20, 20));
    assert_eq!(colored(frame), vec![]);
    let bytes = out.into_raw();
    let at = 3 * (2 * 20 + 2);
    assert_eq!(bytes[at..at + 3], color_from_id(1));
    let at = 3 * (5 * 20 + 5);
    assert_eq!(bytes[at..at + 3], [0, 0, 0]);
}

#[test]
fn track_is_drawn_under_its_global_id() {
    let frame = black(20, 20);
    let mut history = History::new();
    let ids: HashMap<i64, i64> = [(1, 40)].into_iter().collect();
    let out = draw_tracks(&frame, &[track(2, 2, 9, 9, 1)], &ids, &mut history);
    let bytes = out.into_raw();
    let at = 3 * (2 * 20 + 2);
    assert_eq!(bytes[at..at + 3], color_from_id(40));
    assert_eq!(history.len(), 1);
    assert_eq!(history[&40], vec![(5, 5)]);
}

#[test]
fn trail_joins_the_centres() {
    let frame = black(30, 30);
    let mut history = History::new();
    let ids = HashMap::new();
    draw_tracks(&frame, &[track(0, 0, 20, 20, 3)], &ids, &mut history);
    let out = draw_tracks(&frame, &[track(4, 0, 24, 20, 3)], &ids, &mut history);
    assert_eq!(history[&3], vec![(10, 10), (14, 10)]);
    let drawn = colored(out);
    for x in 10..=14 {
        assert!(drawn.contains(&(x, 10)));
    }
    assert!(!drawn.contains(&(9, 10)));
    assert!(!drawn.contains(&(15, 10)));
}

#[test]
fn boxes_are_moved_into_the_frame() {
    let frame = black(6, 6);
    let mut history = History::new();
    let out = draw_tracks(
        &frame,
        &[track(-100, -100, 100, 100, 3)],
        &HashMap::new(),
        &mut history,
    );
    let drawn = colored(out);
    assert!(drawn.contains(&(0, 0)));
    assert!(drawn.contains(&(5, 5)));
    assert!(drawn.contains(&(1, 3)));
    assert!(!drawn.contains(&(2, 3)));
}

#[test]
fn trail_keeps_its_last_points() {
    let frame = black(1, 1);
    let mut history = History::new();
    for i in 0..TRAIL_LEN as i64 + 5 {
        draw_tracks(&frame, &[track(2 * i, 0, 2 * i, 0, 1)], &HashMap::new(), &mut history);
    }
    let points = &history[&1];
    assert_eq!(points.len(), 120);
    assert_eq!(points[0], (10, 0));
    assert_eq!(points[119], (248, 0));
}

#[test]
fn centres_drop_halves_and_stay_in_range() {
    let frame = black(1, 1);
    let mut history = History::new();
    let tracks = [
        track(1, 0, 2, 5, 1),
        track(-1, 0, -2, -5, 2),
        track(i64::MAX, i64::MIN, i64::MAX, i64::MIN, 3),
    ];
    draw_tracks(&frame, &tracks, &HashMap::new(), &mut history);
    assert_eq!(history[&1], vec![(1, 2)]);
    assert_eq!(history[&2], vec![(-1, -2)]);
    assert_eq!(history[&3], vec![(i32::MAX / 2, i32::MIN / 2)]);
}

#[test]
fn empty_frame_can_be_drawn_on() {
    let frame = black(0, 0);
    let mut history = History::new();
    let out = draw_tracks(&frame, &[track(2, 2, 9, 9, 1)], &HashMap::new(), &mut history);
    assert_eq!(out.into_raw(), Vec::<u8>::new());
    assert_eq!(history[&1], vec![(5, 5)]);
}
