use mc_mot::association::SCORE_ONE;
use mc_mot::draw::{color_from_id, Frame};
use mc_mot::pipeline::{FrameBatch, PollEvent};
use mc_mot::session::{
    is_single_video, Calibration, CameraSource, Selection, Session, StepAction,
};
use mc_mot::sort::{BBox, Track};
use mc_mot::video::{ExtractedVideo, TempDir};
use std::path::PathBuf;

type Plain = Session<i64, i32>;

const IDENTITY: i32 = -1;

fn paths(prefix: &str, n: usize) -> Vec<PathBuf> {
    (0..n).map(|i| PathBuf::from(format!("{prefix}{i}.png"))).collect()
}

fn camera(name: &str, frames: usize) -> CameraSource {
    let mut camera = CameraSource::named(name.to_string());
    camera.select(Selection::Images(paths(name, frames)));
    camera
}

fn session(frames: &[usize]) -> Plain {
    let mut session = Plain::new(IDENTITY, SCORE_ONE / 10);
    for n in frames {
        let name = session.next_camera_name();
        assert!(session.add_camera(camera(&name, *n), String::new()));
    }
    let mut results = Vec::new();
    for i in 1..frames.len() {
        results.push(Calibration::Mapping(i as i32));
    }
    session.calibrated(IDENTITY, &results);
    session
}

/// Tracks one detection per camera; those of all cameras overlap.
fn track_frame(session: &mut Plain) {
    let cameras = session.cameras.len();
    let mut tracks = Vec::new();
    for c in 0..cameras {
        session.predict(c, &vec![false; session.trackers[c].len()]);
        let scores = vec![vec![SCORE_ONE; session.trackers[c].len()]];
        session.update(c, &scores, vec![10 * c as i64]);
        let boxes: Vec<BBox> = (0..session.trackers[c].len())
            .map(|t| {
                let x = *session.trackers[c].filter(t);
                BBox { x1: x, y1: 0, x2: x + 4, y2: 4 }
            })
            .collect();
        tracks.push(session.report(c, &boxes));
    }
    let scores: Vec<Vec<Vec<Vec<i64>>>> = (0..cameras)
        .map(|i| {
            (0..cameras)
                .map(|j| vec![vec![SCORE_ONE; tracks[j].len()]; tracks[i].len()])
                .collect()
        })
        .collect();
    session.fuse(tracks, &scores);
}

/// Takes a session through one frame, up to its result.
fn step(session: &mut Plain) {
    match session.begin_step(true) {
        StepAction::Submit(_) => session.submitted(None),
        _ => panic!("the frame is not known yet"),
    }
    assert!(matches!(session.begin_step(true), StepAction::Poll));
    let n = session.cameras.len();
    assert!(session.polled(PollEvent::Finished { images: n, detections: n }));
    track_frame(session);
    session.finish("1ms");
}

#[test]
fn new_session_waits_for_cameras() {
    let mut session = Plain::new(IDENTITY, 5);
    assert_eq!(session.status, "add camera sources to begin");
    assert_eq!(session.homographies, vec![IDENTITY]);
    assert_eq!((session.min_hits, session.max_age, session.iou_thres), (1, 30, 5));
    assert_eq!(session.frame_count(), 0);
    assert_eq!(session.summary(), "0 camera(s) | frame 0");
    assert_eq!(session.position_label(), "frame 0/0");
    assert!(matches!(session.begin_step(true), StepAction::Idle));
    assert_eq!(session.status, "add camera sources first");
    session.worker_failed("no thread");
    assert_eq!(session.status, "failed to start pipeline worker: no thread");
}

#[test]
fn selection_fills_a_camera() {
    let mut camera = CameraSource::named("Camera 1".to_string());
    assert_eq!(camera.select(Selection::Cancelled), "Camera 1: selection cancelled");
    assert_eq!(camera.frames.len(), 0);
    assert_eq!(
        camera.select(Selection::Images(paths("f", 3))),
        "Camera 1: 3 frame(s) selected"
    );
    assert_eq!(camera.frames, paths("f", 3));
    assert_eq!(camera.label(), "Camera 1: 3 frame(s)");
    assert_eq!(
        camera.select(Selection::ExtractionFailed("no ffmpeg".to_string())),
        "Camera 1: failed to extract video: no ffmpeg"
    );
    assert_eq!(camera.frames, paths("f", 3));
    let video = ExtractedVideo {
        frames: paths("v", 2),
        _temp: TempDir::at(PathBuf::from("t")),
    };
    assert_eq!(
        camera.select(Selection::Extracted(video)),
        "Camera 1: video -> 2 frames extracted"
    );
    assert_eq!(camera.frames, paths("v", 2));
    assert_eq!(*camera.video.unwrap()._temp.path(), PathBuf::from("t"));
}

#[test]
fn only_a_single_video_is_extracted() {
    let names = |list: &[&str]| list.iter().map(|s| s.to_string()).collect::<Vec<_>>();
    assert!(is_single_video(&names(&["a.mp4"])));
    assert!(!is_single_video(&names(&["a.png"])));
    assert!(!is_single_video(&names(&["a.mp4", "b.mp4"])));
    assert!(!is_single_video(&[]));
}

#[test]
fn camera_without_frames_is_not_added() {
    let mut session = Plain::new(IDENTITY, 5);
    let added = session.add_camera(
        CameraSource::named("Camera 1".to_string()),
        "Camera 1: selection cancelled".to_string(),
    );
    assert!(!added);
    assert_eq!(session.cameras.len(), 0);
    assert_eq!(session.status, "Camera 1: selection cancelled");
}

#[test]
fn cameras_are_numbered_and_share_their_frames() {
    let mut session = Plain::new(IDENTITY, 5);
    assert_eq!(session.next_camera_name(), "Camera 1");
    assert!(session.add_camera(camera("Camera 1", 5), String::new()));
    assert_eq!(session.next_camera_name(), "Camera 2");
    assert!(session.add_camera(camera("Camera 2", 3), String::new()));
    assert!(session.add_camera(camera("Camera 3", 4), String::new()));
    assert_eq!(session.frame_count(), 3);
    assert_eq!(session.summary(), "3 camera(s) | frame 0");
    assert_eq!(session.position_label(), "frame 0/2");
    assert!(matches!(session.begin_step(true), StepAction::Idle));
    assert_eq!(session.status, "homographies are not ready");
}

#[test]
fn calibration_frame_is_the_first() {
    let session = session(&[2, 3]);
    assert_eq!(session.calibration_frame(1), Some(&PathBuf::from("Camera 20.png")));
    assert_eq!(session.calibration_frame(2), None);
}

#[test]
fn calibration_reports_what_happened() {
    assert_eq!(
        session(&[1]).status,
        "reference camera loaded; add another camera to calibrate"
    );
    let mut session = session(&[1, 1, 1, 1]);
    assert_eq!(session.status, "online SIFT homography calibrated for 4 cameras");
    assert_eq!(session.homographies, vec![IDENTITY, 1, 2, 3]);
    session.calibrated(
        IDENTITY,
        &[
            Calibration::LoadFailed("gone".to_string()),
            Calibration::Mapping(9),
            Calibration::NoFrame,
        ],
    );
    assert_eq!(session.status, "could not load Camera 2 calibration frame: gone");
    assert_eq!(session.homographies, vec![IDENTITY, IDENTITY, 9, IDENTITY]);
    session.calibrated(
        IDENTITY,
        &[
            Calibration::LoadFailed("gone".to_string()),
            Calibration::EstimateFailed("flat".to_string()),
            Calibration::Mapping(9),
        ],
    );
    assert_eq!(session.status, "homography failed for Camera 3: flat");
    session.calibrated_without_reference_frame(IDENTITY);
    assert_eq!(session.status, "could not load reference calibration frame");
    assert_eq!(session.homographies, vec![IDENTITY; 4]);
    session.calibrated_without_reference();
    assert_eq!(session.status, "add camera sources to begin");
    assert_eq!(session.homographies, vec![]);
}

#[test]
fn step_needs_a_worker() {
    let mut session = session(&[2]);
    assert!(matches!(session.begin_step(false), StepAction::Idle));
    assert_eq!(session.status, "pipeline worker unavailable");
}

#[test]
fn step_hands_out_the_frames_of_all_cameras() {
    let mut session = session(&[2, 2]);
    step(&mut session);
    match session.begin_step(true) {
        StepAction::Submit(FrameBatch { cameras }) => assert_eq!(
            cameras,
            vec![PathBuf::from("Camera 11.png"), PathBuf::from("Camera 21.png")]
        ),
        _ => panic!("there is a frame to submit"),
    }
    session.submitted(Some("closed"));
    assert_eq!(session.status, "pipeline submit failed: closed");
    assert!(!session.pending_pipeline);
}

#[test]
fn results_are_checked() {
    let mut session = session(&[2, 2]);
    session.submitted(None);
    assert!(session.pending_pipeline);
    assert!(!session.polled(PollEvent::Pending));
    assert!(session.pending_pipeline);
    assert!(!session.polled(PollEvent::Failed("no model".to_string())));
    assert_eq!(session.status, "pipeline failed: no model");
    assert!(!session.pending_pipeline);
    session.submitted(None);
    assert!(!session.polled(PollEvent::Finished { images: 2, detections: 1 }));
    assert_eq!(session.status, "pipeline returned the wrong number of cameras");
    assert!(!session.polled(PollEvent::Finished { images: 1, detections: 2 }));
    assert!(session.polled(PollEvent::Finished { images: 2, detections: 2 }));
}

#[test]
fn finished_frame_is_counted_and_described() {
    let mut session = session(&[2, 2]);
    step(&mut session);
    assert_eq!(session.frame, 1);
    assert_eq!(session.status, "frame 0: 2 / 2 tracks (1ms)");
    assert_eq!(session.tracks[0][0].id, 1);
    assert_eq!(session.tracks[1][0].id, 2);
    assert_eq!(session.global_ids[0][&1], 1);
    assert_eq!(session.global_ids[1][&2], 1);
    assert_eq!(session.cache.len(), 1);
}

#[test]
fn all_frames_end_the_playback() {
    let mut session = session(&[1]);
    session.toggle_playback();
    assert!(session.running);
    step(&mut session);
    assert!(session.running);
    session.stop_at_end();
    assert!(!session.running);
    session.toggle_playback();
    assert!(matches!(session.begin_step(true), StepAction::Idle));
    assert_eq!(session.status, "all frames processed");
    assert!(!session.running);
    assert_eq!(session.position(), 0);
}

#[test]
fn playback_goes_on_while_frames_are_left() {
    let mut session = session(&[2]);
    session.toggle_playback();
    step(&mut session);
    session.stop_at_end();
    assert!(session.running);
    assert_eq!(session.position(), 1);
}

#[test]
fn shown_frame_is_shown_again_after_seeking() {
    let mut session = session(&[3, 3]);
    step(&mut session);
    let shown = session.tracks.clone();
    let ids = session.global_ids.clone();
    step(&mut session);
    session.toggle_playback();
    assert!(session.seek(0));
    assert_eq!(session.status, "seeked to frame 0");
    assert!(!session.running);
    assert_eq!(session.frame, 0);
    assert_eq!(session.tracks, vec![Vec::<Track>::new(); 2]);
    assert!(matches!(session.begin_step(false), StepAction::ShowCached(0)));
    assert_eq!(session.status, "cached frame 0");
    assert_eq!(session.tracks, shown);
    assert_eq!(session.global_ids, ids);
    assert_eq!(session.frame, 1);
    assert!(!session.seek(1));
    assert!(session.seek(2));
    assert!(matches!(session.begin_step(true), StepAction::Submit(_)));
}

#[test]
fn frame_after_a_gap_is_kept() {
    let mut session = session(&[4]);
    assert!(session.seek(2));
    step(&mut session);
    assert_eq!(session.cache.len(), 3);
    assert!(session.cache[0].is_none());
    assert!(session.cache[1].is_none());
    assert!(session.cache[2].is_some());
    assert!(session.seek(0));
    step(&mut session);
    assert_eq!(session.cache.len(), 3);
    assert!(session.cache[0].is_some());
    assert!(session.cache[2].is_some());
}

#[test]
fn seeking_without_cameras_does_nothing() {
    let mut session = Plain::new(IDENTITY, 5);
    assert!(!session.seek(3));
    assert_eq!(session.frame, 0);
}

#[test]
fn new_camera_starts_the_session_anew() {
    let mut session = session(&[2]);
    step(&mut session);
    assert!(session.add_camera(camera("Camera 2", 2), String::new()));
    assert_eq!(session.frame, 0);
    assert_eq!(session.cache.len(), 0);
    assert_eq!(session.trackers.len(), 2);
    assert_eq!(session.count.taken(), 0);
}

#[test]
fn clearing_removes_everything() {
    let mut session = session(&[2, 2]);
    step(&mut session);
    session.clear();
    assert_eq!(session.cameras.len(), 0);
    assert_eq!(session.tracks.len(), 0);
    assert_eq!(session.homographies, vec![]);
    assert_eq!(session.cache.len(), 0);
    assert_eq!(session.status, "add camera sources to begin");
}

#[test]
fn rendering_draws_the_tracks_of_a_camera() {
    let mut session = session(&[2, 2]);
    step(&mut session);
    let frame = Frame::from_raw(20, 20, vec![0; 1200]).unwrap();
    let bytes = session.render(1, &frame).into_raw();
    let at = 3 * 10;
    assert_eq!(bytes[at..at + 3], color_from_id(1));
    assert_eq!(bytes[0..3], [0, 0, 0]);
    assert_eq!(session.histories[1][&1], vec![(12, 2)]);
    assert_eq!(session.histories[0].len(), 0);
}

#[test]
fn local_ids_differ_between_cameras() {
    let mut session = session(&[3, 3, 3]);
    step(&mut session);
    step(&mut session);
    let mut ids: Vec<i64> = session.tracks.iter().flatten().map(|t| t.id).collect();
    ids.sort();
    assert_eq!(ids, vec![1, 2, 3]);
}
