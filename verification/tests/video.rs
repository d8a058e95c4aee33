use mc_mot::video::{
    after_attempt, check_ffmpeg, collect_frames, frame_number, is_listed, is_video, is_video_extension,
    temp_dir_name, CreateAction, CreateEvent, DirFile, TempDir, VideoError, CREATE_ATTEMPTS,
};
use std::path::{Path, PathBuf};

fn listed(name: &str) -> DirFile {
    let path = Path::new("/tmp/frames").join(name);
    DirFile {
        extension: path.extension().and_then(|s| s.to_str()).map(String::from),
        stem: path.file_stem().and_then(|s| s.to_str()).map(String::from),
        path,
    }
}

fn temp() -> TempDir {
    TempDir::at(PathBuf::from("/tmp/frames"))
}

fn frames(names: &[&str]) -> Vec<String> {
    let files = names.iter().map(|name| listed(name)).collect();
    let video = match collect_frames(files, temp(), "clip.mp4") {
        Ok(video) => video,
        Err(_) => panic!("there are frames"),
    };
    assert_eq!(*video._temp.path(), PathBuf::from("/tmp/frames"));
    video
        .frames
        .iter()
        .map(|path| path.file_name().unwrap().to_str().unwrap().to_string())
        .collect()
}

#[test]
fn videos_are_known_by_their_extension() {
    for extension in ["mp4", "mov", "avi", "mkv", "webm", "m4v", "ts", "mpeg", "mpg", "wmv"] {
        assert!(is_video(&format!("clip.{extension}")));
        assert!(is_video(&format!("/data/v1.0/clip.{}", extension.to_uppercase())));
        assert!(is_video_extension(Some(extension)));
    }
    assert!(is_video("/Users/someone/data/cam1.mp4"));
}

#[test]
fn other_files_are_no_videos() {
    for path in [
        "",
        ".",
        "..",
        "/",
        "mp4",
        ".mp4",
        "dir/.mp4",
        "clip.png",
        "clip.mp4.png",
        "clip.",
        "clip.mp4 ",
        "dir.mp4/clip",
        "clip.mp4/..",
        "clip.mp44",
    ] {
        assert!(!is_video(path));
    }
    assert!(!is_video_extension(None));
    assert!(!is_video_extension(Some("")));
    assert!(!is_video_extension(Some("jpg")));
}

#[test]
fn paths_that_end_in_nothing() {
    assert!(is_video("clip.mp4/"));
    assert!(is_video("clip.mp4//"));
    assert!(is_video("clip.mp4/."));
    assert!(is_video("./../clip.mp4/./"));
    assert!(is_video("...mp4"));
}

#[test]
fn paths_with_drives_and_backslashes() {
    assert!(is_video("C:\\data\\v1.0\\clip.mp4"));
    assert!(is_video("C:clip.MKV"));
    assert!(is_video("a:b/c\\d..ts"));
    assert!(!is_video("C:\\data\\clip.png"));
    assert!(!is_video("C:\\data.mp4\\clip.txt"));
    assert!(is_video("C:/data/clip.mp4/"));
    assert!(is_video("//server/share/clip.mp4"));
    assert!(is_video("//server/share/clip.mp4//"));
    assert!(!is_video("//server/share/clip.txt"));
}

#[test]
fn listed_extensions_are_in_lower_case() {
    assert!(is_listed(&['m', 'p', '4']));
    assert!(!is_listed(&['M', 'P', '4']));
    assert!(!is_listed(&[]));
}

#[test]
fn case_is_that_of_unicode() {
    assert!(is_video("clip.Mp4"));
    assert!(is_video_extension(Some("M\u{212a}V")));
    assert!(!is_video_extension(Some("ＭＰ４")));
}

#[test]
fn temporary_directory_has_a_name_of_its_own() {
    assert_eq!(
        temp_dir_name("mc-mot-video", 4321, 0xabcdef),
        "mc-mot-video-4321-abcdef"
    );
    assert_eq!(temp_dir_name("", 0, 0), "-0-0");
}

#[test]
fn temporary_directory_is_tried_again_under_another_name() {
    assert_eq!(CREATE_ATTEMPTS, 100);
    assert_eq!(after_attempt(1, CreateEvent::Created), CreateAction::Use);
    assert_eq!(after_attempt(1, CreateEvent::Failed), CreateAction::Fail);
    assert_eq!(after_attempt(1, CreateEvent::AlreadyExists), CreateAction::Retry);
    assert_eq!(after_attempt(99, CreateEvent::AlreadyExists), CreateAction::Retry);
    assert_eq!(after_attempt(100, CreateEvent::AlreadyExists), CreateAction::GiveUp);
    assert_eq!(after_attempt(100, CreateEvent::Created), CreateAction::Use);
}

#[test]
fn frames_have_numbers() {
    assert_eq!(frame_number(Some("frame_00042")), 42);
    assert_eq!(frame_number(Some("a_7_9")), 9);
    assert_eq!(frame_number(Some("12")), 12);
    assert_eq!(frame_number(Some("frame")), 0);
    assert_eq!(frame_number(Some("frame_")), 0);
    assert_eq!(frame_number(Some("frame_99999999999999999999")), 0);
    assert_eq!(frame_number(None), 0);
}

#[test]
fn frames_are_ordered_by_number() {
    assert_eq!(
        frames(&["frame_10.png", "frame_9.png", "list.txt", "frame_100000.png", "frame_0.png"]),
        ["frame_0.png", "frame_9.png", "frame_10.png", "frame_100000.png"]
    );
}

#[test]
fn frames_with_the_same_number_keep_their_order() {
    assert_eq!(
        frames(&["b_1.png", "z.png", "a_1.png", "c_01.png", "a.png", "x_0.png"]),
        ["z.png", "a.png", "x_0.png", "b_1.png", "a_1.png", "c_01.png"]
    );
}

#[test]
fn video_without_frames_is_refused() {
    let error = match collect_frames(vec![listed("frame_0.PNG"), listed("png")], temp(), "a.mp4") {
        Ok(_) => panic!("there are no frames"),
        Err(error) => error,
    };
    assert!(matches!(error, VideoError::NoFrames { .. }));
    assert_eq!(error.message(), "no frames extracted from a.mp4");
}

#[test]
fn failure_of_ffmpeg_is_reported() {
    assert!(check_ffmpeg(true, b"err", b"out").is_ok());
    let error = check_ffmpeg(false, b"bad \xff", b"out").unwrap_err();
    assert!(matches!(error, VideoError::Ffmpeg { .. }));
    assert_eq!(error.message(), "ffmpeg failed: bad \u{fffd}\nout");
}
