//! The state of a tracking session: its cameras, how far it has come and what it
//! shows. Images, the detector and the motion filters stay with the caller, who
//! performs what the session asks for and reports what came of it.

use std::collections::HashMap;
use std::path::PathBuf;

use vstd::prelude::*;
use vstd::string::StringExecFns;

use crate::association::{is_matching, is_score_matrix, score_entries};
use crate::draw::{draw_tracks, extended, trails, Frame, History};
use crate::multicam::{
    are_pair_scores, contents, copy_maps, is_frame, lemma_track_total, track_total, Identities,
    MultiCameraTracker,
};
use crate::pipeline::{frames_at, FrameBatch, PollEvent};
use crate::sort::{
    alive, all_predicted, ids_apart, law_ids_stay_apart, law_ids_stay_apart_when_predicted,
    law_ids_stay_apart_when_reported, law_reported_ids_stay_apart, newcomers, reports_from,
    shared_id, with_matches, without_lost, BBox, SharedId, Sort, Track,
};
use crate::text::{decimal, to_decimal};
use crate::video::{
    ends_in_extension, extension_of_path, is_portable, is_video, last_extension, tells_video,
    ExtractedVideo,
};

verus! {

/// `PathBuf::clone` returns an equal path.
pub assume_specification[ <PathBuf as Clone>::clone ](path: &PathBuf) -> (copy: PathBuf)
    ensures
        copy == *path,
;

/// A single camera source: a list of frame images, either picked directly or
/// extracted from a picked video.
pub struct CameraSource {
    pub name: String,
    pub frames: Vec<PathBuf>,
    /// The video that the frames were extracted from.
    pub video: Option<ExtractedVideo>,
}

/// What came of a request to pick files for a camera.
pub enum Selection {
    /// Nothing was picked.
    Cancelled,
    /// A single video was picked, and its frames were extracted.
    Extracted(ExtractedVideo),
    /// A single video was picked, and its frames could not be extracted.
    ExtractionFailed(String),
    /// Other files were picked.
    Images(Vec<PathBuf>),
}

/// Whether files are to be treated as a video: it must be the only one.
pub fn is_single_video(files: &[String]) -> (r: bool)
    ensures
        files@.len() != 1 ==> !r,
        files@.len() == 1 && is_portable(files@[0]@) ==> tells_video(
            extension_of_path(files@[0]@),
            r,
        ),
        files@.len() == 1 && ends_in_extension(files@[0]@) ==> tells_video(
            last_extension(files@[0]@),
            r,
        ),
        files@.len() == 1 && !files@[0]@.contains('.') ==> !r,
{
    files.len() == 1 && is_video(files[0].as_str())
}

/// Copies of paths.
fn copy_paths(paths: &Vec<PathBuf>) -> (copies: Vec<PathBuf>)
    ensures
        copies@ == paths@,
{
    let mut copies: Vec<PathBuf> = Vec::new();
    let mut i: usize = 0;
    while i < paths.len()
        invariant
            i <= paths@.len(),
            copies@ == paths@.take(i as int),
        decreases paths@.len() - i,
    {
        copies.push(paths[i].clone());
        assert(copies@ =~= paths@.take(i + 1));
        i = i + 1;
    }
    assert(copies@ =~= paths@);
    copies
}

impl CameraSource {
    /// A camera without frames.
    pub fn named(name: String) -> (camera: Self)
        ensures
            camera.name == name,
            camera.frames@.len() == 0,
            camera.video is None,
    {
        CameraSource { name, frames: Vec::new(), video: None }
    }

    /// The message about a selection.
    pub open spec fn selection_text(name: Seq<char>, selection: Selection) -> Seq<char> {
        match selection {
            Selection::Cancelled => name + ": selection cancelled"@,
            Selection::Extracted(video) => name + ": video -> "@ + decimal(video.frames@.len())
                + " frames extracted"@,
            Selection::ExtractionFailed(error) => name + ": failed to extract video: "@ + error@,
            Selection::Images(files) => name + ": "@ + decimal(files@.len())
                + " frame(s) selected"@,
        }
    }

    /// Takes the picked files as the frames of the camera and returns a message. A
    /// selection that was cancelled or failed changes nothing.
    pub fn select(&mut self, selection: Selection) -> (message: String)
        ensures
            message@ == Self::selection_text(old(self).name@, selection),
            final(self).name == old(self).name,
            match selection {
                Selection::Cancelled => *final(self) == *old(self),
                Selection::ExtractionFailed(_) => *final(self) == *old(self),
                Selection::Extracted(video) => final(self).frames@ == video.frames@
                    && final(self).video == Some(video),
                Selection::Images(files) => final(self).frames == files && final(self).video
                    is None,
            },
    {
        let mut message: String = self.name.clone();
        match selection {
            Selection::Cancelled => {
                message.append(": selection cancelled");
            },
            Selection::Extracted(video) => {
                message.append(": video -> ");
                message.append(to_decimal(video.frames.len() as u64).as_str());
                message.append(" frames extracted");
                self.frames = copy_paths(&video.frames);
                self.video = Some(video);
            },
            Selection::ExtractionFailed(error) => {
                message.append(": failed to extract video: ");
                message.append(error.as_str());
            },
            Selection::Images(files) => {
                message.append(": ");
                message.append(to_decimal(files.len() as u64).as_str());
                message.append(" frame(s) selected");
                self.video = None;
                self.frames = files;
            },
        }
        message
    }

    /// The line about the camera in the list of cameras.
    pub fn label(&self) -> (s: String)
        ensures
            s@ == self.name@ + ": "@ + decimal(self.frames@.len()) + " frame(s)"@,
    {
        let mut s: String = self.name.clone();
        s.append(": ");
        s.append(to_decimal(self.frames.len() as u64).as_str());
        s.append(" frame(s)");
        s
    }
}

/// What was shown of a frame.
pub struct CachedFrame {
    pub tracks: Vec<Vec<Track>>,
    pub global_ids: Vec<HashMap<i64, i64>>,
}

/// A tracking session. The motion filters have type `F`, the homographies type `H`.
pub struct Session<F, H> {
    pub homographies: Vec<H>,
    pub status: String,
    /// Frame sources for all cameras. Camera 0 is the reference plane.
    pub cameras: Vec<CameraSource>,
    /// Per-camera SORT trackers.
    pub trackers: Vec<Sort<F>>,
    /// The counter that the trackers take ids from.
    pub count: SharedId,
    pub global_tracker: Option<MultiCameraTracker>,
    /// The number of the frame that is next.
    pub frame: usize,
    pub running: bool,
    /// Last displayed results.
    pub tracks: Vec<Vec<Track>>,
    pub global_ids: Vec<HashMap<i64, i64>>,
    /// Centroid history per camera (for trail drawing).
    pub histories: Vec<History>,
    pub min_hits: i64,
    pub max_age: i64,
    pub iou_thres: i64,
    pub pending_pipeline: bool,
    pub cache: Vec<Option<CachedFrame>>,
}

/// The number of frames that the first `n` cameras all have.
pub open spec fn common_frames(cameras: Seq<CameraSource>, n: int) -> int
    decreases n,
{
    if n <= 0 {
        0
    } else if n == 1 || cameras[n - 1].frames@.len() < common_frames(cameras, n - 1) {
        cameras[n - 1].frames@.len() as int
    } else {
        common_frames(cameras, n - 1)
    }
}

/// Lists of tracks.
pub open spec fn track_lists(tracks: Seq<Vec<Track>>) -> Seq<Seq<Track>> {
    tracks.map_values(|list: Vec<Track>| list@)
}

/// No two trackers have the same id, be it in one camera or in two, and all ids are
/// below `next`.
pub open spec fn trackers_agree<F>(trackers: Seq<Sort<F>>, next: int) -> bool {
    &&& forall|c: int|
        0 <= c < trackers.len() ==> (#[trigger] trackers[c]).wf() && trackers[c].ids_below(next)
    &&& forall|c: int, d: int|
        0 <= c < trackers.len() && 0 <= d < trackers.len() && c != d ==> ids_apart(
            (#[trigger] trackers[c]).trackers(),
            (#[trigger] trackers[d]).trackers(),
        )
}

impl<F, H> Session<F, H> {
    /// The number of frames that all cameras have.
    pub open spec fn total(self) -> int {
        common_frames(self.cameras@, self.cameras@.len() as int)
    }

    /// Everything is there for every camera, and the ids of the trackers are unique.
    pub open spec fn wf(self) -> bool {
        &&& self.trackers@.len() == self.cameras@.len()
        &&& self.tracks@.len() == self.cameras@.len()
        &&& self.global_ids@.len() == self.cameras@.len()
        &&& self.histories@.len() == self.cameras@.len()
        &&& 0 <= self.count@ <= i64::MAX
        &&& trackers_agree(self.trackers@, self.count@)
        &&& self.global_tracker matches Some(g) ==> g@.wf() && g@.ids.len() == self.cameras@.len()
    }

    /// No frame has been tracked since the cameras were set up.
    pub open spec fn is_reset(self) -> bool {
        &&& self.wf()
        &&& self.count@ == 0
        &&& self.global_tracker is None
        &&& !self.pending_pipeline
        &&& forall|c: int|
            0 <= c < self.cameras@.len() ==> {
                &&& (#[trigger] self.trackers@[c]).trackers().len() == 0
                &&& self.trackers@[c].frame_count() == 0
                &&& self.trackers@[c].max_age() == self.max_age
                &&& self.trackers@[c].min_hits() == self.min_hits
                &&& self.trackers@[c].iou_threshold() == self.iou_thres
            }
        &&& forall|c: int| 0 <= c < self.cameras@.len() ==> (#[trigger] self.tracks@[c])@.len() == 0
        &&& forall|c: int|
            0 <= c < self.cameras@.len() ==> (#[trigger] self.global_ids@[c])@ == Map::<
                i64,
                i64,
            >::empty()
        &&& forall|c: int|
            0 <= c < self.cameras@.len() ==> (#[trigger] self.histories@[c])@ == Map::<
                i64,
                Vec<(i32, i32)>,
            >::empty()
    }

    /// The session differs from `other` at most in what a reset sets.
    pub open spec fn resets(self, other: Self) -> bool {
        self == (Session {
            trackers: self.trackers,
            count: self.count,
            global_tracker: self.global_tracker,
            frame: self.frame,
            tracks: self.tracks,
            global_ids: self.global_ids,
            histories: self.histories,
            pending_pipeline: self.pending_pipeline,
            ..other
        })
    }

    /// A session without cameras. `iou_thres` is the score that a match needs.
    pub fn new(identity: H, iou_thres: i64) -> (session: Self)
        ensures
            session.is_reset(),
            session.homographies@ == seq![identity],
            session.status@ == "add camera sources to begin"@,
            session.cameras@.len() == 0,
            session.frame == 0,
            !session.running,
            session.min_hits == 1,
            session.max_age == 30,
            session.iou_thres == iou_thres,
            session.cache@.len() == 0,
    {
        let mut homographies: Vec<H> = Vec::new();
        homographies.push(identity);
        Session {
            homographies,
            status: "add camera sources to begin".to_owned(),
            cameras: Vec::new(),
            trackers: Vec::new(),
            count: shared_id(),
            global_tracker: None,
            frame: 0,
            running: false,
            tracks: Vec::new(),
            global_ids: Vec::new(),
            histories: Vec::new(),
            min_hits: 1,
            max_age: 30,
            iou_thres,
            pending_pipeline: false,
            cache: Vec::new(),
        }
    }

    /// Sets the status.
    fn set_status(&mut self, status: &str)
        ensures
            final(self).status@ == status@,
            *final(self) == (Session { status: final(self).status, ..*old(self) }),
    {
        self.status = status.to_owned();
    }

    /// Sets the status to a text and what follows it.
    fn set_status_about(&mut self, status: &str, rest: &str)
        ensures
            final(self).status@ == status@ + rest@,
            *final(self) == (Session { status: final(self).status, ..*old(self) }),
    {
        self.status = status.to_owned().concat(rest);
    }

    /// Notes that the worker could not be started.
    pub fn worker_failed(&mut self, error: &str)
        ensures
            final(self).status@ == "failed to start pipeline worker: "@ + error@,
            *final(self) == (Session { status: final(self).status, ..*old(self) }),
    {
        self.set_status_about("failed to start pipeline worker: ", error);
    }

    /// Forgets everything that was tracked, and starts at the first frame with the
    /// current parameters.
    pub fn reset_pipeline(&mut self)
        ensures
            final(self).is_reset(),
            final(self).frame == 0,
            final(self).resets(*old(self)),
    {
        let n: usize = self.cameras.len();
        let mut trackers: Vec<Sort<F>> = Vec::new();
        let mut tracks: Vec<Vec<Track>> = Vec::new();
        let mut global_ids: Vec<HashMap<i64, i64>> = Vec::new();
        let mut histories: Vec<History> = Vec::new();
        let mut i: usize = 0;
        while i < n
            invariant
                i <= n,
                *self == *old(self),
                trackers@.len() == i,
                tracks@.len() == i,
                global_ids@.len() == i,
                histories@.len() == i,
                forall|c: int|
                    0 <= c < i ==> {
                        &&& (#[trigger] trackers@[c]).wf()
                        &&& trackers@[c].trackers().len() == 0
                        &&& trackers@[c].frame_count() == 0
                        &&& trackers@[c].max_age() == self.max_age
                        &&& trackers@[c].min_hits() == self.min_hits
                        &&& trackers@[c].iou_threshold() == self.iou_thres
                    },
                forall|c: int| 0 <= c < i ==> (#[trigger] tracks@[c])@.len() == 0,
                forall|c: int|
                    0 <= c < i ==> (#[trigger] global_ids@[c])@ == Map::<i64, i64>::empty(),
                forall|c: int|
                    0 <= c < i ==> (#[trigger] histories@[c])@ == Map::<
                        i64,
                        Vec<(i32, i32)>,
                    >::empty(),
            decreases n - i,
        {
            trackers.push(Sort::new(self.max_age, self.min_hits, self.iou_thres));
            tracks.push(Vec::new());
            global_ids.push(HashMap::new());
            histories.push(HashMap::new());
            i = i + 1;
        }
        self.trackers = trackers;
        self.count = shared_id();
        self.global_tracker = None;
        self.frame = 0;
        self.tracks = tracks;
        self.histories = histories;
        self.global_ids = global_ids;
        self.pending_pipeline = false;
    }
}

/// What came of the calibration of a camera other than the reference.
pub enum Calibration<H> {
    /// The camera has no frame.
    NoFrame,
    /// The mapping into the reference plane.
    Mapping(H),
    /// No homography could be estimated.
    EstimateFailed(String),
    /// The frame could not be loaded.
    LoadFailed(String),
}

impl<H> Calibration<H> {
    /// The homography of the camera; without a mapping, the identity.
    pub open spec fn homography(self, identity: H) -> H {
        match self {
            Calibration::Mapping(h) => h,
            _ => identity,
        }
    }

    /// The failure, if there was one, of the camera with the given name.
    pub open spec fn failure(self, name: Seq<char>) -> Option<Seq<char>> {
        match self {
            Calibration::EstimateFailed(error) => Some(
                "homography failed for "@ + name + ": "@ + error@,
            ),
            Calibration::LoadFailed(error) => Some(
                "could not load "@ + name + " calibration frame: "@ + error@,
            ),
            _ => None,
        }
    }
}

/// The last failure among the first `n` results; result `i` is that of camera
/// `i + 1`.
pub open spec fn last_failure<H>(
    cameras: Seq<CameraSource>,
    results: Seq<Calibration<H>>,
    n: int,
) -> Option<Seq<char>>
    decreases n,
{
    if n <= 0 {
        None
    } else {
        match results[n - 1].failure(cameras[n].name@) {
            Some(text) => Some(text),
            None => last_failure(cameras, results, n - 1),
        }
    }
}

/// The status after a calibration.
pub open spec fn calibration_text<H>(
    cameras: Seq<CameraSource>,
    results: Seq<Calibration<H>>,
) -> Seq<char> {
    match last_failure(cameras, results, results.len() as int) {
        Some(text) => text,
        None => if cameras.len() == 1 {
            "reference camera loaded; add another camera to calibrate"@
        } else {
            "online SIFT homography calibrated for "@ + decimal(cameras.len()) + " cameras"@
        },
    }
}

impl<F, H: Copy> Session<F, H> {
    /// The name of the camera that would be added next.
    pub fn next_camera_name(&self) -> (name: String)
        requires
            self.cameras@.len() < usize::MAX,
        ensures
            name@ == "Camera "@ + decimal((self.cameras@.len() + 1) as nat),
    {
        "Camera ".to_owned().concat(to_decimal((self.cameras.len() + 1) as u64).as_str())
    }

    /// Adds a camera that has frames and starts anew; the caller then calibrates.
    /// Otherwise the message about its selection becomes the status.
    pub fn add_camera(&mut self, camera: CameraSource, message: String) -> (added: bool)
        ensures
            added == (camera.frames@.len() > 0),
            added ==> {
                &&& final(self).is_reset()
                &&& final(self).frame == 0
                &&& final(self).cameras@ == old(self).cameras@.push(camera)
                &&& final(self).cache@.len() == 0
                &&& final(self).resets(
                    Session {
                        cameras: final(self).cameras,
                        cache: final(self).cache,
                        ..*old(self)
                    },
                )
            },
            !added ==> *final(self) == (Session { status: message, ..*old(self) }),
    {
        if camera.frames.len() > 0 {
            self.cameras.push(camera);
            self.reset_pipeline();
            self.cache = Vec::new();
            true
        } else {
            self.status = message;
            false
        }
    }

    /// Removes all cameras.
    pub fn clear(&mut self)
        ensures
            final(self).is_reset(),
            final(self).frame == 0,
            final(self).cameras@.len() == 0,
            final(self).cache@.len() == 0,
            final(self).homographies@.len() == 0,
            final(self).status@ == "add camera sources to begin"@,
            final(self).resets(
                Session {
                    cameras: final(self).cameras,
                    cache: final(self).cache,
                    homographies: final(self).homographies,
                    status: final(self).status,
                    ..*old(self)
                },
            ),
    {
        self.cameras = Vec::new();
        self.reset_pipeline();
        self.cache = Vec::new();
        self.homographies = Vec::new();
        self.set_status("add camera sources to begin");
    }

    /// The frame that a camera is calibrated with: its first.
    pub fn calibration_frame(&self, camera: usize) -> (path: Option<&PathBuf>)
        ensures
            path is Some <==> camera < self.cameras@.len() && self.cameras@[camera as int].frames@.len()
                > 0,
            path matches Some(p) ==> *p == self.cameras@[camera as int].frames@[0],
    {
        if camera < self.cameras.len() && self.cameras[camera].frames.len() > 0 {
            Some(&self.cameras[camera].frames[0])
        } else {
            None
        }
    }

    /// Notes that there is no frame of the reference camera to calibrate with.
    pub fn calibrated_without_reference(&mut self)
        ensures
            final(self).homographies@.len() == 0,
            final(self).status@ == "add camera sources to begin"@,
            *final(self) == (Session {
                homographies: final(self).homographies,
                status: final(self).status,
                ..*old(self)
            }),
    {
        self.homographies = Vec::new();
        self.set_status("add camera sources to begin");
    }

    /// Notes that the frame of the reference camera could not be loaded: every camera
    /// gets the identity.
    pub fn calibrated_without_reference_frame(&mut self, identity: H)
        ensures
            final(self).homographies@ == Seq::new(old(self).cameras@.len(), |c: int| identity),
            final(self).status@ == "could not load reference calibration frame"@,
            *final(self) == (Session {
                homographies: final(self).homographies,
                status: final(self).status,
                ..*old(self)
            }),
    {
        let mut homographies: Vec<H> = Vec::new();
        let n: usize = self.cameras.len();
        let mut i: usize = 0;
        while i < n
            invariant
                i <= n,
                homographies@ == Seq::new(i as nat, |c: int| identity),
            decreases n - i,
        {
            homographies.push(identity);
            assert(homographies@ =~= Seq::new((i + 1) as nat, |c: int| identity));
            i = i + 1;
        }
        self.homographies = homographies;
        self.set_status("could not load reference calibration frame");
    }

    /// Notes what came of the calibration of the cameras other than the reference, in
    /// their order.
    pub fn calibrated(&mut self, identity: H, results: &[Calibration<H>])
        requires
            results@.len() + 1 == old(self).cameras@.len(),
        ensures
            final(self).homographies@ == seq![identity] + results@.map_values(
                |r: Calibration<H>| r.homography(identity),
            ),
            final(self).status@ == calibration_text(old(self).cameras@, results@),
            *final(self) == (Session {
                homographies: final(self).homographies,
                status: final(self).status,
                ..*old(self)
            }),
    {
        let ghost mapped = results@.map_values(|r: Calibration<H>| r.homography(identity));
        let mut homographies: Vec<H> = Vec::new();
        homographies.push(identity);
        let mut failure: Option<String> = None;
        let mut i: usize = 0;
        assert(homographies@ =~= seq![identity] + mapped.take(0));
        while i < results.len()
            invariant
                i <= results@.len(),
                *self == *old(self),
                results@.len() + 1 == self.cameras@.len(),
                mapped == results@.map_values(|r: Calibration<H>| r.homography(identity)),
                homographies@ == seq![identity] + mapped.take(i as int),
                last_failure(self.cameras@, results@, i as int) == match failure {
                    Some(text) => Some(text@),
                    None => None,
                },
            decreases results@.len() - i,
        {
            match &results[i] {
                Calibration::NoFrame => {
                    homographies.push(identity);
                },
                Calibration::Mapping(h) => {
                    homographies.push(*h);
                },
                Calibration::EstimateFailed(error) => {
                    homographies.push(identity);
                    let mut text: String = "homography failed for ".to_owned();
                    text.append(self.cameras[i + 1].name.as_str());
                    text.append(": ");
                    text.append(error.as_str());
                    failure = Some(text);
                },
                Calibration::LoadFailed(error) => {
                    homographies.push(identity);
                    let mut text: String = "could not load ".to_owned();
                    text.append(self.cameras[i + 1].name.as_str());
                    text.append(" calibration frame: ");
                    text.append(error.as_str());
                    failure = Some(text);
                },
            }
            assert(homographies@ =~= seq![identity] + mapped.take(i + 1));
            i = i + 1;
        }
        assert(mapped.take(i as int) =~= mapped);
        self.homographies = homographies;
        match failure {
            Some(text) => {
                self.status = text;
            },
            None => if self.cameras.len() == 1 {
                self.set_status("reference camera loaded; add another camera to calibrate");
            } else {
                let mut text: String = "online SIFT homography calibrated for ".to_owned();
                text.append(to_decimal(self.cameras.len() as u64).as_str());
                text.append(" cameras");
                self.status = text;
            },
        }
    }
}

/// What the caller has to do for a step.
pub enum StepAction {
    /// Nothing.
    Idle,
    /// Show the frame with this number again.
    ShowCached(usize),
    /// Look for a result of the worker.
    Poll,
    /// Hand the frames to the worker.
    Submit(FrameBatch),
}

/// The number of frames is the lowest of any camera.
proof fn lemma_common_frames(cameras: Seq<CameraSource>, n: int, c: int)
    requires
        0 <= c < n <= cameras.len(),
    ensures
        0 <= common_frames(cameras, n) <= cameras[c].frames@.len(),
    decreases n,
{
    if n > 1 {
        if c < n - 1 {
            lemma_common_frames(cameras, n - 1, c);
        } else {
            lemma_common_frames(cameras, n - 1, 0);
        }
    }
}

fn copy_tracks(tracks: &Vec<Vec<Track>>) -> (copies: Vec<Vec<Track>>)
    ensures
        copies@.len() == tracks@.len(),
        track_lists(copies@) == track_lists(tracks@),
{
    let mut copies: Vec<Vec<Track>> = Vec::new();
    let mut i: usize = 0;
    while i < tracks.len()
        invariant
            i <= tracks@.len(),
            copies@.len() == i,
            forall|k: int| 0 <= k < i ==> (#[trigger] copies@[k])@ == tracks@[k]@,
        decreases tracks@.len() - i,
    {
        let list: &Vec<Track> = &tracks[i];
        let mut copy: Vec<Track> = Vec::new();
        let mut j: usize = 0;
        while j < list.len()
            invariant
                j <= list@.len(),
                copy@ == list@.take(j as int),
            decreases list@.len() - j,
        {
            copy.push(list[j]);
            assert(copy@ =~= list@.take(j + 1));
            j = j + 1;
        }
        assert(copy@ =~= list@);
        copies.push(copy);
        i = i + 1;
    }
    assert(track_lists(copies@) =~= track_lists(tracks@));
    copies
}

impl<F, H> Session<F, H> {
    /// What was shown of a frame, if it was shown with all of the cameras.
    pub open spec fn cached(self, frame: int) -> Option<CachedFrame> {
        if 0 <= frame < self.cache@.len() {
            match self.cache@[frame] {
                Some(cached) => if cached.tracks@.len() == self.cameras@.len()
                    && cached.global_ids@.len() == self.cameras@.len() {
                    Some(cached)
                } else {
                    None
                },
                None => None,
            }
        } else {
            None
        }
    }

    /// Why there can be no step, if so.
    pub open spec fn obstacle(self) -> Option<Seq<char>> {
        if self.cameras@.len() == 0 {
            Some("add camera sources first"@)
        } else if self.homographies@.len() != self.cameras@.len() {
            Some("homographies are not ready"@)
        } else if self.frame >= self.total() {
            Some("all frames processed"@)
        } else {
            None
        }
    }

    /// The number of frames that all cameras have.
    pub fn frame_count(&self) -> (n: usize)
        ensures
            n == self.total(),
    {
        let mut n: usize = 0;
        let mut i: usize = 0;
        while i < self.cameras.len()
            invariant
                i <= self.cameras@.len(),
                n == common_frames(self.cameras@, i as int),
            decreases self.cameras@.len() - i,
        {
            let len: usize = self.cameras[i].frames.len();
            if i == 0 || len < n {
                n = len;
            }
            i = i + 1;
        }
        n
    }

    /// Begins a step, which takes one synchronized frame of every camera through
    /// detection and tracking. `worker` tells whether there is a worker. A frame that
    /// was shown before is shown again. Otherwise its images go to the worker, and
    /// the steps that follow wait for the result.
    pub fn begin_step(&mut self, worker: bool) -> (action: StepAction)
        requires
            old(self).wf(),
        ensures
            final(self).wf(),
            match old(self).obstacle() {
                Some(text) => {
                    &&& action is Idle
                    &&& final(self).status@ == text
                    &&& final(self).running == (old(self).running && (old(self).cameras@.len()
                        == 0 || old(self).homographies@.len() != old(self).cameras@.len()))
                    &&& *final(self) == (Session {
                        status: final(self).status,
                        running: final(self).running,
                        ..*old(self)
                    })
                },
                None => match old(self).cached(old(self).frame as int) {
                    Some(cached) => {
                        &&& action matches StepAction::ShowCached(frame)
                        &&& frame == old(self).frame
                        &&& track_lists(final(self).tracks@) == track_lists(cached.tracks@)
                        &&& contents(final(self).global_ids@) == contents(cached.global_ids@)
                        &&& final(self).frame == old(self).frame + 1
                        &&& final(self).status@ == "cached frame "@ + decimal(
                            old(self).frame as nat,
                        )
                        &&& *final(self) == (Session {
                            tracks: final(self).tracks,
                            global_ids: final(self).global_ids,
                            frame: final(self).frame,
                            status: final(self).status,
                            ..*old(self)
                        })
                    },
                    None => if !worker {
                        &&& action is Idle
                        &&& final(self).status@ == "pipeline worker unavailable"@
                        &&& *final(self) == (Session { status: final(self).status, ..*old(self) })
                    } else if old(self).pending_pipeline {
                        &&& action is Poll
                        &&& *final(self) == *old(self)
                    } else {
                        &&& action matches StepAction::Submit(batch)
                        &&& batch.cameras@ == frames_at(
                            old(self).cameras@,
                            old(self).frame as int,
                        )
                        &&& *final(self) == *old(self)
                    },
                },
            },
    {
        if self.cameras.len() == 0 {
            self.set_status("add camera sources first");
            return StepAction::Idle;
        }
        if self.homographies.len() != self.cameras.len() {
            self.set_status("homographies are not ready");
            return StepAction::Idle;
        }
        let i: usize = self.frame;
        if i >= self.frame_count() {
            self.set_status("all frames processed");
            self.running = false;
            return StepAction::Idle;
        }
        if i < self.cache.len() {
            let shown = match &self.cache[i] {
                Some(cached) => if cached.tracks.len() == self.cameras.len()
                    && cached.global_ids.len() == self.cameras.len() {
                    Some((copy_tracks(&cached.tracks), copy_maps(&cached.global_ids)))
                } else {
                    None
                },
                None => None,
            };
            if let Some((tracks, global_ids)) = shown {
                self.tracks = tracks;
                self.global_ids = global_ids;
                self.frame = i + 1;
                self.set_status_about("cached frame ", to_decimal(i as u64).as_str());
                return StepAction::ShowCached(i);
            }
        }
        if !worker {
            self.set_status("pipeline worker unavailable");
            return StepAction::Idle;
        }
        if self.pending_pipeline {
            return StepAction::Poll;
        }
        proof {
            assert forall|c: int| 0 <= c < self.cameras@.len() implies i < (
            #[trigger] self.cameras@[c]).frames@.len() by {
                lemma_common_frames(self.cameras@, self.cameras@.len() as int, c);
            }
        }
        StepAction::Submit(FrameBatch::at(&self.cameras, i))
    }

    /// Notes whether the worker has taken the frames, or the error.
    pub fn submitted(&mut self, error: Option<&str>)
        ensures
            match error {
                Some(e) => {
                    &&& final(self).status@ == "pipeline submit failed: "@ + e@
                    &&& *final(self) == (Session { status: final(self).status, ..*old(self) })
                },
                None => *final(self) == (Session { pending_pipeline: true, ..*old(self) }),
            },
    {
        match error {
            Some(e) => self.set_status_about("pipeline submit failed: ", e),
            None => {
                self.pending_pipeline = true;
            },
        }
    }

    /// Notes what a look for a result of the worker gave, and returns whether there is
    /// a result to go on with.
    pub fn polled(&mut self, event: PollEvent) -> (proceed: bool)
        ensures
            proceed <==> (event matches PollEvent::Finished { images, detections } && images
                == old(self).cameras@.len() && detections == old(self).cameras@.len()),
            match event {
                PollEvent::Pending => *final(self) == *old(self),
                PollEvent::Failed(e) => {
                    &&& final(self).status@ == "pipeline failed: "@ + e@
                    &&& *final(self) == (Session {
                        pending_pipeline: false,
                        status: final(self).status,
                        ..*old(self)
                    })
                },
                PollEvent::Finished { .. } => {
                    &&& proceed ==> final(self).status == old(self).status
                    &&& !proceed ==> final(self).status@
                        == "pipeline returned the wrong number of cameras"@
                    &&& *final(self) == (Session {
                        pending_pipeline: false,
                        status: final(self).status,
                        ..*old(self)
                    })
                },
            },
    {
        match event {
            PollEvent::Pending => false,
            PollEvent::Failed(e) => {
                self.pending_pipeline = false;
                self.set_status_about("pipeline failed: ", e.as_str());
                false
            },
            PollEvent::Finished { images, detections } => {
                self.pending_pipeline = false;
                if images != self.cameras.len() || detections != self.cameras.len() {
                    self.set_status("pipeline returned the wrong number of cameras");
                    false
                } else {
                    true
                }
            },
        }
    }

    /// The position of the slider: the frame that is next, or the last one if all
    /// frames have been shown.
    pub fn position(&self) -> (i: usize)
        ensures
            i == if self.total() == 0 {
                0
            } else if self.frame < self.total() {
                self.frame as int
            } else {
                self.total() - 1
            },
    {
        let n: usize = self.frame_count();
        if n == 0 {
            0
        } else if self.frame < n {
            self.frame
        } else {
            n - 1
        }
    }

    /// Moves to a frame that the user has picked, and returns whether it is another
    /// one. Scrubbing takes control away from playback.
    pub fn seek(&mut self, selected: usize) -> (moved: bool)
        ensures
            moved == (old(self).total() > 0 && selected != old(self).frame),
            moved ==> {
                &&& final(self).is_reset()
                &&& final(self).frame == selected
                &&& final(self).status@ == "seeked to frame "@ + decimal(selected as nat)
                &&& final(self).resets(
                    Session { running: false, status: final(self).status, ..*old(self) },
                )
            },
            !moved ==> *final(self) == *old(self),
    {
        if self.frame_count() == 0 || selected == self.frame {
            return false;
        }
        self.running = false;
        self.reset_pipeline();
        self.frame = selected;
        self.set_status_about("seeked to frame ", to_decimal(selected as u64).as_str());
        true
    }

    /// Starts or stops playback.
    pub fn toggle_playback(&mut self)
        ensures
            *final(self) == (Session { running: !old(self).running, ..*old(self) }),
    {
        self.running = !self.running;
    }

    /// Stops playback after a step if no frame is left.
    pub fn stop_at_end(&mut self)
        ensures
            *final(self) == (Session {
                running: old(self).running && old(self).frame < old(self).total(),
                ..*old(self)
            }),
    {
        if self.frame >= self.frame_count() {
            self.running = false;
        }
    }
}

/// Trackers still agree after those of one camera have changed.
proof fn lemma_trackers_agree<F>(
    before: Seq<Sort<F>>,
    after: Seq<Sort<F>>,
    camera: int,
    next: int,
    later: int,
)
    requires
        0 <= camera < before.len(),
        after.len() == before.len(),
        trackers_agree(before, next),
        next <= later,
        forall|c: int| 0 <= c < before.len() && c != camera ==> #[trigger] after[c] == before[c],
        after[camera].wf(),
        after[camera].ids_below(later),
        forall|c: int|
            0 <= c < before.len() && c != camera ==> ids_apart(
                after[camera].trackers(),
                (#[trigger] before[c]).trackers(),
            ),
    ensures
        trackers_agree(after, later),
{
    assert forall|c: int| 0 <= c < after.len() implies (#[trigger] after[c]).wf()
        && after[c].ids_below(later) by {
        if c != camera {
            assert(before[c].wf());
        }
    }
    assert forall|c: int, d: int|
        0 <= c < after.len() && 0 <= d < after.len() && c != d implies ids_apart(
        (#[trigger] after[c]).trackers(),
        (#[trigger] after[d]).trackers(),
    ) by {
        if c == camera {
            assert(after[d] == before[d]);
        } else if d == camera {
            assert(ids_apart(after[camera].trackers(), before[c].trackers()));
        } else {
            assert(ids_apart(before[c].trackers(), before[d].trackers()));
        }
    }
}

impl<F, H> Session<F, H> {
    /// The session differs from `other` at most in the trackers of one camera and in
    /// the counter.
    pub open spec fn retracks(self, other: Self, camera: int) -> bool {
        &&& self == (Session { trackers: self.trackers, count: self.count, ..other })
        &&& self.trackers@.len() == other.trackers@.len()
        &&& forall|c: int|
            0 <= c < self.trackers@.len() && c != camera ==> #[trigger] self.trackers@[c]
                == other.trackers@[c]
    }

    /// Starts a frame of a camera, as `Sort::predict` does.
    pub fn predict(&mut self, camera: usize, lost: &[bool])
        requires
            old(self).wf(),
            camera < old(self).cameras@.len(),
            old(self).trackers@[camera as int].frame_count() < i64::MAX,
            lost@.len() == old(self).trackers@[camera as int].trackers().len(),
        ensures
            final(self).wf(),
            final(self).retracks(*old(self), camera as int),
            final(self).count == old(self).count,
            ({
                let before = old(self).trackers@[camera as int];
                let after = final(self).trackers@[camera as int];
                &&& after.is_ready()
                &&& after.trackers() == without_lost(all_predicted(before.trackers()), lost@)
                &&& after.frame_count() == before.frame_count() + 1
                &&& after.same_settings(&before)
            }),
    {
        let ghost before = self.trackers@;
        self.trackers[camera].predict(lost);
        proof {
            assert(before[camera as int].ids_below(self.count@));
            assert forall|c: int| 0 <= c < before.len() && c != camera implies ids_apart(
                self.trackers@[camera as int].trackers(),
                (#[trigger] before[c]).trackers(),
            ) by {
                assert(ids_apart(before[camera as int].trackers(), before[c].trackers()));
                law_ids_stay_apart_when_predicted(
                    before[camera as int].trackers(),
                    before[c].trackers(),
                    lost@,
                );
            }
            lemma_trackers_agree(
                before,
                self.trackers@,
                camera as int,
                self.count@,
                self.count@,
            );
        }
    }

    /// Takes the detections of a frame of a camera, all of them with label 0, as
    /// `Sort::update` does.
    pub fn update(&mut self, camera: usize, scores: &[Vec<i64>], fresh: Vec<F>) -> (r: (
        Vec<(usize, usize)>,
        Vec<usize>,
    ))
        requires
            old(self).wf(),
            camera < old(self).cameras@.len(),
            old(self).trackers@[camera as int].is_ready(),
            is_score_matrix(
                scores@,
                old(self).trackers@[camera as int].trackers().len() as int,
            ),
            scores@.len() < usize::MAX,
            old(self).trackers@[camera as int].trackers().len() < usize::MAX,
            fresh@.len() == scores@.len(),
            old(self).count@ + scores@.len() <= i64::MAX,
        ensures
            final(self).wf(),
            final(self).retracks(*old(self), camera as int),
            final(self).count@ == old(self).count@ + r.1@.len(),
            ({
                let before = old(self).trackers@[camera as int];
                let after = final(self).trackers@[camera as int];
                &&& is_matching(
                    score_entries(scores@),
                    before.trackers().len() as int,
                    before.iou_threshold(),
                    r.0@,
                    r.1@,
                )
                &&& after.trackers() == with_matches(before.trackers(), r.0@) + newcomers(
                    fresh@,
                    Seq::empty(),
                    r.1@,
                    old(self).count@,
                )
                &&& after.frame_count() == before.frame_count()
                &&& after.same_settings(&before)
            }),
    {
        let ghost before = self.trackers@;
        let ghost next = self.count@;
        let ghost filters = fresh@;
        let labels: Vec<i64> = Vec::new();
        proof {
            assert(before[camera as int].ids_below(next));
        }
        let r = self.trackers[camera].update(scores, labels.as_slice(), fresh, &mut self.count);
        proof {
            assert(labels@ =~= Seq::empty());
            assert forall|c: int| 0 <= c < before.len() && c != camera implies ids_apart(
                self.trackers@[camera as int].trackers(),
                (#[trigger] before[c]).trackers(),
            ) by {
                assert(ids_apart(before[camera as int].trackers(), before[c].trackers()));
                assert(before[c].ids_below(next));
                law_ids_stay_apart(
                    before[camera as int].trackers(),
                    before[c].trackers(),
                    r.0@,
                    filters,
                    Seq::empty(),
                    r.1@,
                    next,
                );
            }
            lemma_trackers_agree(before, self.trackers@, camera as int, next, self.count@);
        }
        r
    }

    /// Ends a frame of a camera, as `Sort::report` does.
    pub fn report(&mut self, camera: usize, boxes: &[BBox]) -> (tracks: Vec<Track>)
        requires
            old(self).wf(),
            camera < old(self).cameras@.len(),
            boxes@.len() == old(self).trackers@[camera as int].trackers().len(),
        ensures
            final(self).wf(),
            final(self).retracks(*old(self), camera as int),
            final(self).count == old(self).count,
            ({
                let before = old(self).trackers@[camera as int];
                let after = final(self).trackers@[camera as int];
                &&& tracks@ == reports_from(
                    before.trackers(),
                    boxes@,
                    before.frame_count(),
                    before.min_hits(),
                    0,
                )
                &&& after.trackers() == alive(before.trackers(), before.max_age())
                &&& after.frame_count() == before.frame_count()
                &&& after.same_settings(&before)
            }),
    {
        let ghost before = self.trackers@;
        let tracks: Vec<Track> = self.trackers[camera].report(boxes);
        proof {
            assert(before[camera as int].ids_below(self.count@));
            assert forall|c: int| 0 <= c < before.len() && c != camera implies ids_apart(
                self.trackers@[camera as int].trackers(),
                (#[trigger] before[c]).trackers(),
            ) by {
                assert(ids_apart(before[camera as int].trackers(), before[c].trackers()));
                law_ids_stay_apart_when_reported(
                    before[camera as int].trackers(),
                    before[c].trackers(),
                    before[camera as int].max_age(),
                );
            }
            lemma_trackers_agree(
                before,
                self.trackers@,
                camera as int,
                self.count@,
                self.count@,
            );
        }
        tracks
    }
}

impl<F, H> Session<F, H> {
    /// The global identities before a frame is fused: those of the global tracker, or
    /// none if there is no such tracker yet.
    pub open spec fn identities(self) -> Identities {
        match self.global_tracker {
            Some(g) => g@,
            None => Identities::start(self.cameras@.len()),
        }
    }

    /// The score that tracks of two cameras need to be the same object.
    pub open spec fn fusion_threshold(self) -> int {
        match self.global_tracker {
            Some(g) => g.iou_thres(),
            None => self.iou_thres as int,
        }
    }

    /// Takes the tracks of all cameras in a frame, and gives them global ids. The
    /// scores are those that `MultiCameraTracker::update` takes.
    pub fn fuse(&mut self, tracks: Vec<Vec<Track>>, scores: &[Vec<Vec<Vec<i64>>>])
        requires
            old(self).wf(),
            tracks@.len() == old(self).cameras@.len(),
            old(self).identities().has_room(track_total(tracks@, tracks@.len() as int)),
            are_pair_scores(scores@, tracks@),
            forall|s: int| 0 <= s < tracks@.len() ==> (#[trigger] tracks@[s])@.len() < usize::MAX,
        ensures
            final(self).wf(),
            final(self).tracks == tracks,
            final(self).global_tracker is Some,
            is_frame(
                old(self).identities(),
                tracks@,
                scores@,
                old(self).fusion_threshold(),
                final(self).identities(),
            ),
            final(self).fusion_threshold() == old(self).fusion_threshold(),
            forall|more: int|
                0 <= more && #[trigger] old(self).identities().has_room(
                    track_total(tracks@, tracks@.len() as int) + more,
                ) ==> final(self).identities().has_room(more),
            contents(final(self).global_ids@) == final(self).identities().ids,
            *final(self) == (Session {
                tracks: final(self).tracks,
                global_ids: final(self).global_ids,
                global_tracker: final(self).global_tracker,
                ..*old(self)
            }),
    {
        let mut tracker: MultiCameraTracker = match self.global_tracker.take() {
            Some(tracker) => tracker,
            None => MultiCameraTracker::new(self.cameras.len(), self.iou_thres),
        };
        assert(tracker@ == old(self).identities());
        let ids: Vec<HashMap<i64, i64>> = tracker.update(tracks.as_slice(), scores);
        proof {
            assert(contents(ids@).len() == ids@.len());
        }
        self.global_tracker = Some(tracker);
        self.global_ids = ids;
        self.tracks = tracks;
    }

    /// The image of a camera with its tracks drawn into it.
    pub fn render(&mut self, camera: usize, img: &Frame) -> (out: Frame)
        requires
            old(self).wf(),
            camera < old(self).cameras@.len(),
        ensures
            final(self).wf(),
            ({
                let c = camera as int;
                let tracks = old(self).tracks@[c]@;
                let ids = old(self).global_ids@[c]@;
                let drawn = trails(final(self).histories@[c]@);
                &&& drawn == extended(
                    trails(old(self).histories@[c]@),
                    tracks,
                    ids,
                    tracks.len() as int,
                )
                &&& out@ == img@.tracks(tracks, ids, drawn, tracks.len() as int)
            }),
            final(self).histories@.len() == old(self).histories@.len(),
            forall|c: int|
                0 <= c < old(self).histories@.len() && c != camera ==> #[trigger] final(
                    self).histories@[c] == old(self).histories@[c],
            *final(self) == (Session { histories: final(self).histories, ..*old(self) }),
    {
        draw_tracks(
            img,
            self.tracks[camera].as_slice(),
            &self.global_ids[camera],
            &mut self.histories[camera],
        )
    }

    /// How many tracks are shown.
    fn shown_tracks(&self) -> (n: usize)
        requires
            track_total(self.tracks@, self.tracks@.len() as int) <= usize::MAX,
        ensures
            n == track_total(self.tracks@, self.tracks@.len() as int),
    {
        let mut n: usize = 0;
        let mut i: usize = 0;
        while i < self.tracks.len()
            invariant
                i <= self.tracks@.len(),
                track_total(self.tracks@, self.tracks@.len() as int) <= usize::MAX,
                n == track_total(self.tracks@, i as int),
            decreases self.tracks@.len() - i,
        {
            proof {
                lemma_track_total(self.tracks@, i + 1, self.tracks@.len() as int);
            }
            n = n + self.tracks[i].len();
            i = i + 1;
        }
        n
    }

    /// Ends the step of a frame that was tracked: keeps what is shown of it, and goes
    /// on to the next. `elapsed` is the time that the step took.
    pub fn finish(&mut self, elapsed: &str)
        requires
            old(self).wf(),
            old(self).frame < usize::MAX,
            track_total(old(self).tracks@, old(self).tracks@.len() as int) <= usize::MAX,
        ensures
            final(self).wf(),
            final(self).frame == old(self).frame + 1,
            final(self).status@ == "frame "@ + decimal(old(self).frame as nat) + ": "@ + decimal(
                track_total(old(self).tracks@, old(self).tracks@.len() as int) as nat,
            ) + " / "@ + decimal(old(self).cameras@.len()) + " tracks ("@ + elapsed@ + ")"@,
            final(self).cached(old(self).frame as int) matches Some(cached) && track_lists(
                cached.tracks@,
            ) == track_lists(old(self).tracks@) && contents(cached.global_ids@) == contents(
                old(self).global_ids@,
            ),
            final(self).cache@.len() == if old(self).frame < old(self).cache@.len() {
                old(self).cache@.len() as int
            } else {
                old(self).frame + 1
            },
            forall|i: int|
                0 <= i < final(self).cache@.len() && i != old(self).frame ==> #[trigger] final(
                    self).cache@[i] == if i < old(self).cache@.len() {
                    old(self).cache@[i]
                } else {
                    None
                },
            *final(self) == (Session {
                frame: final(self).frame,
                status: final(self).status,
                cache: final(self).cache,
                ..*old(self)
            }),
    {
        let i: usize = self.frame;
        while self.cache.len() <= i
            invariant
                i == old(self).frame,
                i < usize::MAX,
                *self == (Session { cache: self.cache, ..*old(self) }),
                old(self).cache@.len() <= self.cache@.len(),
                self.cache@.len() <= i + 1 || self.cache@.len() == old(self).cache@.len(),
                forall|k: int|
                    0 <= k < self.cache@.len() ==> #[trigger] self.cache@[k] == if k
                        < old(self).cache@.len() {
                        old(self).cache@[k]
                    } else {
                        None
                    },
            decreases i + 1 - self.cache@.len(),
        {
            self.cache.push(None);
        }
        let cached = CachedFrame {
            tracks: copy_tracks(&self.tracks),
            global_ids: copy_maps(&self.global_ids),
        };
        self.cache.set(i, Some(cached));
        self.frame = i + 1;
        let mut status: String = "frame ".to_owned();
        status.append(to_decimal(i as u64).as_str());
        status.append(": ");
        status.append(to_decimal(self.shown_tracks() as u64).as_str());
        status.append(" / ");
        status.append(to_decimal(self.cameras.len() as u64).as_str());
        status.append(" tracks (");
        status.append(elapsed);
        status.append(")");
        self.status = status;
    }

    /// The line about the session in the toolbar.
    pub fn summary(&self) -> (s: String)
        ensures
            s@ == decimal(self.cameras@.len()) + " camera(s) | frame "@ + decimal(
                self.frame as nat,
            ),
    {
        let mut s: String = to_decimal(self.cameras.len() as u64);
        s.append(" camera(s) | frame ");
        s.append(to_decimal(self.frame as u64).as_str());
        s
    }

    /// The line about the position in the transport bar.
    pub fn position_label(&self) -> (s: String)
        ensures
            s@ == "frame "@ + decimal(self.frame as nat) + "/"@ + decimal(
                if self.total() > 0 {
                    (self.total() - 1) as nat
                } else {
                    0
                },
            ),
    {
        let n: usize = self.frame_count();
        let last: usize = if n > 0 {
            n - 1
        } else {
            0
        };
        let mut s: String = "frame ".to_owned();
        s.append(to_decimal(self.frame as u64).as_str());
        s.append("/");
        s.append(to_decimal(last as u64).as_str());
        s
    }
}

/// Every camera has the frames that are counted, and some camera has no more.
pub proof fn law_total_is_that_of_the_shortest<F, H>(session: Session<F, H>)
    requires
        session.cameras@.len() > 0,
    ensures
        forall|c: int|
            0 <= c < session.cameras@.len() ==> session.total() <= (
            #[trigger] session.cameras@[c]).frames@.len(),
        exists|c: int|
            0 <= c < session.cameras@.len() && session.total() == (
            #[trigger] session.cameras@[c]).frames@.len(),
{
    let n = session.cameras@.len() as int;
    assert forall|c: int| 0 <= c < n implies session.total() <= (
    #[trigger] session.cameras@[c]).frames@.len() by {
        lemma_common_frames(session.cameras@, n, c);
    }
    let c = lemma_shortest(session.cameras@, n);
    assert(session.total() == session.cameras@[c].frames@.len());
}

proof fn lemma_shortest(cameras: Seq<CameraSource>, n: int) -> (c: int)
    requires
        0 < n <= cameras.len(),
    ensures
        0 <= c < n,
        common_frames(cameras, n) == cameras[c].frames@.len(),
    decreases n,
{
    if n == 1 || cameras[n - 1].frames@.len() < common_frames(cameras, n - 1) {
        n - 1
    } else {
        lemma_shortest(cameras, n - 1)
    }
}

/// A frame that was shown is shown again after the user goes back to it: seeking
/// keeps what was shown, and nothing stands in the way of a step.
pub proof fn law_seeking_keeps_shown_frames<F, H>(
    before: Session<F, H>,
    after: Session<F, H>,
    frame: usize,
)
    requires
        before.cached(frame as int) is Some,
        before.cameras@.len() > 0,
        before.homographies@.len() == before.cameras@.len(),
        frame < before.total(),
        after.resets(Session { running: false, status: after.status, ..before }),
        after.frame == frame,
    ensures
        after.obstacle() is None,
        after.cached(frame as int) == before.cached(frame as int),
{
}

/// Tracks of two cameras never have the same local id.
pub proof fn law_local_ids_differ_between_cameras<F, H>(
    session: Session<F, H>,
    c: int,
    d: int,
    c_boxes: Seq<BBox>,
    d_boxes: Seq<BBox>,
    x: int,
    y: int,
)
    requires
        session.wf(),
        0 <= c < session.cameras@.len(),
        0 <= d < session.cameras@.len(),
        c != d,
        0 <= x < reports_of(session.trackers@[c], c_boxes).len(),
        0 <= y < reports_of(session.trackers@[d], d_boxes).len(),
    ensures
        reports_of(session.trackers@[c], c_boxes)[x].id != reports_of(
            session.trackers@[d],
            d_boxes,
        )[y].id,
{
    let (a, b) = (session.trackers@[c], session.trackers@[d]);
    assert(a.wf() && b.wf());
    assert(ids_apart(a.trackers(), b.trackers()));
    assert(forall|t: int| 0 <= t < a.trackers().len() ==> (#[trigger] a.trackers()[t]).wf(
        a.frame_count(),
    ));
    assert(forall|t: int| 0 <= t < b.trackers().len() ==> (#[trigger] b.trackers()[t]).wf(
        b.frame_count(),
    ));
    law_reported_ids_stay_apart(
        a.trackers(),
        c_boxes,
        a.frame_count(),
        a.min_hits(),
        b.trackers(),
        d_boxes,
        b.frame_count(),
        b.min_hits(),
        x,
        y,
    );
}

/// What `Sort::report` would return with the given boxes.
pub open spec fn reports_of<F>(sort: Sort<F>, boxes: Seq<BBox>) -> Seq<Track> {
    reports_from(sort.trackers(), boxes, sort.frame_count(), sort.min_hits(), 0)
}

/// Nothing stands in the way of a step exactly if there are cameras, each has a homography and
/// each has the frame that is next.
pub proof fn law_step_needs_frames_of_all_cameras<F, H>(session: Session<F, H>)
    ensures
        session.obstacle() is None <==> {
            &&& session.cameras@.len() > 0
            &&& session.homographies@.len() == session.cameras@.len()
            &&& forall|c: int|
                0 <= c < session.cameras@.len() ==> session.frame < (
                #[trigger] session.cameras@[c]).frames@.len()
        },
{
    if session.cameras@.len() > 0 {
        law_total_is_that_of_the_shortest(session);
        let c = choose|c: int|
            0 <= c < session.cameras@.len() && session.total() == (
            #[trigger] session.cameras@[c]).frames@.len();
        assert(session.frame < session.cameras@[c].frames@.len() || session.frame
            >= session.total());
    }
}

/// A frame is shown again exactly if it was kept with tracks and global ids of as many cameras
/// as there are.
pub proof fn law_kept_frames_are_shown_again<F, H>(session: Session<F, H>, frame: int)
    requires
        0 <= frame,
    ensures
        session.cached(frame) is Some <==> {
            &&& frame < session.cache@.len()
            &&& session.cache@[frame] is Some
            &&& session.cache@[frame]->0.tracks@.len() == session.cameras@.len()
            &&& session.cache@[frame]->0.global_ids@.len() == session.cameras@.len()
        },
        session.cached(frame) is Some ==> session.cached(frame) == session.cache@[frame],
{
}

/// After a reset no camera has a tracker, a track, a global id or a trail, nothing is awaited
/// from the worker, ids start anew, and the trackers have the current parameters.
pub proof fn law_reset_forgets<F, H>(session: Session<F, H>, c: int)
    requires
        session.is_reset(),
        0 <= c < session.cameras@.len(),
    ensures
        session.trackers@.len() == session.cameras@.len(),
        session.trackers@[c].trackers().len() == 0,
        session.trackers@[c].frame_count() == 0,
        session.trackers@[c].max_age() == session.max_age,
        session.trackers@[c].min_hits() == session.min_hits,
        session.trackers@[c].iou_threshold() == session.iou_thres,
        session.tracks@.len() == session.cameras@.len(),
        session.tracks@[c]@.len() == 0,
        session.global_ids@.len() == session.cameras@.len(),
        session.global_ids@[c]@.dom() == Set::<i64>::empty(),
        session.histories@.len() == session.cameras@.len(),
        session.histories@[c]@.dom() == Set::<i64>::empty(),
        session.count@ == 0,
        session.global_tracker is None,
        !session.pending_pipeline,
{
    assert(session.trackers@[c].trackers().len() == 0);
    assert(session.global_ids@[c]@.dom() =~= Set::<i64>::empty());
    assert(session.histories@[c]@.dom() =~= Set::<i64>::empty());
}

/// A reset changes nothing but what belongs to the frames that were tracked.
pub proof fn law_reset_keeps_the_rest<F, H>(before: Session<F, H>, after: Session<F, H>)
    requires
        after.resets(before),
    ensures
        after.cameras == before.cameras,
        after.homographies == before.homographies,
        after.status == before.status,
        after.running == before.running,
        after.cache == before.cache,
        after.min_hits == before.min_hits,
        after.max_age == before.max_age,
        after.iou_thres == before.iou_thres,
{
}

/// Work on the frame of one camera leaves the other cameras alone, and everything that is not
/// part of tracking.
pub proof fn law_cameras_are_tracked_apart<F, H>(
    before: Session<F, H>,
    after: Session<F, H>,
    camera: int,
    c: int,
)
    requires
        after.retracks(before, camera),
        0 <= c < before.trackers@.len(),
        c != camera,
    ensures
        after.trackers@.len() == before.trackers@.len(),
        after.trackers@[c] == before.trackers@[c],
        after.cameras == before.cameras,
        after.homographies == before.homographies,
        after.frame == before.frame,
        after.tracks == before.tracks,
        after.global_ids == before.global_ids,
        after.histories == before.histories,
        after.cache == before.cache,
        after.global_tracker == before.global_tracker,
{
}

/// The first frame that is fused starts without identities and with the current threshold;
/// later ones go on with those of the global tracker.
pub proof fn law_fusion_goes_on<F, H>(session: Session<F, H>, s: int)
    requires
        0 <= s < session.cameras@.len(),
    ensures
        session.global_tracker is None ==> {
            &&& session.identities().ids.len() == session.cameras@.len()
            &&& session.identities().ids[s].dom() == Set::<i64>::empty()
            &&& session.identities().ages[s].dom() == Set::<i64>::empty()
            &&& session.identities().next == 1
            &&& session.fusion_threshold() == session.iou_thres
        },
        session.global_tracker matches Some(g) ==> session.identities() == g@
            && session.fusion_threshold() == g.iou_thres(),
{
    if session.global_tracker is None {
        assert(session.identities().ids[s].dom() =~= Set::<i64>::empty());
        assert(session.identities().ages[s].dom() =~= Set::<i64>::empty());
    }
}

/// Of the failures of a calibration the last one is told; without a failure there is none to
/// tell.
pub proof fn law_last_failure_is_told<H>(
    cameras: Seq<CameraSource>,
    results: Seq<Calibration<H>>,
    n: int,
    i: int,
)
    requires
        0 <= i < n <= results.len(),
        results.len() + 1 == cameras.len(),
        forall|k: int|
            i < k < n ==> (#[trigger] results[k]) is NoFrame || results[k] is Mapping,
    ensures
        results[i] matches Calibration::EstimateFailed(e) ==> last_failure(cameras, results, n)
            == Some("homography failed for "@ + cameras[i + 1].name@ + ": "@ + e@),
        results[i] matches Calibration::LoadFailed(e) ==> last_failure(cameras, results, n) == Some(
            "could not load "@ + cameras[i + 1].name@ + " calibration frame: "@ + e@,
        ),
        (results[i] is NoFrame || results[i] is Mapping) && (forall|k: int|
            0 <= k < i ==> (#[trigger] results[k]) is NoFrame || results[k] is Mapping)
            ==> last_failure(cameras, results, n) is None,
    decreases n,
{
    if i < n - 1 {
        law_last_failure_is_told(cameras, results, n - 1, i);
        assert(results[n - 1] is NoFrame || results[n - 1] is Mapping);
    } else if i > 0 {
        if (results[i] is NoFrame || results[i] is Mapping) && (forall|k: int|
            0 <= k < i ==> (#[trigger] results[k]) is NoFrame || results[k] is Mapping) {
            assert(results[i - 1] is NoFrame || results[i - 1] is Mapping);
            law_last_failure_is_told(cameras, results, n - 1, i - 1);
        }
    }
}

/// The reference camera has the identity. Another camera has the mapping that was found for
/// it, or the identity if none was.
pub proof fn law_cameras_have_their_homographies<H>(
    identity: H,
    results: Seq<Calibration<H>>,
    i: int,
)
    requires
        0 <= i < results.len(),
    ensures
        ({
            let all = seq![identity] + results.map_values(
                |r: Calibration<H>| r.homography(identity),
            );
            &&& all.len() == results.len() + 1
            &&& all[0] == identity
            &&& results[i] matches Calibration::Mapping(h) ==> all[i + 1] == h
            &&& results[i] !is Mapping ==> all[i + 1] == identity
        }),
{
}

/// The lists of tracks are those of each camera, in their order.
pub proof fn law_track_lists_are_those_of_the_cameras(tracks: Seq<Vec<Track>>, c: int)
    requires
        0 <= c < tracks.len(),
    ensures
        track_lists(tracks).len() == tracks.len(),
        track_lists(tracks)[c] == tracks[c]@,
{
}

} // verus!
