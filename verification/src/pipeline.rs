//! The boundary between a session and the worker that detects persons in frames.
//!
//! The session hands out the frames of one point in time and is told what came
//! back.

use std::path::PathBuf;

use vstd::prelude::*;

use crate::session::CameraSource;

verus! {

/// One frame of every camera.
pub struct FrameBatch {
    pub cameras: Vec<PathBuf>,
}

/// What a look for a result of the worker gave.
pub enum PollEvent {
    /// There is no result yet.
    Pending,
    /// The worker failed.
    Failed(String),
    /// There is a result, with so many images and so many lists of detections.
    Finished { images: usize, detections: usize },
}

/// The frames of all cameras at one point in time.
pub open spec fn frames_at(cameras: Seq<CameraSource>, frame: int) -> Seq<PathBuf> {
    cameras.map_values(|camera: CameraSource| camera.frames@[frame])
}

impl FrameBatch {
    /// The frames of all cameras at one point in time.
    pub fn at(cameras: &Vec<CameraSource>, frame: usize) -> (batch: Self)
        requires
            forall|c: int|
                0 <= c < cameras@.len() ==> frame < (#[trigger] cameras@[c]).frames@.len(),
        ensures
            batch.cameras@ == frames_at(cameras@, frame as int),
    {
        let mut frames: Vec<PathBuf> = Vec::new();
        let mut c: usize = 0;
        while c < cameras.len()
            invariant
                c <= cameras@.len(),
                forall|c: int|
                    0 <= c < cameras@.len() ==> frame < (#[trigger] cameras@[c]).frames@.len(),
                frames@ == frames_at(cameras@, frame as int).take(c as int),
            decreases cameras@.len() - c,
        {
            frames.push(cameras[c].frames[frame].clone());
            assert(frames@ =~= frames_at(cameras@, frame as int).take(c + 1));
            c = c + 1;
        }
        assert(frames@ =~= frames_at(cameras@, frame as int));
        FrameBatch { cameras: frames }
    }
}

/// A batch holds one frame of every camera, in the order of the cameras and all from the same
/// point in time.
pub proof fn law_batch_has_every_camera(cameras: Seq<CameraSource>, frame: int, c: int)
    requires
        0 <= c < cameras.len(),
    ensures
        frames_at(cameras, frame).len() == cameras.len(),
        frames_at(cameras, frame)[c] == cameras[c].frames@[frame],
{
}

} // verus!
