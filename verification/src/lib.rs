//! Multi-camera multi-object tracking.

pub mod assignment;
pub mod association;
pub mod calibration;
pub mod coverage;
pub mod detect;
pub mod draw;
pub mod fusion;
pub mod insertion;
pub mod multicam;
pub mod multicam_run;
pub mod npy;
pub mod optimum;
pub mod pipeline;
pub mod session;
pub mod sort;
pub mod sort_run;
pub mod text;
pub mod video;
