# mc_mot

Multi-camera multi-object tracking. Persons are detected in every camera, tracked
per camera with SORT, and fused into global identities through homographies into a
common reference plane.

- `src/` is the library, verified with Verus:
  - `assignment`: minimum-cost assignment (Hungarian algorithm), proved optimal
  - `insertion`: which of several minimum-cost assignments is taken
  - `association`: detections to trackers, by overlap scores
  - `sort`: the life of the trackers of one camera
  - `multicam`: global identities over all cameras
  - `sort_run`, `multicam_run`: what holds over whole runs of the two
  - `draw`: tracks and trails in RGB frames
  - `session`, `pipeline`: cameras, calibration, stepping, playback and caching
  - `detect`, `calibration`: the layout and the checks around the network and the
    keypoint matches
  - `npy`, `video`, `text`: .npy files, extracted video frames, text
- `tests/` runs the library on concrete values.
- `app/` is the program around it: the window, files, `ffmpeg`, OpenCV, and all
  floating point (overlaps, Kalman filters, projections).

Overlaps enter the library as fixed-point scores from 0 to `SCORE_ONE`; motion
filters and homographies are carried as values of the caller's types.
