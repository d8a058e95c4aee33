use mc_mot::calibration::{check_keypoints, good_matches, CalibrationError, Candidate};

fn candidate(first: usize, second: usize, distance: i64) -> Candidate {
    Candidate { first, second, distance, limit: distance * 3 / 4 }
}

#[test]
fn both_images_need_keypoints() {
    assert_eq!(check_keypoints(4, 4), Ok(()));
    assert_eq!(check_keypoints(3, 100), Err(CalibrationError::Keypoints));
    assert_eq!(check_keypoints(100, 3), Err(CalibrationError::Keypoints));
    assert_eq!(CalibrationError::Keypoints.message(), "not enough SIFT keypoints");
    assert_eq!(
        CalibrationError::Estimation.message(),
        "RANSAC homography estimation failed"
    );
}

#[test]
fn clear_matches_are_kept() {
    let knn = vec![
        vec![candidate(0, 5, 10), candidate(0, 6, 100)],
        vec![candidate(1, 7, 75), candidate(1, 8, 100)],
        vec![candidate(2, 9, 74), candidate(2, 1, 100)],
        vec![candidate(3, 2, 0)],
        vec![],
        vec![candidate(5, 3, 0), candidate(5, 4, 8), candidate(5, 0, 9)],
        vec![candidate(6, 0, 1), candidate(6, 2, 4)],
    ];
    assert_eq!(good_matches(&knn), Ok(vec![(0, 5), (2, 9), (5, 3), (6, 0)]));
}

#[test]
fn too_few_matches_are_refused() {
    let knn = vec![vec![candidate(0, 5, 10), candidate(0, 6, 100)]; 3];
    let error = good_matches(&knn).unwrap_err();
    assert_eq!(error, CalibrationError::Matches(3));
    assert_eq!(error.message(), "not enough good SIFT matches: 3");
}
