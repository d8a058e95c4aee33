use mc_mot::detect::{
    box_start, check_output_count, check_output_sizes, person_logit, to_rgb_planes, DetectError,
    INPUT_SIZE, PLANE,
};

#[test]
fn network_must_return_two_outputs() {
    assert_eq!(check_output_count(2), Ok(()));
    assert_eq!(check_output_count(3), Ok(()));
    assert_eq!(check_output_count(1), Err(DetectError::OutputCount(1)));
    assert_eq!(
        DetectError::OutputCount(0).message(),
        "RF-DETR ONNX returned 0 outputs, expected dets and labels"
    );
}

#[test]
fn outputs_must_hold_all_queries() {
    assert_eq!(check_output_sizes(1200, 27300), Ok(()));
    assert_eq!(
        check_output_sizes(1199, 27300),
        Err(DetectError::OutputSizes { boxes: 1199, labels: 27300 })
    );
    let error = check_output_sizes(1200, 27299).unwrap_err();
    assert_eq!(
        error.message(),
        "unexpected RF-DETR output sizes: boxes=1200, labels=27299"
    );
}

#[test]
fn outputs_are_laid_out_query_by_query() {
    assert_eq!(person_logit(0), 1);
    assert_eq!(person_logit(299), 27210);
    assert_eq!(box_start(0), 0);
    assert_eq!(box_start(299), 1196);
}

#[test]
fn pixels_become_planes() {
    assert_eq!(PLANE, INPUT_SIZE * INPUT_SIZE);
    let pixels: Vec<u8> = (0..3 * PLANE).map(|i| (i % 251) as u8).collect();
    let planes = to_rgb_planes(&pixels);
    assert_eq!(planes.len(), 3 * PLANE);
    for at in [0, 1, 577, PLANE - 1] {
        assert_eq!(planes[at], pixels[3 * at + 2]);
        assert_eq!(planes[PLANE + at], pixels[3 * at + 1]);
        assert_eq!(planes[2 * PLANE + at], pixels[3 * at]);
    }
}
