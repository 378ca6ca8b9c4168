use rapidtag::rigid_body::{assemble_plan, inlier_marker_ids, validate_marker_set, RigidBodyError, TransformCheck};

#[test]
fn marker_set_validation_order() {
    assert_eq!(validate_marker_set(&[], 0, 0, &[]), Err(RigidBodyError::NoMarkers));
    assert_eq!(validate_marker_set(&[1, 2], 2, 1, &[]), Err(RigidBodyError::LengthMismatch));
    assert_eq!(validate_marker_set(&[1, 2], 2, 2, &[TransformCheck::Valid, TransformCheck::Valid]), Ok(()));
    assert_eq!(
        validate_marker_set(&[1, 2, 1], 3, 3, &[TransformCheck::Valid, TransformCheck::Valid, TransformCheck::NonFinite]),
        Err(RigidBodyError::DuplicateMarker(1))
    );
    assert_eq!(
        validate_marker_set(&[1, 2, 1], 3, 3, &[TransformCheck::Valid, TransformCheck::NotRotation, TransformCheck::Valid]),
        Err(RigidBodyError::ImproperRotation(2))
    );
    assert_eq!(
        validate_marker_set(&[5, 6], 2, 2, &[TransformCheck::NonFinite, TransformCheck::NotRotation]),
        Err(RigidBodyError::NonFiniteTransform(5))
    );
}

#[test]
fn skips_unknown_markers_and_rejects_duplicate_detections_plan() {
    assert_eq!(assemble_plan(&[1], &[99], 1, &[true]), Ok(vec![]));
    assert_eq!(assemble_plan(&[1], &[99, 99], 2, &[true, true]), Ok(vec![]));
    assert_eq!(assemble_plan(&[1], &[99, 1, 99], 3, &[false, true, true]), Ok(vec![(1, 0)]));
    assert_eq!(
        assemble_plan(&[1], &[1, 1], 2, &[true, true]),
        Err(RigidBodyError::DuplicateDetection(1))
    );
}

#[test]
fn assemble_plan_matches_known_markers_in_detection_order() {
    assert_eq!(assemble_plan(&[7, 3, 9], &[9, 4, 7], 3, &[true, false, true]), Ok(vec![(0, 2), (2, 0)]));
    assert_eq!(
        assemble_plan(&[7, 3, 9], &[9, 3], 2, &[true, false]),
        Err(RigidBodyError::NonFiniteCorners(3))
    );
    assert_eq!(assemble_plan(&[7], &[7], 2, &[]), Err(RigidBodyError::DetectionLengthMismatch));
}

#[test]
fn inlier_markers_need_three_corners() {
    let per_corner = [7, 7, 7, 7, 9, 9, 9, 9];
    assert_eq!(inlier_marker_ids(&[0, 1, 2, 5, 6], &per_corner, &[7, 9]), vec![7]);
    assert_eq!(inlier_marker_ids(&[0, 1, 4, 5, 6, 7, 2], &per_corner, &[9, 7]), vec![9, 7]);
    assert_eq!(inlier_marker_ids(&[0, 1, 2, 40], &per_corner, &[7]), vec![7]);
    assert_eq!(inlier_marker_ids(&[0, 1, 40], &per_corner, &[7]), Vec::<i32>::new());
}
