use rapidtag::imgproc::{adaptive_threshold_labels, frame_layout, labels_to_mask, otsu_level, FrameError};

#[test]
fn otsu_splits_two_clusters() {
    assert_eq!(otsu_level(&[10, 10, 20, 20, 200, 200, 210, 210]), 20);
}

#[test]
fn otsu_takes_lowest_of_tied_levels() {
    assert_eq!(otsu_level(&[0, 0, 0, 0, 255, 255, 255, 255]), 0);
}

#[test]
fn otsu_of_flat_image() {
    assert_eq!(otsu_level(&[7, 7, 7]), 0);
    assert_eq!(otsu_level(&[]), 0);
}

#[test]
fn adaptive_threshold_uniform_image() {
    let px = vec![100u8; 12];
    let fg = adaptive_threshold_labels(&px, 4, 3, 3, 0);
    assert_eq!(fg.len(), 6 * 5);
    for y in 0..5 {
        for x in 0..6 {
            let inside = (1..=4).contains(&x) && (1..=3).contains(&y);
            assert_eq!(fg[y * 6 + x], if inside { 1 } else { 0 });
        }
    }
    let bg = adaptive_threshold_labels(&px, 4, 3, 3, 5);
    assert!(bg.iter().all(|&v| v == 0));
}

#[test]
fn adaptive_threshold_marks_dark_pixel() {
    // A dark centre pixel in a bright 3x3 image: only it is at or below
    // its window mean minus the constant.
    let px = [200u8, 200, 200, 200, 10, 200, 200, 200, 200];
    let lbl = adaptive_threshold_labels(&px, 3, 3, 3, 7);
    for y in 0..5 {
        for x in 0..5 {
            assert_eq!(lbl[y * 5 + x], if x == 2 && y == 2 { 1 } else { 0 }, "at {x},{y}");
        }
    }
}

#[test]
fn image_array_shapes() {
    assert_eq!(frame_layout(&[480, 640]), Ok((480, 640, 1)));
    assert_eq!(frame_layout(&[480, 640, 3]), Ok((480, 640, 3)));
    assert_eq!(frame_layout(&[480, 640, 1]), Ok((480, 640, 1)));
    assert_eq!(frame_layout(&[480, 640, 4]), Err(FrameError::Channels));
    assert_eq!(frame_layout(&[480]), Err(FrameError::Dimensions));
    assert_eq!(frame_layout(&[1, 2, 3, 4]), Err(FrameError::Dimensions));
}

#[test]
fn padded_labels_become_a_mask() {
    // 2 x 1 image in a 4 x 3 padded buffer; the ring is ignored.
    let labels: [i8; 12] = [1, 1, 1, 1, 1, -3, 0, 1, 1, 1, 1, 1];
    assert_eq!(labels_to_mask(&labels, 2, 1), vec![255, 0]);
    assert_eq!(labels_to_mask(&[0i8; 4], 0, 0), Vec::<u8>::new());
}
