use rapidtag::charuco::{filter_min_markers, find_marker, select_inside, CharucoParameters};

#[test]
fn default_charuco_parameters() {
    let p = CharucoParameters::default();
    assert_eq!(p.min_markers, 2);
    assert!(p.check_markers);
}

#[test]
fn marker_lookup() {
    assert_eq!(find_marker(&[5, 3, 5], 5), Some(0));
    assert_eq!(find_marker(&[5, 3, 5], 3), Some(1));
    assert_eq!(find_marker(&[5, 3, 5], 4), None);
    assert_eq!(find_marker(&[], 0), None);
}

#[test]
fn corners_need_enough_detected_markers() {
    // Board markers 0..3 carry ids 10..13; corner c is nearest to markers c and c+1.
    let nearest = vec![vec![0, 1], vec![1, 2], vec![2, 3]];
    let board_ids = [10, 11, 12, 13];
    let corners = [(1.0f32, 1.0f32), (2.0, 2.0), (3.0, 3.0)];
    let ids = [0, 1, 2];
    let detected = [11, 12];
    let (kept, kept_ids) = filter_min_markers(&nearest, &board_ids, &corners, &ids, &detected, 2);
    assert_eq!(kept_ids, vec![1]);
    assert_eq!(kept, vec![(2.0, 2.0)]);
    let (kept, kept_ids) = filter_min_markers(&nearest, &board_ids, &corners, &ids, &detected, 1);
    assert_eq!(kept_ids, vec![0, 1, 2]);
    assert_eq!(kept.len(), 3);
}

#[test]
fn corners_inside_image_margin() {
    let pts = [(2, 2), (1, 5), (7, 7), (8, 3), (5, 8), (4, 4)];
    assert_eq!(select_inside(&pts, 10, 10), vec![0, 2, 5]);
    assert_eq!(select_inside(&pts, 4, 4), Vec::<usize>::new());
}
