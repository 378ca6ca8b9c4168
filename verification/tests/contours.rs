use rapidtag::contours::{dir_index, for_each_contour};

fn assert_chain(c: &[(i32, i32)], px: &[u8], w: i32) {
    assert!(!c.is_empty());
    for w2 in c.windows(2) {
        let (dx, dy) = (w2[1].0 - w2[0].0, w2[1].1 - w2[0].1);
        assert!(dx.abs() <= 1 && dy.abs() <= 1 && (dx, dy) != (0, 0));
    }
    for &(x, y) in c {
        assert!(px[(y * w + x) as usize] > 0);
    }
    if c.len() >= 2 {
        let (first, last) = (c[0], c[c.len() - 1]);
        let (dx, dy) = (first.0 - last.0, first.1 - last.1);
        assert!(dx.abs() <= 1 && dy.abs() <= 1 && (dx, dy) != (0, 0));
    }
}

#[test]
fn direction_indices() {
    let dirs = [(-1, 0), (-1, -1), (0, -1), (1, -1), (1, 0), (1, 1), (0, 1), (-1, 1)];
    for (k, d) in dirs.iter().enumerate() {
        assert_eq!(dir_index(*d), k);
    }
}

#[test]
fn isolated_pixel_is_its_own_border() {
    assert_eq!(for_each_contour(&[0, 255, 0], 3, 1), vec![vec![(1, 0)]]);
    assert!(for_each_contour(&[0, 0, 0, 0], 2, 2).is_empty());
    assert!(for_each_contour(&[], 0, 0).is_empty());
}

#[test]
fn left_edge_pixels_start_no_outer_border() {
    // An outer border starts only where background lies left of the pixel
    // inside the image.
    assert!(for_each_contour(&[255], 1, 1).is_empty());
    assert!(for_each_contour(&[1u8; 9], 3, 3).is_empty());
}

#[test]
fn square_border_is_traced_once() {
    let mut px = vec![0u8; 25];
    for y in 1..4 {
        for x in 1..4 {
            px[y * 5 + x] = 1;
        }
    }
    let contours = for_each_contour(&px, 5, 5);
    assert_eq!(
        contours,
        vec![vec![(1, 1), (1, 2), (1, 3), (2, 3), (3, 3), (3, 2), (3, 1), (2, 1)]]
    );
    assert_chain(&contours[0], &px, 5);
}

#[test]
fn ring_borders_are_neighbour_chains() {
    let px = [1u8, 1, 1, 1, 0, 1, 1, 1, 1];
    let contours = for_each_contour(&px, 3, 3);
    assert_eq!(contours[0], vec![(0, 1), (1, 0), (2, 1), (1, 2)]);
    for c in &contours {
        assert_chain(c, &px, 3);
    }
}

#[test]
fn two_pixel_segment_closes_on_itself() {
    let px = [0u8, 1, 1, 0];
    let contours = for_each_contour(&px, 4, 1);
    assert_eq!(contours, vec![vec![(1, 0), (2, 0)]]);
    assert_chain(&contours[0], &px, 4);
}

#[test]
fn every_lone_pixel_is_reported() {
    let w = 5;
    let mut px = vec![0u8; 15];
    for &(x, y) in &[(0usize, 0usize), (2, 0), (4, 2)] {
        px[y * w + x] = 200;
    }
    assert_eq!(
        for_each_contour(&px, w, 3),
        vec![vec![(0, 0)], vec![(2, 0)], vec![(4, 2)]]
    );
}

#[test]
fn each_component_starts_a_border_at_its_first_pixel() {
    let w = 6;
    let mut px = vec![0u8; 18];
    for &(x, y) in &[(1usize, 0usize), (2, 0), (1, 1), (4, 1), (4, 2), (5, 2)] {
        px[y * w + x] = 9;
    }
    let contours = for_each_contour(&px, w, 3);
    assert!(contours.iter().any(|c| c[0] == (1, 0)));
    assert!(contours.iter().any(|c| c[0] == (4, 1)));
    for c in &contours {
        assert_chain(c, &px, w as i32);
    }
}

#[test]
fn ring_has_outer_and_hole_border() {
    let w = 5;
    let mut px = vec![0u8; 25];
    for y in 1..4 {
        for x in 1..4 {
            if (x, y) != (2, 2) {
                px[y * w + x] = 1;
            }
        }
    }
    let contours = for_each_contour(&px, w, 5);
    assert_eq!(contours.len(), 2);
    assert_eq!(contours[0][0], (1, 1));
    assert_eq!(contours[1][0], (1, 2));
    for c in &contours {
        assert_chain(c, &px, w as i32);
    }
}
