use rapidtag::detector::{border_errors, group_candidates, n_scales, rotate_corners};

#[test]
fn threshold_scale_count() {
    assert_eq!(n_scales(3, 23, 10), 3);
    assert_eq!(n_scales(3, 3, 10), 1);
    assert_eq!(n_scales(3, 24, 10), 3);
    assert_eq!(n_scales(23, 3, 10), -1);
    assert_eq!(n_scales(3, 23, -10), -1);
}

#[test]
fn near_duplicates_are_grouped() {
    let n = 4;
    let mut close = vec![vec![false; n]; n];
    close[0][2] = true;
    close[2][3] = true;
    let groups = group_candidates(&close);
    assert_eq!(groups, vec![vec![0, 2, 3], vec![1]]);
    assert_eq!(group_candidates(&[]), Vec::<Vec<usize>>::new());
}

#[test]
fn grouped_candidates_keep_separate_groups() {
    // 0~2 and 1~3 open two groups; 2~3 then joins nothing (both grouped).
    let n = 4;
    let mut close = vec![vec![false; n]; n];
    close[0][2] = true;
    close[1][3] = true;
    close[2][3] = true;
    assert_eq!(group_candidates(&close), vec![vec![0, 2], vec![1, 3]]);
    // 1~2 and then 0~2: 0 joins the group of 2.
    let mut close = vec![vec![false; 3]; 3];
    close[0][2] = true;
    close[1][2] = true;
    assert_eq!(group_candidates(&close), vec![vec![0, 2, 1]]);
}

#[test]
fn border_cell_counts() {
    // 1 x 1 marker with a one-cell border: 8 border cells.
    let above = [true; 9];
    let below = [false, true, false, true, true, true, false, true, false];
    assert_eq!(border_errors(&above, &below, 1, 1), (8, 4));
    let mut inner_only = [false; 16];
    inner_only[5] = true;
    inner_only[6] = true;
    inner_only[9] = true;
    inner_only[10] = true;
    assert_eq!(border_errors(&inner_only, &inner_only, 2, 1), (0, 0));
    assert_eq!(border_errors(&[true; 16], &[false; 16], 0, 2), (16, 0));
}

#[test]
fn corner_rotation() {
    let c = ['a', 'b', 'c', 'd'];
    assert_eq!(rotate_corners(c, 0), c);
    assert_eq!(rotate_corners(c, 1), ['d', 'a', 'b', 'c']);
    assert_eq!(rotate_corners(c, 3), ['b', 'c', 'd', 'a']);
    for r in 0..4usize {
        assert_eq!(rotate_corners(rotate_corners(c, r), (4 - r) % 4), c);
    }
}
