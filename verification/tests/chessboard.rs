use rapidtag::chessboard::{
    bfs_distances, component_orders, erode_labels, global_threshold_labels, validate_order, DisjointSet,
};

fn grid_graph(width: usize, height: usize) -> Vec<Vec<usize>> {
    let mut adjacency = vec![Vec::new(); width * height];
    for y in 0..height {
        for x in 0..width {
            let v = y * width + x;
            if x + 1 < width {
                adjacency[v].push(v + 1);
                adjacency[v + 1].push(v);
            }
            if y + 1 < height {
                adjacency[v].push(v + width);
                adjacency[v + width].push(v);
            }
        }
    }
    adjacency
}

#[test]
fn union_find_merges_classes() {
    let mut sets = DisjointSet::new(6);
    for v in 0..6 {
        assert_eq!(sets.find(v), v);
    }
    sets.union(0, 1);
    sets.union(3, 4);
    assert_eq!(sets.find(0), sets.find(1));
    assert_eq!(sets.find(3), sets.find(4));
    assert_ne!(sets.find(0), sets.find(3));
    assert_eq!(sets.find(2), 2);
    sets.union(1, 4);
    assert_eq!(sets.find(0), sets.find(3));
    assert_eq!(sets.find(5), 5);
    sets.union(4, 0);
    assert_eq!(sets.find(1), sets.find(4));
}

#[test]
fn breadth_first_distances() {
    let path = vec![vec![1], vec![0, 2], vec![1, 3], vec![2]];
    assert_eq!(bfs_distances(&path, 0, &[true; 4]), vec![0, 1, 2, 3]);
    assert_eq!(
        bfs_distances(&path, 0, &[true, true, false, true]),
        vec![0, 1, usize::MAX, usize::MAX]
    );
    assert_eq!(bfs_distances(&path, 3, &[false, true, true, true]), vec![usize::MAX, 2, 1, 0]);
    let grid = grid_graph(3, 3);
    assert_eq!(bfs_distances(&grid, 0, &[true; 9]), vec![0, 1, 2, 1, 2, 3, 2, 3, 4]);
}

#[test]
fn grid_graph_validates_in_row_major_order() {
    let grid = grid_graph(4, 3);
    let all = [true; 12];
    let order = validate_order(&grid, &all, 4, 3, 0, 3).unwrap();
    assert_eq!(order, (0..12).collect::<Vec<_>>());
    let flipped = validate_order(&grid, &all, 4, 3, 3, 0).unwrap();
    assert_eq!(flipped, vec![3, 2, 1, 0, 7, 6, 5, 4, 11, 10, 9, 8]);
    assert_eq!(validate_order(&grid, &all, 3, 4, 0, 3), None);
    assert_eq!(validate_order(&grid, &all, 4, 3, 0, 8), None);
}

#[test]
fn grid_graph_candidate_orders() {
    let grid = grid_graph(4, 3);
    let component: Vec<usize> = (0..12).collect();
    let orders = component_orders(&grid, &component, 4, 3).unwrap();
    assert_eq!(orders.len(), 4);
    assert_eq!(orders[0], component);
    assert!(orders.contains(&vec![11, 10, 9, 8, 7, 6, 5, 4, 3, 2, 1, 0]));
    let transposed = component_orders(&grid, &component, 3, 4).unwrap();
    assert_eq!(transposed[0], vec![0, 4, 8, 1, 5, 9, 2, 6, 10, 3, 7, 11]);
    assert_eq!(component_orders(&grid, &component, 2, 6), None);
    assert_eq!(component_orders(&grid, &component[..11], 4, 3), None);
}

#[test]
fn erosion_keeps_only_fully_surrounded_pixels() {
    let w = 3;
    let h = 3;
    let mut labels = vec![0i8; (w + 2) * (h + 2)];
    for y in 1..=h {
        for x in 1..=w {
            labels[y * (w + 2) + x] = 1;
        }
    }
    let eroded = erode_labels(&labels, w, h);
    for (i, &v) in eroded.iter().enumerate() {
        assert_eq!(v, if i == 2 * (w + 2) + 2 { 1 } else { 0 });
    }
    assert!(erode_labels(&vec![1i8; 16], 2, 2).iter().all(|&v| v == 0));
}

#[test]
fn otsu_labels_dark_pixels() {
    let labels = global_threshold_labels(&[0, 255, 10, 250], 2, 2);
    assert_eq!(labels.len(), 16);
    let mut expected = vec![0i8; 16];
    expected[4 + 1] = 1;
    expected[2 * 4 + 1] = 1;
    assert_eq!(labels, expected);
}
