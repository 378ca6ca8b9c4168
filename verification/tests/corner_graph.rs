use rapidtag::corner_graph::corner_graph;

#[test]
fn shared_vertices_become_joined_corners() {
    // A centre square touching four diagonal squares at its corners.
    let close = [(0, 6), (1, 11), (2, 12), (3, 17)];
    let g = corner_graph(5, &close);
    assert_eq!(g.classes.len(), 20);
    assert_eq!(g.corners, vec![(0, 6), (1, 11), (2, 12), (3, 17)]);
    assert_eq!(g.adjacency, vec![vec![1, 3], vec![0, 2], vec![1, 3], vec![2, 0]]);
    assert_eq!(g.components, vec![vec![0, 1, 3, 2]]);
}

#[test]
fn vertices_of_one_quad_or_three_quads_are_no_corner() {
    // 0 and 1 belong to the same quad; 4, 8 and 12 merge into a class of three.
    let g = corner_graph(4, &[(0, 1), (4, 8), (8, 12)]);
    assert!(g.corners.is_empty());
    assert!(g.components.is_empty());
    assert_eq!(g.classes[4], g.classes[12]);
}

#[test]
fn isolated_corners_form_no_component() {
    let g = corner_graph(2, &[(2, 4)]);
    assert_eq!(g.corners, vec![(2, 4)]);
    assert_eq!(g.adjacency, vec![Vec::<usize>::new()]);
    assert!(g.components.is_empty());
}
