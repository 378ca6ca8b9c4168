use rapidtag::board::{board_layout, BoardError};

#[test]
fn markers_sit_on_white_squares() {
    let layout = board_layout(3, 3, false, vec![]).ok().unwrap();
    assert_eq!(layout.marker_cells, vec![(1, 0), (0, 1), (2, 1), (1, 2)]);
    assert_eq!(layout.ids, vec![0, 1, 2, 3]);
    assert_eq!(layout.corner_cells, vec![(1, 1), (2, 1), (1, 2), (2, 2)]);
}

#[test]
fn legacy_pattern_flips_even_row_boards() {
    let modern = board_layout(3, 2, false, vec![]).ok().unwrap();
    assert_eq!(modern.marker_cells, vec![(1, 0), (0, 1), (2, 1)]);
    let legacy = board_layout(3, 2, true, vec![]).ok().unwrap();
    assert_eq!(legacy.marker_cells, vec![(0, 0), (2, 0), (1, 1)]);
    let odd = board_layout(3, 3, true, vec![]).ok().unwrap();
    assert_eq!(odd.marker_cells, vec![(1, 0), (0, 1), (2, 1), (1, 2)]);
}

#[test]
fn explicit_ids_must_match_marker_count() {
    let layout = board_layout(3, 3, false, vec![10, 11, 12, 13]).ok().unwrap();
    assert_eq!(layout.ids, vec![10, 11, 12, 13]);
    assert!(matches!(board_layout(3, 3, false, vec![1, 2]), Err(BoardError::IdCount(4))));
}

#[test]
fn degenerate_boards() {
    let empty = board_layout(0, 0, false, vec![]).ok().unwrap();
    assert!(empty.marker_cells.is_empty() && empty.corner_cells.is_empty());
    let row = board_layout(5, 1, false, vec![]).ok().unwrap();
    assert_eq!(row.marker_cells, vec![(1, 0), (3, 0)]);
    assert!(row.corner_cells.is_empty());
}
