use interference_generator::cell::Cell;
use interference_generator::error::AppError;
use interference_generator::field::Field;

#[test]
fn stitching_orders_a_section() {
    let mut f = Field::new();
    f.handle_start_cell_selection(Some(Cell::new(2, 2)));
    f.handle_end_cell_selection(Some(Cell::new(3, 3)));
    let input = "noise\n--- Path 1 ---\n(2,2) -> (3,2)\n(3,2) -> (3,3)\nnoise";
    assert!(f.parse_all_paths(input).is_ok());
    let paths = f.paths.as_ref().unwrap();
    assert_eq!(paths.len(), 1);
    assert_eq!(
        paths[0].cells(),
        &vec![Cell::new(2, 2), Cell::new(3, 2), Cell::new(3, 3)]
    );
    assert_eq!(paths[0].id, 0);
}

#[test]
fn stitching_fails_without_edge_to_end() {
    let mut f = Field::new();
    f.handle_start_cell_selection(Some(Cell::new(2, 2)));
    f.handle_end_cell_selection(Some(Cell::new(4, 4)));
    let input = "noise\n--- Path 1 ---\n(2,2) -> (3,2)\n(3,2) -> (3,3)\nnoise";
    let r = f.parse_all_paths(input);
    assert!(matches!(r, Err(AppError::InvalidPath)));
    // No partial result is retained.
    assert!(f.paths.is_none());
}

#[test]
fn stitching_rejects_cycles_without_hanging() {
    let mut f = Field::new();
    f.handle_start_cell_selection(Some(Cell::new(2, 2)));
    f.handle_end_cell_selection(Some(Cell::new(5, 5)));
    let links = vec![
        (Cell::new(2, 2), Cell::new(3, 2)),
        (Cell::new(3, 2), Cell::new(2, 2)),
    ];
    let r = f.path_from_links(&links, 0);
    assert!(matches!(r, Err(AppError::InvalidPath)));
}

#[test]
fn stitching_two_sections_in_order() {
    let mut f = Field::new();
    f.handle_start_cell_selection(Some(Cell::new(2, 2)));
    f.handle_end_cell_selection(Some(Cell::new(3, 3)));
    let input = "--- Path 1 ---\n(2,2) -> (2,3)\n(2,3) -> (3,3)\n--- Path 2 ---\n(2,2) -> (3,2)\n(3,2) -> (3,3)\n";
    assert!(f.parse_all_paths(input).is_ok());
    let paths = f.paths.as_ref().unwrap();
    assert_eq!(paths.len(), 2);
    assert_eq!(paths[0].id, 0);
    assert_eq!(paths[1].id, 1);
    assert_eq!(
        paths[0].cells(),
        &vec![Cell::new(2, 2), Cell::new(2, 3), Cell::new(3, 3)]
    );
    assert_eq!(
        paths[1].cells(),
        &vec![Cell::new(2, 2), Cell::new(3, 2), Cell::new(3, 3)]
    );
}

#[test]
fn stitching_requires_start_marker() {
    let mut f = Field::new();
    f.handle_end_cell_selection(Some(Cell::new(3, 3)));
    let r = f.path_from_links(&vec![(Cell::new(2, 2), Cell::new(3, 3))], 0);
    assert!(matches!(r, Err(AppError::StartNotSet)));
}

#[test]
fn stitching_requires_end_marker() {
    let mut f = Field::new();
    f.handle_start_cell_selection(Some(Cell::new(2, 2)));
    let r = f.path_from_links(&vec![(Cell::new(2, 2), Cell::new(3, 3))], 0);
    assert!(matches!(r, Err(AppError::EndNotSet)));
}

#[test]
fn stitching_rejects_walks_leaving_the_grid() {
    let mut f = Field::new();
    f.handle_start_cell_selection(Some(Cell::new(40, 20)));
    f.handle_end_cell_selection(Some(Cell::new(40, 19)));
    // The edge list routes through a cell outside the 40 x 20 grid.
    let links = vec![
        (Cell::new(40, 20), Cell::new(41, 20)),
        (Cell::new(41, 20), Cell::new(40, 19)),
    ];
    let r = f.path_from_links(&links, 0);
    assert!(matches!(r, Err(AppError::InvalidPath)));
}

#[test]
fn stitching_rejects_non_adjacent_hops() {
    let mut f = Field::new();
    f.handle_start_cell_selection(Some(Cell::new(2, 2)));
    f.handle_end_cell_selection(Some(Cell::new(9, 2)));
    let links = vec![(Cell::new(2, 2), Cell::new(9, 2))];
    let r = f.path_from_links(&links, 0);
    assert!(matches!(r, Err(AppError::InvalidPath)));
}

#[test]
fn later_duplicate_edges_override_earlier_ones() {
    let mut f = Field::new();
    f.handle_start_cell_selection(Some(Cell::new(2, 2)));
    f.handle_end_cell_selection(Some(Cell::new(3, 3)));
    let links = vec![
        (Cell::new(2, 2), Cell::new(2, 3)),
        (Cell::new(2, 3), Cell::new(3, 3)),
        (Cell::new(2, 2), Cell::new(3, 2)),
        (Cell::new(3, 2), Cell::new(3, 3)),
    ];
    let p = f.path_from_links(&links, 4).unwrap();
    assert_eq!(p.cells(), &vec![Cell::new(2, 2), Cell::new(3, 2), Cell::new(3, 3)]);
    assert_eq!(p.id, 4);
}

#[test]
fn response_without_sections_clears_to_empty() {
    let mut f = Field::new();
    assert!(f.parse_all_paths("nothing to see\n").is_ok());
    assert_eq!(f.paths.as_ref().unwrap().len(), 0);
}

#[test]
fn failed_scan_keeps_previous_paths() {
    let mut f = Field::new();
    f.handle_start_cell_selection(Some(Cell::new(2, 2)));
    f.handle_end_cell_selection(Some(Cell::new(3, 3)));
    assert!(f.parse_all_paths("--- Path 1 ---\n(2,2) -> (3,3)\n").is_ok());
    assert_eq!(f.paths.as_ref().unwrap().len(), 1);
    // A later broken response leaves the stored paths untouched.
    assert!(f.parse_all_paths("--- Path not a number ---\n").is_err());
    assert_eq!(f.paths.as_ref().unwrap().len(), 1);
    f.clear_paths();
    assert!(f.paths.is_none());
}
