use interference_generator::cell::{Cell, CellType};
use interference_generator::field::Field;

/// Draws the single cell `(x, y)` as a plain obstacle.
fn draw_cell(f: &mut Field, x: usize, y: usize) {
    f.handle_adding_cells(Some(Cell::new(x, y)));
    f.handle_adding_cells(Some(Cell::new(x, y)));
    f.handle_adding_cells(None);
}

/// Erases along the single cell `(x, y)`.
fn erase_cell(f: &mut Field, x: usize, y: usize) {
    f.handle_removing_cells(Some(Cell::new(x, y)));
    f.handle_removing_cells(Some(Cell::new(x, y)));
    f.handle_removing_cells(None);
}

#[test]
fn new_grid_is_empty() {
    let f = Field::new();
    assert_eq!(f.width, 40);
    assert_eq!(f.height, 20);
    assert!(!f.is_cell_occupied(&Cell::new(1, 1)));
    assert!(f.start_cell.is_none());
    assert!(f.end_cell.is_none());
    assert!(f.paths.is_none());
}

#[test]
fn contains_checks_bounds() {
    let f = Field::new();
    assert!(f.contains(&Cell::new(1, 1)));
    assert!(f.contains(&Cell::new(40, 20)));
    assert!(!f.contains(&Cell::new(0, 1)));
    assert!(!f.contains(&Cell::new(41, 1)));
    assert!(!f.contains(&Cell::new(1, 21)));
}

#[test]
fn rasterizer_covers_endpoints_and_box() {
    let f = Field::new();
    let a = Cell::new(1, 1);
    let b = Cell::new(5, 3);
    let cells = f.bresenham_cells(a, b);
    // Chebyshev distance 4: exactly 5 distinct cells.
    assert_eq!(cells.len(), 5);
    assert!(cells.contains(&a));
    assert!(cells.contains(&b));
    for c in &cells {
        assert!(1 <= c.x && c.x <= 5 && 1 <= c.y && c.y <= 3);
    }
}

#[test]
fn rasterizer_single_cell() {
    let f = Field::new();
    let cells = f.bresenham_cells(Cell::new(4, 4), Cell::new(4, 4));
    assert_eq!(cells.len(), 1);
    assert_eq!(cells[0], Cell::new(4, 4));
}

#[test]
fn rasterizer_steep_and_straight_lines() {
    let f = Field::new();
    assert_eq!(f.bresenham_cells(Cell::new(3, 1), Cell::new(3, 9)).len(), 9);
    assert_eq!(f.bresenham_cells(Cell::new(10, 5), Cell::new(2, 5)).len(), 9);
    assert_eq!(f.bresenham_cells(Cell::new(1, 1), Cell::new(6, 6)).len(), 6);
}

#[test]
fn rasterizer_excludes_start_marker() {
    let mut f = Field::new();
    f.handle_start_cell_selection(Some(Cell::new(1, 1)));
    let cells = f.bresenham_cells(Cell::new(1, 1), Cell::new(4, 1));
    assert_eq!(cells.len(), 3);
    assert!(!cells.contains(&Cell::new(1, 1)));
    assert!(cells.contains(&Cell::new(4, 1)));
}

#[test]
fn drawing_fills_green_cells() {
    let mut f = Field::new();
    f.handle_adding_cells(Some(Cell::new(2, 2)));
    f.handle_adding_cells(Some(Cell::new(5, 2)));
    for x in 2..=5 {
        assert!(f.is_green_cell(&Cell::new(x, 2)));
    }
    assert!(!f.is_cell_occupied(&Cell::new(6, 2)));
}

#[test]
fn erasing_frees_green_cells() {
    let mut f = Field::new();
    f.handle_adding_cells(Some(Cell::new(2, 2)));
    f.handle_adding_cells(Some(Cell::new(5, 2)));
    f.handle_adding_cells(None);
    f.handle_removing_cells(Some(Cell::new(2, 2)));
    f.handle_removing_cells(Some(Cell::new(5, 2)));
    for x in 2..=5 {
        assert!(!f.is_cell_occupied(&Cell::new(x, 2)));
    }
}

/// Builds the L-shape around `(2,2)`: green right and down neighbors,
/// free diagonal opposite, then pairs `(2,2)` with `(3,3)`.
fn paired_field() -> Field {
    let mut f = Field::new();
    draw_cell(&mut f, 3, 2);
    draw_cell(&mut f, 2, 3);
    f.handle_add_pink_pair_constraint(Some(Cell::new(2, 2)));
    f
}

#[test]
fn matcher_finds_top_left_pattern() {
    let mut f = Field::new();
    draw_cell(&mut f, 3, 2);
    draw_cell(&mut f, 2, 3);
    let m = f.find_pink_diagonal_match(&Cell::new(2, 2));
    assert_eq!(m, Some((Cell::new(2, 2), Cell::new(3, 3))));
}

#[test]
fn matcher_finds_bottom_right_pattern() {
    let mut f = Field::new();
    draw_cell(&mut f, 4, 5);
    draw_cell(&mut f, 5, 4);
    let m = f.find_pink_diagonal_match(&Cell::new(5, 5));
    assert_eq!(m, Some((Cell::new(5, 5), Cell::new(4, 4))));
}

#[test]
fn matcher_rejects_incomplete_patterns() {
    let mut f = Field::new();
    // Only one green neighbor.
    draw_cell(&mut f, 3, 2);
    assert_eq!(f.find_pink_diagonal_match(&Cell::new(2, 2)), None);
    // Occupied diagonal opposite.
    draw_cell(&mut f, 2, 3);
    draw_cell(&mut f, 3, 3);
    assert_eq!(f.find_pink_diagonal_match(&Cell::new(2, 2)), None);
}

#[test]
fn matcher_rejects_occupied_cell() {
    let mut f = Field::new();
    draw_cell(&mut f, 2, 2);
    draw_cell(&mut f, 3, 2);
    draw_cell(&mut f, 2, 3);
    assert_eq!(f.find_pink_diagonal_match(&Cell::new(2, 2)), None);
}

#[test]
fn matcher_rejects_out_of_bounds_pattern() {
    let mut f = Field::new();
    // At the top-right corner every completing block needs a neighbor
    // outside the grid or a neighbor that is not a plain obstacle.
    draw_cell(&mut f, 40, 2);
    assert_eq!(f.find_pink_diagonal_match(&Cell::new(40, 1)), None);
}

#[test]
fn pairing_marks_both_cells_and_links_them() {
    let f = paired_field();
    assert!(f.is_pink_cell(&Cell::new(2, 2)));
    assert!(f.is_pink_cell(&Cell::new(3, 3)));
    let pairs = f.unique_pink_pairs();
    assert_eq!(pairs, vec![(Cell::new(2, 2), Cell::new(3, 3))]);
}

#[test]
fn pairing_then_unpairing_restores_the_grid() {
    let mut f = paired_field();
    f.handle_remove_pink_pair_constraint(Some(Cell::new(3, 3)));
    assert!(!f.is_cell_occupied(&Cell::new(2, 2)));
    assert!(!f.is_cell_occupied(&Cell::new(3, 3)));
    assert!(f.unique_pink_pairs().is_empty());
    assert_eq!(f.pink_pair_map.len(), 0);
    // The green L-shape is untouched.
    assert!(f.is_green_cell(&Cell::new(3, 2)));
    assert!(f.is_green_cell(&Cell::new(2, 3)));
}

#[test]
fn erasing_never_removes_paired_cells() {
    let mut f = paired_field();
    erase_cell(&mut f, 2, 2);
    erase_cell(&mut f, 3, 3);
    assert!(f.is_pink_cell(&Cell::new(2, 2)));
    assert!(f.is_pink_cell(&Cell::new(3, 3)));
    // Greens on the same strokes do get erased.
    erase_cell(&mut f, 3, 2);
    assert!(!f.is_cell_occupied(&Cell::new(3, 2)));
}

#[test]
fn drawing_never_overwrites_paired_cells() {
    let mut f = paired_field();
    draw_cell(&mut f, 2, 2);
    draw_cell(&mut f, 3, 3);
    assert!(f.is_pink_cell(&Cell::new(2, 2)));
    assert!(f.is_pink_cell(&Cell::new(3, 3)));
}

#[test]
fn unpairing_unlinked_pink_is_a_no_op() {
    let mut f = paired_field();
    // A click on a cell that is not pink changes nothing.
    f.handle_remove_pink_pair_constraint(Some(Cell::new(10, 10)));
    assert!(f.is_pink_cell(&Cell::new(2, 2)));
    assert_eq!(f.unique_pink_pairs().len(), 1);
}

#[test]
fn unique_pairs_are_canonical_and_deduplicated() {
    let mut f = Field::new();
    draw_cell(&mut f, 3, 2);
    draw_cell(&mut f, 2, 3);
    f.handle_add_pink_pair_constraint(Some(Cell::new(2, 2)));
    draw_cell(&mut f, 11, 10);
    draw_cell(&mut f, 10, 11);
    f.handle_add_pink_pair_constraint(Some(Cell::new(10, 10)));
    let pairs = f.unique_pink_pairs();
    // Each physical pair appears once despite symmetric storage, with
    // the lexicographically smaller cell first.
    assert_eq!(pairs.len(), 2);
    assert!(pairs.contains(&(Cell::new(2, 2), Cell::new(3, 3))));
    assert!(pairs.contains(&(Cell::new(10, 10), Cell::new(11, 11))));
    assert_eq!(f.pink_pair_map.len(), 4);
}

#[test]
fn selection_refuses_occupied_cells() {
    let mut f = Field::new();
    draw_cell(&mut f, 5, 5);
    f.handle_start_cell_selection(Some(Cell::new(5, 5)));
    assert!(f.start_cell.is_none());
    f.handle_start_cell_selection(Some(Cell::new(6, 6)));
    assert_eq!(f.start_cell, Some(Cell::new(6, 6)));
    f.handle_end_cell_selection(Some(Cell::new(5, 5)));
    assert!(f.end_cell.is_none());
    f.handle_end_cell_selection(Some(Cell::new(7, 7)));
    assert_eq!(f.end_cell, Some(Cell::new(7, 7)));
}

#[test]
fn ordinary_cells_excludes_pink() {
    let mut f = paired_field();
    let ordinary = f.ordinary_cells();
    assert!(ordinary.contains(&Cell::new(3, 2)));
    assert!(ordinary.contains(&Cell::new(2, 3)));
    assert!(!ordinary.contains(&Cell::new(2, 2)));
    assert!(!ordinary.contains(&Cell::new(3, 3)));
    // Keep the grid live to exercise the borrow across the call.
    f.clear_paths();
}

#[test]
fn cell_type_variants_enumerate_all() {
    let vs = CellType::variants();
    assert_eq!(vs.len(), 4);
    assert_eq!(vs[0], CellType::Green);
    assert_eq!(vs[1], CellType::Pink);
}
