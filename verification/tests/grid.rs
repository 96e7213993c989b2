use boids::grid::{clamp_cell, neighbor_cells};

#[test]
fn clamp_cell_row_major_and_clamped() {
    assert_eq!(clamp_cell(0, 0, 4, 3), 0);
    assert_eq!(clamp_cell(2, 1, 4, 3), 6);
    assert_eq!(clamp_cell(10, 1, 4, 3), 7);
    assert_eq!(clamp_cell(1, 10, 4, 3), 9);
    assert_eq!(clamp_cell(usize::MAX, usize::MAX, 4, 3), 11);
    assert_eq!(clamp_cell(5, 5, 1, 1), 0);
}

#[test]
fn neighbor_cells_interior_block() {
    assert_eq!(neighbor_cells(1, 1, 3, 3), vec![0, 1, 2, 3, 4, 5, 6, 7, 8]);
    assert_eq!(neighbor_cells(2, 1, 4, 3), vec![1, 2, 3, 5, 6, 7, 9, 10, 11]);
}

#[test]
fn neighbor_cells_at_edges() {
    assert_eq!(neighbor_cells(0, 0, 3, 3), vec![0, 1, 3, 4]);
    assert_eq!(neighbor_cells(2, 2, 3, 3), vec![4, 5, 7, 8]);
    assert_eq!(neighbor_cells(0, 0, 1, 1), vec![0]);
}

#[test]
fn neighbor_cells_outside_the_grid() {
    assert_eq!(neighbor_cells(-1, -1, 3, 3), vec![0]);
    assert_eq!(neighbor_cells(3, 1, 3, 3), vec![2, 5, 8]);
    assert!(neighbor_cells(-2, 0, 3, 3).is_empty());
    assert!(neighbor_cells(isize::MAX - 1, isize::MIN + 1, 3, 3).is_empty());
}

#[test]
fn neighbor_cells_own_cell_and_bounds() {
    for cy in 0..4isize {
        for cx in 0..5isize {
            let cells = neighbor_cells(cx, cy, 5, 4);
            assert!(cells.len() <= 9);
            assert!(cells.contains(&((cy * 5 + cx) as usize)));
            assert!(cells.iter().all(|c| *c < 20));
        }
    }
}
