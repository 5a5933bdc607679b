use tile_colliders::grid::TileGrid;
use tile_colliders::rects::{build_wall_rects, Rect};

fn grid_from(width: i32, height: i32, solid: &[(i32, i32)]) -> TileGrid {
    let mut g = TileGrid::new(width, height);
    for &(x, y) in solid {
        g.set_solid(x, y);
    }
    g
}

fn rect(left: i32, right: i32, bottom: i32, top: i32) -> Rect {
    Rect { left, right, bottom, top }
}

#[test]
fn scenario_row_all_solid() {
    let g = grid_from(3, 1, &[(0, 0), (1, 0), (2, 0)]);
    let rects = build_wall_rects(&g);
    assert_eq!(rects, vec![rect(0, 2, 0, 0)]);
}

#[test]
fn scenario_square_all_solid() {
    let g = grid_from(2, 2, &[(0, 0), (1, 0), (0, 1), (1, 1)]);
    let rects = build_wall_rects(&g);
    assert_eq!(rects, vec![rect(0, 1, 0, 1)]);
}

#[test]
fn scenario_checkerboard() {
    let g = grid_from(2, 2, &[(0, 0), (1, 1)]);
    let rects = build_wall_rects(&g);
    assert_eq!(rects.len(), 2);
    assert!(rects.contains(&rect(0, 0, 0, 0)));
    assert!(rects.contains(&rect(1, 1, 1, 1)));
}

#[test]
fn scenario_l_shape() {
    // Row 0 solid at x in {0, 1, 2}, row 1 solid at x = 0 only. Row 0's
    // single plate is [0, 2]; row 1's plate [0, 0] has a different shape,
    // so the merge keeps them apart: the wide plate stays one row tall and
    // the lone tile starts its own rectangle.
    let g = grid_from(3, 2, &[(0, 0), (1, 0), (2, 0), (0, 1)]);
    let rects = build_wall_rects(&g);
    assert_eq!(rects.len(), 2);
    assert!(rects.contains(&rect(0, 2, 0, 0)));
    assert!(rects.contains(&rect(0, 0, 1, 1)));
}

#[test]
fn scenario_empty_grid() {
    let g = TileGrid::new(4, 3);
    let rects = build_wall_rects(&g);
    assert!(rects.is_empty());
}

#[test]
fn edge_runs_close() {
    // A run touching the right edge (x = width - 1) and one touching the
    // top edge (y = height - 1) must both be closed by the sentinel
    // column and row.
    let g = grid_from(3, 2, &[(1, 0), (2, 0), (0, 1), (1, 1), (2, 1)]);
    let rects = build_wall_rects(&g);
    assert_eq!(rects.len(), 2);
    assert!(rects.contains(&rect(1, 2, 0, 0)));
    assert!(rects.contains(&rect(0, 2, 1, 1)));
}

#[test]
fn edge_single_tile_in_far_corner() {
    let g = grid_from(4, 4, &[(3, 3)]);
    let rects = build_wall_rects(&g);
    assert_eq!(rects, vec![rect(3, 3, 3, 3)]);
}

#[test]
fn full_column_merges_vertically() {
    let g = grid_from(3, 3, &[(1, 0), (1, 1), (1, 2)]);
    let rects = build_wall_rects(&g);
    assert_eq!(rects, vec![rect(1, 1, 0, 2)]);
}

#[test]
fn generator_idempotent_on_unchanged_grid() {
    let g = grid_from(5, 4, &[(0, 0), (1, 0), (3, 0), (4, 0), (0, 1), (1, 1), (3, 1), (2, 3)]);
    let first = build_wall_rects(&g);
    let second = build_wall_rects(&g);
    assert_eq!(first, second);
}

#[test]
fn separate_stacks_for_different_widths() {
    // Two rows solid over [0, 1], a third row solid over [0, 2]: the
    // two-wide stack ends where the shape widens.
    let g = grid_from(3, 3, &[(0, 0), (1, 0), (0, 1), (1, 1), (0, 2), (1, 2), (2, 2)]);
    let rects = build_wall_rects(&g);
    assert_eq!(rects.len(), 2);
    assert!(rects.contains(&rect(0, 1, 0, 1)));
    assert!(rects.contains(&rect(0, 2, 2, 2)));
}
