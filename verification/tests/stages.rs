use tile_colliders::colliders::{collider_of, emit_colliders, Collider};
use tile_colliders::grid::TileGrid;
use tile_colliders::plates::{row_plates, Plate};
use tile_colliders::rects::Rect;

fn rect(left: i32, right: i32, bottom: i32, top: i32) -> Rect {
    Rect { left, right, bottom, top }
}

#[test]
fn grid_starts_empty() {
    let g = TileGrid::new(3, 2);
    assert_eq!(g.width(), 3);
    assert_eq!(g.height(), 2);
    for y in 0..2 {
        for x in 0..3 {
            assert!(!g.is_solid(x, y));
        }
    }
}

#[test]
fn grid_set_and_probe() {
    let mut g = TileGrid::new(3, 2);
    g.set_solid(2, 1);
    assert!(g.is_solid(2, 1));
    assert!(!g.is_solid(1, 1));
    assert!(!g.is_solid(2, 0));
    // coordinates outside the grid always read as empty
    assert!(!g.is_solid(-1, 0));
    assert!(!g.is_solid(3, 0));
    assert!(!g.is_solid(0, 2));
}

#[test]
fn plates_split_on_gaps() {
    let mut g = TileGrid::new(5, 1);
    g.set_solid(0, 0);
    g.set_solid(1, 0);
    g.set_solid(3, 0);
    let plates = row_plates(&g, 0);
    assert_eq!(plates, vec![Plate { left: 0, right: 1 }, Plate { left: 3, right: 3 }]);
}

#[test]
fn plates_close_at_right_edge() {
    let mut g = TileGrid::new(4, 1);
    g.set_solid(2, 0);
    g.set_solid(3, 0);
    let plates = row_plates(&g, 0);
    assert_eq!(plates, vec![Plate { left: 2, right: 3 }]);
}

#[test]
fn plates_of_empty_row() {
    let g = TileGrid::new(4, 2);
    assert!(row_plates(&g, 1).is_empty());
}

#[test]
fn collider_of_wide_rectangle() {
    // a 3x1 rectangle with 16-pixel tiles: 48x16 world units, centered at
    // (24, 8), so the doubled center is (48, 16)
    let c = collider_of(&rect(0, 2, 0, 0), 16);
    assert_eq!(
        c,
        Collider { extent_x: 48, extent_y: 16, center_x2: 48, center_y2: 16 },
    );
}

#[test]
fn collider_of_offset_rectangle() {
    let c = collider_of(&rect(1, 2, 3, 5), 8);
    assert_eq!(
        c,
        Collider { extent_x: 16, extent_y: 24, center_x2: 32, center_y2: 72 },
    );
}

#[test]
fn emit_colliders_maps_each_rectangle() {
    let rects = vec![rect(0, 0, 0, 0), rect(2, 4, 1, 2)];
    let out = emit_colliders(&rects, 10);
    assert_eq!(out.len(), 2);
    assert_eq!(
        out[0],
        Collider { extent_x: 10, extent_y: 10, center_x2: 10, center_y2: 10 },
    );
    assert_eq!(
        out[1],
        Collider { extent_x: 30, extent_y: 20, center_x2: 70, center_y2: 40 },
    );
}
