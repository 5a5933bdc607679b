use crate::rects::Rect;
use vstd::prelude::*;

verus! {

/// A collider descriptor for one wall rectangle, in the region's local
/// world space.
///
/// World values are grid measurements multiplied by the tile size and
/// halved; to keep the fields exact integers they are stored scaled by
/// two. `extent_x` is twice the half-extent along x (the full width in
/// world units) and `center_x2` is twice the center's x-coordinate, and
/// likewise along y.
#[derive(Clone, Copy, Debug, PartialEq, Eq, Structural)]
pub struct Collider {
    pub extent_x: i32,
    pub extent_y: i32,
    pub center_x2: i32,
    pub center_y2: i32,
}

impl Collider {
    /// The descriptor is the one derived from rectangle `r` with the given
    /// tile size: full extents `(right - left + 1) * tile` by
    /// `(top - bottom + 1) * tile`, doubled center at
    /// `((left + right + 1) * tile, (bottom + top + 1) * tile)`.
    pub open spec fn describes(self, r: Rect, tile: int) -> bool {
        &&& self.extent_x == (r.right - r.left + 1) * tile
        &&& self.extent_y == (r.top - r.bottom + 1) * tile
        &&& self.center_x2 == (r.left + r.right + 1) * tile
        &&& self.center_y2 == (r.bottom + r.top + 1) * tile
    }
}

/// A rectangle whose collider arithmetic stays within `i32` for the given
/// tile size: it lies in the positive quadrant and the doubled far-corner
/// coordinates, scaled by the tile size, fit.
pub open spec fn rect_emittable(r: Rect, tile: int) -> bool {
    &&& r.wf()
    &&& 0 <= r.left
    &&& 0 <= r.bottom
    &&& (r.right + r.right + 1) * tile <= i32::MAX
    &&& (r.top + r.top + 1) * tile <= i32::MAX
}

/// The collider descriptor of one wall rectangle.
pub fn collider_of(r: &Rect, tile_size: i32) -> (c: Collider)
    requires
        1 <= tile_size,
        rect_emittable(*r, tile_size as int),
    ensures
        c.describes(*r, tile_size as int),
{
    proof {
        lemma_collider_products_fit(*r, tile_size as int);
    }
    Collider {
        extent_x: (r.right - r.left + 1) * tile_size,
        extent_y: (r.top - r.bottom + 1) * tile_size,
        center_x2: (r.left + r.right + 1) * tile_size,
        center_y2: (r.bottom + r.top + 1) * tile_size,
    }
}

/// The four products of an emittable rectangle stay within `i32`.
proof fn lemma_collider_products_fit(r: Rect, tile: int)
    requires
        1 <= tile,
        rect_emittable(r, tile),
    ensures
        0 <= (r.right - r.left + 1) * tile <= (r.right + r.right + 1) * tile,
        0 <= (r.top - r.bottom + 1) * tile <= (r.top + r.top + 1) * tile,
        0 <= (r.left + r.right + 1) * tile <= (r.right + r.right + 1) * tile,
        0 <= (r.bottom + r.top + 1) * tile <= (r.top + r.top + 1) * tile,
        r.right + r.right + 1 <= i32::MAX,
        r.top + r.top + 1 <= i32::MAX,
{
    assert(r.right + r.right + 1 <= (r.right + r.right + 1) * tile) by (nonlinear_arith)
        requires
            1 <= tile,
            0 <= r.right,
    ;
    assert(r.top + r.top + 1 <= (r.top + r.top + 1) * tile) by (nonlinear_arith)
        requires
            1 <= tile,
            0 <= r.top,
    ;
    assert(0 <= (r.right - r.left + 1) * tile <= (r.right + r.right + 1) * tile)
        by (nonlinear_arith)
        requires
            1 <= tile,
            0 <= r.left <= r.right,
    ;
    assert(0 <= (r.top - r.bottom + 1) * tile <= (r.top + r.top + 1) * tile) by (nonlinear_arith)
        requires
            1 <= tile,
            0 <= r.bottom <= r.top,
    ;
    assert(0 <= (r.left + r.right + 1) * tile <= (r.right + r.right + 1) * tile)
        by (nonlinear_arith)
        requires
            1 <= tile,
            0 <= r.left <= r.right,
    ;
    assert(0 <= (r.bottom + r.top + 1) * tile <= (r.top + r.top + 1) * tile) by (nonlinear_arith)
        requires
            1 <= tile,
            0 <= r.bottom <= r.top,
    ;
}

/// One collider descriptor per rectangle, in the rectangles' order.
pub fn emit_colliders(rects: &Vec<Rect>, tile_size: i32) -> (out: Vec<Collider>)
    requires
        1 <= tile_size,
        forall|k: int|
            0 <= k < rects@.len() ==> rect_emittable(#[trigger] rects@[k], tile_size as int),
    ensures
        out@.len() == rects@.len(),
        forall|k: int|
            0 <= k < rects@.len() ==> (#[trigger] out@[k]).describes(rects@[k], tile_size as int),
{
    let mut out: Vec<Collider> = Vec::new();
    let mut i: usize = 0;
    while i < rects.len()
        invariant
            1 <= tile_size,
            i <= rects@.len(),
            out@.len() == i,
            forall|k: int|
                0 <= k < rects@.len() ==> rect_emittable(#[trigger] rects@[k], tile_size as int),
            forall|k: int|
                0 <= k < i ==> (#[trigger] out@[k]).describes(rects@[k], tile_size as int),
        decreases rects@.len() - i,
    {
        let c = collider_of(&rects[i], tile_size);
        out.push(c);
        i = i + 1;
    }
    out
}

} // verus!
