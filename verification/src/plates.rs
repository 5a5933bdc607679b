use crate::grid::TileGrid;
use vstd::prelude::*;

verus! {

broadcast use TileGrid::lemma_solid_in_bounds;

/// A plate: a horizontal span of solid tiles within a single row, one tile
/// tall, given by its inclusive left and right x-coordinates. Two plates
/// are the same shape exactly when their `(left, right)` pairs are equal.
#[derive(Clone, Copy, Debug, PartialEq, Eq, Structural)]
pub struct Plate {
    pub left: i32,
    pub right: i32,
}

/// The plate's span contains column `x`.
pub open spec fn plate_covers(p: Plate, x: int) -> bool {
    p.left <= x <= p.right
}

/// `[left, right]` is a maximal horizontal run of solid tiles in row `y`:
/// every tile of the span is solid and the tiles just beyond both ends are
/// not (an end beyond the grid edge counts as empty).
pub open spec fn is_run(g: TileGrid, left: int, right: int, y: int) -> bool {
    &&& left <= right
    &&& forall|x: int| left <= x <= right ==> g.solid_at(x, y)
    &&& !g.solid_at(left - 1, y)
    &&& !g.solid_at(right + 1, y)
}

/// Two maximal runs of one row that share a tile are the same run.
pub proof fn lemma_run_unique(g: TileGrid, l1: int, r1: int, l2: int, r2: int, x: int, y: int)
    requires
        is_run(g, l1, r1, y),
        is_run(g, l2, r2, y),
        l1 <= x <= r1,
        l2 <= x <= r2,
    ensures
        l1 == l2,
        r1 == r2,
{
    if l1 < l2 {
        assert(g.solid_at(l2 - 1, y));
    }
    if l2 < l1 {
        assert(g.solid_at(l1 - 1, y));
    }
    if r1 < r2 {
        assert(g.solid_at(r1 + 1, y));
    }
    if r2 < r1 {
        assert(g.solid_at(r2 + 1, y));
    }
}

/// The plates of row `y`, in ascending order: exactly the maximal runs of
/// solid tiles in that row. A row above the grid (or any row without solid
/// tiles) yields an empty list.
///
/// The scan probes one column past the right edge, so a run touching the
/// edge is still closed before the row ends.
pub fn row_plates(g: &TileGrid, y: i32) -> (plates: Vec<Plate>)
    requires
        g.wf(),
        0 <= y,
    ensures
        forall|k: int|
            0 <= k < plates@.len() ==> is_run(
                *g,
                plates@[k].left as int,
                plates@[k].right as int,
                y as int,
            ),
        forall|x: int|
            g.solid_at(x, y as int) ==> exists|k: int|
                0 <= k < plates@.len() && #[trigger] plate_covers(plates@[k], x),
        forall|k1: int, k2: int|
            0 <= k1 < k2 < plates@.len() ==> plates@[k1].right < plates@[k2].left,
{
    let width = g.width();
    let mut plates: Vec<Plate> = Vec::new();
    let mut start: Option<i32> = None;
    let mut x: i32 = 0;
    while x <= width
        invariant
            g.wf(),
            0 <= y,
            width == g.spec_width(),
            0 <= x <= width + 1,
            width < i32::MAX,
            start matches Some(s) ==> 0 <= s < x && !g.solid_at(s - 1, y as int) && (forall|
                u: int,
            |
                s <= u < x ==> g.solid_at(u, y as int)),
            start is None ==> !g.solid_at(x - 1, y as int),
            forall|k: int|
                0 <= k < plates@.len() ==> is_run(
                    *g,
                    plates@[k].left as int,
                    plates@[k].right as int,
                    y as int,
                ),
            forall|k: int| 0 <= k < plates@.len() ==> plates@[k].right < x - 1,
            start matches Some(s) ==> (forall|k: int|
                0 <= k < plates@.len() ==> plates@[k].right < s),
            forall|k1: int, k2: int|
                0 <= k1 < k2 < plates@.len() ==> plates@[k1].right < plates@[k2].left,
            forall|u: int|
                0 <= u < x && g.solid_at(u, y as int) && (start matches Some(s) ==> u < s)
                    ==> exists|k: int|
                    0 <= k < plates@.len() && #[trigger] plate_covers(plates@[k], u),
        decreases width + 1 - x,
    {
        let cell = g.is_solid(x, y);
        match start {
            Some(s) => {
                if !cell {
                    let ghost earlier = plates@;
                    plates.push(Plate { left: s, right: x - 1 });
                    start = None;
                    proof {
                        assert forall|u: int|
                            0 <= u < x + 1 && g.solid_at(u, y as int) implies exists|k: int|
                            0 <= k < plates@.len() && #[trigger] plate_covers(
                                plates@[k],
                                u,
                            ) by {
                            if u == x {
                                assert(false);
                            } else if u < s {
                                let k0 = choose|k: int|
                                    0 <= k < earlier.len() && #[trigger] plate_covers(
                                        earlier[k],
                                        u,
                                    );
                                assert(plate_covers(plates@[k0], u));
                            } else {
                                assert(plate_covers(plates@[plates@.len() - 1], u));
                            }
                        }
                    }
                }
            },
            None => {
                if cell {
                    start = Some(x);
                }
            },
        }
        x = x + 1;
    }
    proof {
        if start is Some {
            assert(g.solid_at(width as int, y as int));
            assert(false);
        }
    }
    plates
}

} // verus!
