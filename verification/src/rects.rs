use crate::grid::TileGrid;
use crate::plates::{is_run, lemma_run_unique, plate_covers, row_plates, Plate};
use vstd::prelude::*;

verus! {

broadcast use TileGrid::lemma_solid_in_bounds;

/// A rectangle of solid tiles: inclusive bounds in grid coordinates,
/// never empty.
#[derive(Clone, Copy, Debug, PartialEq, Eq, Structural)]
pub struct Rect {
    pub left: i32,
    pub right: i32,
    pub bottom: i32,
    pub top: i32,
}

impl Rect {
    /// The bounds describe at least one tile.
    pub open spec fn wf(self) -> bool {
        self.left <= self.right && self.bottom <= self.top
    }

    /// The rectangle's tile area contains `(x, y)`.
    pub open spec fn covers(self, x: int, y: int) -> bool {
        self.left <= x <= self.right && self.bottom <= y <= self.top
    }
}

/// Every row of the rectangle is a maximal horizontal run of solid tiles
/// with the rectangle's exact left and right bounds.
pub open spec fn rect_rows_are_runs(g: TileGrid, r: Rect) -> bool {
    forall|y: int| r.bottom <= y <= r.top ==> is_run(g, r.left as int, r.right as int, y)
}

/// The rectangle cannot be grown: neither the row just below nor the row
/// just above carries a maximal run of the rectangle's exact shape.
pub open spec fn rect_shape_maximal(g: TileGrid, r: Rect) -> bool {
    &&& !is_run(g, r.left as int, r.right as int, r.bottom - 1)
    &&& !is_run(g, r.left as int, r.right as int, r.top + 1)
}

/// A finished output rectangle: well-formed, a stack of identically shaped
/// maximal runs, and not extendable in either vertical direction.
pub open spec fn rect_finished(g: TileGrid, r: Rect) -> bool {
    r.wf() && rect_rows_are_runs(g, r) && rect_shape_maximal(g, r)
}

/// Some rectangle of the list covers `(x, y)`.
pub open spec fn rects_cover(rs: Seq<Rect>, x: int, y: int) -> bool {
    exists|k: int| 0 <= k < rs.len() && #[trigger] rs[k].covers(x, y)
}

/// What the generator promises of its output on grid `g`:
/// - every rectangle is finished (well-formed, rows are maximal runs,
///   shape-maximal in both vertical directions);
/// - the rectangles cover every solid tile and nothing else, so their
///   union in tile area is exactly the grid's solid set;
/// - no two rectangles overlap in tile area.
pub open spec fn is_wall_decomposition(g: TileGrid, rects: Seq<Rect>) -> bool {
    &&& forall|k: int| 0 <= k < rects.len() ==> rect_finished(g, #[trigger] rects[k])
    &&& forall|x: int, y: int| #[trigger] g.solid_at(x, y) ==> rects_cover(rects, x, y)
    &&& forall|k: int, x: int, y: int|
        0 <= k < rects.len() && #[trigger] rects[k].covers(x, y) ==> g.solid_at(x, y)
    &&& forall|k1: int, k2: int, x: int, y: int|
        0 <= k1 < rects.len() && 0 <= k2 < rects.len() && k1 != k2 && #[trigger] rects[k1].covers(
            x,
            y,
        ) ==> !(#[trigger] rects[k2].covers(x, y))
}

/// Two finished rectangles that share a tile are the same rectangle.
pub proof fn lemma_finished_overlap(g: TileGrid, r1: Rect, r2: Rect, x: int, y: int)
    requires
        rect_finished(g, r1),
        rect_finished(g, r2),
        r1.covers(x, y),
        r2.covers(x, y),
    ensures
        r1 == r2,
{
    assert(is_run(g, r1.left as int, r1.right as int, y));
    assert(is_run(g, r2.left as int, r2.right as int, y));
    lemma_run_unique(g, r1.left as int, r1.right as int, r2.left as int, r2.right as int, x, y);
    if r1.bottom < r2.bottom {
        assert(is_run(g, r1.left as int, r1.right as int, r2.bottom - 1));
        assert(false);
    }
    if r2.bottom < r1.bottom {
        assert(is_run(g, r2.left as int, r2.right as int, r1.bottom - 1));
        assert(false);
    }
    if r1.top < r2.top {
        assert(is_run(g, r2.left as int, r2.right as int, r1.top + 1));
        assert(false);
    }
    if r2.top < r1.top {
        assert(is_run(g, r1.left as int, r1.right as int, r2.top + 1));
        assert(false);
    }
}

/// The rectangle's horizontal extent is exactly `[l, r]`.
spec fn shape_is(rect: Rect, l: int, r: int) -> bool {
    rect.left == l && rect.right == r
}

/// The rectangle's horizontal extent equals the plate's.
spec fn has_plate_shape(rect: Rect, p: Plate) -> bool {
    rect.left == p.left && rect.right == p.right
}

/// A rectangle still being extended at row `y`: its rows so far are runs,
/// it reaches exactly up to row `y - 1`, and it cannot grow downward.
spec fn open_rect_ok(g: TileGrid, r: Rect, y: int) -> bool {
    &&& r.wf()
    &&& r.top == y - 1
    &&& rect_rows_are_runs(g, r)
    &&& !is_run(g, r.left as int, r.right as int, r.bottom - 1)
}

/// A rectangle of the row being processed: like an open rectangle, but its
/// top is the current row `y` itself.
spec fn cur_rect_ok(g: TileGrid, r: Rect, y: int) -> bool {
    &&& r.wf()
    &&& r.top == y
    &&& rect_rows_are_runs(g, r)
    &&& !is_run(g, r.left as int, r.right as int, r.bottom - 1)
}

/// The rectangles' horizontal extents are pairwise disjoint and ascending.
spec fn rects_sorted(rs: Seq<Rect>) -> bool {
    forall|k1: int, k2: int|
        0 <= k1 < k2 < rs.len() ==> #[trigger] rs[k1].right < #[trigger] rs[k2].left
}

/// No two list entries are the same rectangle.
spec fn all_distinct(rs: Seq<Rect>) -> bool {
    forall|k1: int, k2: int| 0 <= k1 < k2 < rs.len() ==> #[trigger] rs[k1] != #[trigger] rs[k2]
}

/// Every maximal run of row `y - 1` is accounted for: it is still the
/// shape of an open rectangle, or it is the shape of one of the first `i`
/// plates of the current row.
spec fn runs_accounted(g: TileGrid, prev: Seq<Rect>, plates: Seq<Plate>, i: int, y: int) -> bool {
    forall|l: int, r: int|
        #[trigger] is_run(g, l, r, y - 1) ==> (exists|k: int|
            0 <= k < prev.len() && #[trigger] shape_is(prev[k], l, r)) || (exists|m: int|
            0 <= m < i && plates[m].left == l && #[trigger] plates[m].right == r)
}

/// No remaining open rectangle has the shape of an already processed plate.
spec fn none_matched(prev: Seq<Rect>, plates: Seq<Plate>, i: int) -> bool {
    forall|k: int, m: int|
        0 <= k < prev.len() && 0 <= m < i ==> !(#[trigger] has_plate_shape(prev[k], plates[m]))
}

/// The index of the open rectangle whose shape equals the plate's, if any.
fn find_shape(rs: &Vec<Rect>, p: Plate) -> (found: Option<usize>)
    ensures
        match found {
            Some(j) => j < rs@.len() && has_plate_shape(rs@[j as int], p),
            None => forall|k: int| 0 <= k < rs@.len() ==> !(#[trigger] has_plate_shape(rs@[k], p)),
        },
{
    let mut j: usize = 0;
    while j < rs.len()
        invariant
            j <= rs@.len(),
            forall|k: int| 0 <= k < j ==> !(#[trigger] has_plate_shape(rs@[k], p)),
        decreases rs@.len() - j,
    {
        if rs[j].left == p.left && rs[j].right == p.right {
            return Some(j);
        }
        j = j + 1;
    }
    None
}

/// Decompose the grid's solid tiles into rectangles: coalesce each row's
/// solid tiles into plates, then stack vertically adjacent plates of
/// identical horizontal extent. The result covers every solid tile exactly
/// once, and no rectangle could absorb another row of its own shape.
///
/// The scan walks one row past the top edge, so rectangles touching that
/// edge are still flushed.
pub fn build_wall_rects(grid: &TileGrid) -> (rects: Vec<Rect>)
    requires
        grid.wf(),
    ensures
        is_wall_decomposition(*grid, rects@),
{
    let height = grid.height();
    let mut out: Vec<Rect> = Vec::new();
    let mut prev: Vec<Rect> = Vec::new();
    let mut y: i32 = 0;
    proof {
        // below the bottom edge no run exists
        assert forall|l: int, r: int| !(#[trigger] is_run(*grid, l, r, -1)) by {
            if is_run(*grid, l, r, -1) {
                assert(grid.solid_at(l, -1));
                assert(false);
            }
        }
    }
    while y <= height
        invariant
            grid.wf(),
            height == grid.spec_height(),
            height < i32::MAX,
            0 <= y <= height + 1,
            forall|k: int|
                0 <= k < out@.len() ==> rect_finished(*grid, #[trigger] out@[k]) && out@[k].top <= y
                    - 2,
            all_distinct(out@),
            forall|k: int| 0 <= k < prev@.len() ==> open_rect_ok(*grid, #[trigger] prev@[k], y as int),
            rects_sorted(prev@),
            runs_accounted(*grid, prev@, Seq::<Plate>::empty(), 0, y as int),
            forall|x: int, yy: int|
                #[trigger] grid.solid_at(x, yy) && yy < y ==> rects_cover(out@, x, yy)
                    || rects_cover(prev@, x, yy),
        decreases height + 1 - y,
    {
        let plates = row_plates(grid, y);
        let mut cur: Vec<Rect> = Vec::new();
        let mut i: usize = 0;
        while i < plates.len()
            invariant
                grid.wf(),
                height == grid.spec_height(),
                0 <= y <= height,
                i <= plates@.len(),
                forall|k: int|
                    0 <= k < plates@.len() ==> is_run(
                        *grid,
                        #[trigger] plates@[k].left as int,
                        plates@[k].right as int,
                        y as int,
                    ),
                forall|x: int|
                    grid.solid_at(x, y as int) ==> exists|k: int|
                        0 <= k < plates@.len() && #[trigger] plate_covers(plates@[k], x),
                forall|k1: int, k2: int|
                    0 <= k1 < k2 < plates@.len() ==> #[trigger] plates@[k1].right
                        < #[trigger] plates@[k2].left,
                forall|k: int|
                    0 <= k < out@.len() ==> rect_finished(*grid, #[trigger] out@[k]) && out@[k].top
                        <= y - 2,
                all_distinct(out@),
                forall|k: int|
                    0 <= k < prev@.len() ==> open_rect_ok(*grid, #[trigger] prev@[k], y as int),
                rects_sorted(prev@),
                none_matched(prev@, plates@, i as int),
                runs_accounted(*grid, prev@, plates@, i as int, y as int),
                cur@.len() == i,
                forall|k: int|
                    0 <= k < i ==> cur_rect_ok(*grid, #[trigger] cur@[k], y as int)
                        && has_plate_shape(cur@[k], plates@[k]),
                forall|x: int, yy: int|
                    #[trigger] grid.solid_at(x, yy) && yy < y ==> rects_cover(out@, x, yy)
                        || rects_cover(prev@, x, yy) || rects_cover(cur@, x, yy),
            decreases plates@.len() - i,
        {
            let p = plates[i];
            let ghost prev_before = prev@;
            match find_shape(&prev, p) {
                Some(j) => {
                    let ghost cur_before = cur@;
                    let mut r = prev.remove(j);
                    r.top = y;
                    cur.push(r);
                    proof {
                        assert(cur@[i as int] == r);
                        assert forall|k: int, m: int|
                            0 <= k < prev@.len() && 0 <= m < i + 1 implies !(
                        #[trigger] has_plate_shape(prev@[k], plates@[m])) by {
                            let k0: int = if k < j { k } else { k + 1 };
                            assert(prev@[k] == prev_before[k0]);
                            if m == i {
                                if k0 < j {
                                    assert(prev_before[k0].right < prev_before[j as int].left);
                                } else {
                                    assert(prev_before[j as int].right < prev_before[k0].left);
                                }
                            }
                        }
                        assert forall|l: int, r2: int| #[trigger]
                            is_run(*grid, l, r2, y - 1) implies (exists|k: int|
                            0 <= k < prev@.len() && #[trigger] shape_is(prev@[k], l, r2)) || (
                        exists|m: int|
                            0 <= m < i + 1 && plates@[m].left == l
                                && #[trigger] plates@[m].right == r2) by {
                            if exists|k: int|
                                0 <= k < prev_before.len() && #[trigger] shape_is(
                                    prev_before[k],
                                    l,
                                    r2,
                                ) {
                                let k0 = choose|k: int|
                                    0 <= k < prev_before.len() && #[trigger] shape_is(
                                        prev_before[k],
                                        l,
                                        r2,
                                    );
                                if k0 == j {
                                    assert(plates@[i as int].left == l && plates@[i as int].right
                                        == r2);
                                } else {
                                    let k1: int = if k0 < j {
                                        k0
                                    } else {
                                        k0 - 1
                                    };
                                    assert(prev@[k1] == prev_before[k0]);
                                    assert(shape_is(prev@[k1], l, r2));
                                }
                            }
                        }
                        assert forall|x: int, yy: int|
                            #[trigger] grid.solid_at(x, yy) && yy < y implies rects_cover(
                            out@,
                            x,
                            yy,
                        ) || rects_cover(prev@, x, yy) || rects_cover(cur@, x, yy) by {
                            if rects_cover(prev_before, x, yy) {
                                let k0 = choose|k: int|
                                    0 <= k < prev_before.len() && #[trigger] prev_before[k].covers(
                                        x,
                                        yy,
                                    );
                                if k0 == j {
                                    assert(cur@[i as int].covers(x, yy));
                                } else {
                                    let k1: int = if k0 < j {
                                        k0
                                    } else {
                                        k0 - 1
                                    };
                                    assert(prev@[k1] == prev_before[k0]);
                                    assert(prev@[k1].covers(x, yy));
                                }
                            } else if rects_cover(cur_before, x, yy) {
                                let k0 = choose|k: int|
                                    0 <= k < cur_before.len() && #[trigger] cur_before[k].covers(
                                        x,
                                        yy,
                                    );
                                assert(cur@[k0].covers(x, yy));
                            }
                        }
                    }
                },
                None => {
                    let ghost cur_before = cur@;
                    let nr = Rect { left: p.left, right: p.right, bottom: y, top: y };
                    cur.push(nr);
                    proof {
                        assert(is_run(*grid, p.left as int, p.right as int, y as int));
                        if is_run(*grid, nr.left as int, nr.right as int, y - 1) {
                            if exists|m: int|
                                0 <= m < i && plates@[m].left == nr.left as int
                                    && #[trigger] plates@[m].right == nr.right as int {
                                let m = choose|m: int|
                                    0 <= m < i && plates@[m].left == nr.left as int
                                        && #[trigger] plates@[m].right == nr.right as int;
                                assert(plates@[m].right < plates@[i as int].left);
                                assert(is_run(
                                    *grid,
                                    plates@[m].left as int,
                                    plates@[m].right as int,
                                    y as int,
                                ));
                                assert(false);
                            } else {
                                let k = choose|k: int|
                                    0 <= k < prev@.len() && #[trigger] shape_is(
                                        prev@[k],
                                        nr.left as int,
                                        nr.right as int,
                                    );
                                assert(has_plate_shape(prev@[k], p));
                                assert(false);
                            }
                        }
                        assert(cur_rect_ok(*grid, nr, y as int));
                        assert forall|x: int, yy: int|
                            #[trigger] grid.solid_at(x, yy) && yy < y implies rects_cover(
                            out@,
                            x,
                            yy,
                        ) || rects_cover(prev@, x, yy) || rects_cover(cur@, x, yy) by {
                            if rects_cover(cur_before, x, yy) {
                                let k0 = choose|k: int|
                                    0 <= k < cur_before.len() && #[trigger] cur_before[k].covers(
                                        x,
                                        yy,
                                    );
                                assert(cur@[k0].covers(x, yy));
                            }
                        }
                    }
                },
            }
            i = i + 1;
        }
        // Every open rectangle not matched by a plate of this row has
        // terminated: no run of its shape continues into row `y`.
        proof {
            assert forall|k: int| 0 <= k < prev@.len() implies rect_finished(
                *grid,
                #[trigger] prev@[k],
            ) && prev@[k].top == y - 1 by {
                let r = prev@[k];
                if is_run(*grid, r.left as int, r.right as int, r.top + 1) {
                    assert(is_run(*grid, r.left as int, r.right as int, y as int));
                    assert(grid.solid_at(r.left as int, y as int));
                    let m = choose|m: int|
                        0 <= m < plates@.len() && #[trigger] plate_covers(
                            plates@[m],
                            r.left as int,
                        );
                    lemma_run_unique(
                        *grid,
                        plates@[m].left as int,
                        plates@[m].right as int,
                        r.left as int,
                        r.right as int,
                        r.left as int,
                        y as int,
                    );
                    assert(has_plate_shape(r, plates@[m]));
                    assert(false);
                }
            }
        }
        let ghost out_before = out@;
        let ghost left_over = prev@;
        let ghost row_rects = cur@;
        out.append(&mut prev);
        prev = cur;
        proof {
            // distinctness of the grown output list
            assert forall|k1: int, k2: int| 0 <= k1 < k2 < out@.len() implies #[trigger] out@[k1]
                != #[trigger] out@[k2] by {
                if k1 < out_before.len() && k2 >= out_before.len() {
                    assert(out@[k1].top <= y - 2);
                    assert(out@[k2].top == y - 1);
                } else if k1 >= out_before.len() {
                    let j1 = k1 - out_before.len();
                    let j2 = k2 - out_before.len();
                    assert(left_over[j1].right < left_over[j2].left);
                }
            }
            // the new open set carries exactly the runs of row y
            assert forall|l: int, r: int| #[trigger] is_run(*grid, l, r, y as int) implies exists|
                k: int,
            |
                0 <= k < prev@.len() && #[trigger] shape_is(prev@[k], l, r) by {
                assert(grid.solid_at(l, y as int));
                let m = choose|m: int|
                    0 <= m < plates@.len() && #[trigger] plate_covers(plates@[m], l);
                lemma_run_unique(
                    *grid,
                    plates@[m].left as int,
                    plates@[m].right as int,
                    l,
                    r,
                    l,
                    y as int,
                );
                assert(shape_is(prev@[m], l, r));
            }
            // sortedness of the new open set follows the plates' order
            assert forall|k1: int, k2: int| 0 <= k1 < k2 < prev@.len() implies #[trigger] prev@[k1].right
                < #[trigger] prev@[k2].left by {
                assert(plates@[k1].right < plates@[k2].left);
            }
            // coverage: row y is covered by the new open set, earlier rows
            // by the grown output list or carried-over rectangles
            assert forall|x: int, yy: int|
                #[trigger] grid.solid_at(x, yy) && yy < y + 1 implies rects_cover(out@, x, yy)
                || rects_cover(prev@, x, yy) by {
                if yy == y {
                    let m = choose|m: int|
                        0 <= m < plates@.len() && #[trigger] plate_covers(plates@[m], x);
                    assert(prev@[m].covers(x, yy));
                } else {
                    if rects_cover(out_before, x, yy) {
                        let k0 = choose|k: int|
                            0 <= k < out_before.len() && #[trigger] out_before[k].covers(x, yy);
                        assert(out@[k0].covers(x, yy));
                    } else if rects_cover(left_over, x, yy) {
                        let k0 = choose|k: int|
                            0 <= k < left_over.len() && #[trigger] left_over[k].covers(x, yy);
                        assert(out@[out_before.len() + k0].covers(x, yy));
                    } else {
                        let k0 = choose|k: int|
                            0 <= k < row_rects.len() && #[trigger] row_rects[k].covers(x, yy);
                        assert(prev@[k0].covers(x, yy));
                    }
                }
            }
        }
        y = y + 1;
    }
    proof {
        // past the top edge no run exists, so nothing is left open
        if prev@.len() > 0 {
            assert(open_rect_ok(*grid, prev@[0], y as int));
            assert(is_run(*grid, prev@[0].left as int, prev@[0].right as int, height as int));
            assert(grid.solid_at(prev@[0].left as int, height as int));
            assert(false);
        }
        // union of covered tiles == solid tiles, and no overlap
        assert forall|k: int, x: int, yy: int|
            0 <= k < out@.len() && #[trigger] out@[k].covers(x, yy) implies grid.solid_at(
            x,
            yy,
        ) by {
            assert(is_run(*grid, out@[k].left as int, out@[k].right as int, yy));
        }
        assert forall|k1: int, k2: int, x: int, yy: int|
            0 <= k1 < out@.len() && 0 <= k2 < out@.len() && k1 != k2 && #[trigger] out@[k1].covers(
                x,
                yy,
            ) implies !(#[trigger] out@[k2].covers(x, yy)) by {
            if out@[k2].covers(x, yy) {
                lemma_finished_overlap(*grid, out@[k1], out@[k2], x, yy);
                if k1 < k2 {
                    assert(out@[k1] != out@[k2]);
                } else {
                    assert(out@[k2] != out@[k1]);
                }
            }
        }
    }
    out
}

/// The decomposition is unique: two rectangle lists that both satisfy the
/// generator's contract on the same grid hold exactly the same rectangles.
/// In particular, running the generator twice on an unchanged grid yields
/// the same set of rectangles.
pub proof fn lemma_decomposition_unique(g: TileGrid, a: Seq<Rect>, b: Seq<Rect>)
    requires
        is_wall_decomposition(g, a),
        is_wall_decomposition(g, b),
    ensures
        forall|r: Rect| a.contains(r) <==> b.contains(r),
{
    assert forall|r: Rect| a.contains(r) implies b.contains(r) by {
        lemma_decomposition_contains(g, a, b, r);
    }
    assert forall|r: Rect| b.contains(r) implies a.contains(r) by {
        lemma_decomposition_contains(g, b, a, r);
    }
}

/// A rectangle of one valid decomposition appears in any other.
proof fn lemma_decomposition_contains(g: TileGrid, a: Seq<Rect>, b: Seq<Rect>, r: Rect)
    requires
        is_wall_decomposition(g, a),
        is_wall_decomposition(g, b),
        a.contains(r),
    ensures
        b.contains(r),
{
    let k = choose|k: int| 0 <= k < a.len() && a[k] == r;
    assert(a[k].covers(r.left as int, r.bottom as int));
    assert(g.solid_at(r.left as int, r.bottom as int));
    assert(rects_cover(b, r.left as int, r.bottom as int));
    let k2 = choose|k2: int|
        0 <= k2 < b.len() && #[trigger] b[k2].covers(r.left as int, r.bottom as int);
    lemma_finished_overlap(g, r, b[k2], r.left as int, r.bottom as int);
    assert(b[k2] == r);
}

} // verus!
