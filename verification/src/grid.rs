use vstd::prelude::*;

verus! {

/// A rectangular grid of tiles, each either solid or empty.
///
/// Coordinates are `(x, y)` pairs with `x` increasing rightward, `y`
/// increasing upward and `(0, 0)` at the origin corner. The grid is the
/// occupancy input of one region: solidity is stored row-major, one flag
/// per tile.
pub struct TileGrid {
    width: i32,
    height: i32,
    solid: Vec<bool>,
}

impl TileGrid {
    /// Well-formed: non-negative dimensions that leave room for the scans'
    /// sentinel column and row, and one stored flag per tile.
    pub closed spec fn wf(self) -> bool {
        &&& 0 <= self.width < i32::MAX
        &&& 0 <= self.height < i32::MAX
        &&& self.solid@.len() == self.width * self.height
    }

    pub closed spec fn spec_width(self) -> int {
        self.width as int
    }

    pub closed spec fn spec_height(self) -> int {
        self.height as int
    }

    /// Whether the tile at `(x, y)` is solid. A coordinate outside the grid
    /// counts as empty, so the scans can probe one past an edge without a
    /// special case.
    pub closed spec fn solid_at(self, x: int, y: int) -> bool {
        &&& 0 <= x < self.spec_width()
        &&& 0 <= y < self.spec_height()
        &&& self.solid@[y * self.spec_width() + x]
    }

    /// A solid tile always lies inside the grid.
    pub broadcast proof fn lemma_solid_in_bounds(self, x: int, y: int)
        ensures
            #[trigger] self.solid_at(x, y) ==> 0 <= x < self.spec_width() && 0 <= y
                < self.spec_height(),
    {
    }

    /// An empty grid of the given dimensions.
    pub fn new(width: i32, height: i32) -> (g: TileGrid)
        requires
            0 <= width < i32::MAX,
            0 <= height < i32::MAX,
            (width as int) * (height as int) <= usize::MAX as int,
        ensures
            g.wf(),
            g.spec_width() == width,
            g.spec_height() == height,
            forall|x: int, y: int| !g.solid_at(x, y),
    {
        let len: usize = (width as usize) * (height as usize);
        let mut solid: Vec<bool> = Vec::new();
        let mut i: usize = 0;
        while i < len
            invariant
                i <= len,
                solid@.len() == i,
                forall|k: int| 0 <= k < i ==> !solid@[k],
            decreases len - i,
        {
            solid.push(false);
            i = i + 1;
        }
        let g = TileGrid { width, height, solid };
        proof {
            assert forall|x: int, y: int| !g.solid_at(x, y) by {
                if 0 <= x < g.spec_width() && 0 <= y < g.spec_height() {
                    g.lemma_index_in_range(x, y);
                }
            }
        }
        g
    }

    /// The stored flag index of an in-bounds coordinate.
    closed spec fn spec_index_of(self, x: int, y: int) -> int {
        y * self.spec_width() + x
    }

    proof fn lemma_index_in_range(self, x: int, y: int)
        requires
            self.wf(),
            0 <= x < self.spec_width(),
            0 <= y < self.spec_height(),
        ensures
            0 <= self.spec_index_of(x, y) < self.solid@.len(),
    {
        assert(y * self.spec_width() + x < self.spec_width() * self.spec_height())
            by (nonlinear_arith)
            requires
                0 <= x < self.spec_width(),
                0 <= y < self.spec_height(),
        ;
        assert(0 <= y * self.spec_width()) by (nonlinear_arith)
            requires
                0 <= y,
                0 <= self.spec_width(),
        ;
    }

    /// Mark the tile at `(x, y)` as solid.
    pub fn set_solid(&mut self, x: i32, y: i32)
        requires
            old(self).wf(),
            0 <= x < old(self).spec_width(),
            0 <= y < old(self).spec_height(),
        ensures
            final(self).wf(),
            final(self).spec_width() == old(self).spec_width(),
            final(self).spec_height() == old(self).spec_height(),
            forall|i: int, j: int|
                final(self).solid_at(i, j) == (old(self).solid_at(i, j) || (i == x && j == y)),
    {
        // the length binding puts the vector's size, and with it the
        // index bound, in scope for the overflow check
        let _stored: usize = self.solid.len();
        proof {
            self.lemma_index_in_range(x as int, y as int);
        }
        let idx: usize = (y as usize) * (self.width as usize) + (x as usize);
        self.solid[idx] = true;
        proof {
            assert forall|i: int, j: int|
                self.solid_at(i, j) == (old(self).solid_at(i, j) || (i == x && j
                    == y)) by {
                if 0 <= i < self.spec_width() && 0 <= j < self.spec_height() {
                    self.lemma_index_in_range(i, j);
                    if !(i == x && j == y) {
                        assert(j * self.spec_width() + i != y * self.spec_width() + x)
                            by (nonlinear_arith)
                            requires
                                0 <= i < self.spec_width(),
                                0 <= j < self.spec_height(),
                                0 <= x < self.spec_width(),
                                0 <= y < self.spec_height(),
                                !(i == x && j == y),
                        ;
                    }
                }
            }
        }
    }

    /// Whether the tile at `(x, y)` is solid; coordinates outside the grid
    /// report an empty tile.
    pub fn is_solid(&self, x: i32, y: i32) -> (r: bool)
        requires
            self.wf(),
        ensures
            r == self.solid_at(x as int, y as int),
    {
        if x < 0 || y < 0 || x >= self.width || y >= self.height {
            false
        } else {
            let _stored: usize = self.solid.len();
            proof {
                self.lemma_index_in_range(x as int, y as int);
            }
            let idx: usize = (y as usize) * (self.width as usize) + (x as usize);
            self.solid[idx]
        }
    }

    /// The grid's width in tiles.
    pub fn width(&self) -> (w: i32)
        requires
            self.wf(),
        ensures
            w == self.spec_width(),
            0 <= w < i32::MAX,
    {
        self.width
    }

    /// The grid's height in tiles.
    pub fn height(&self) -> (h: i32)
        requires
            self.wf(),
        ensures
            h == self.spec_height(),
            0 <= h < i32::MAX,
    {
        self.height
    }
}

} // verus!
