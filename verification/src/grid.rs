use vstd::prelude::*;

verus! {

/// Row-major index of the cell at column `x`, row `y` in a grid `w` cells wide.
pub open spec fn index_of(w: int, x: int, y: int) -> int {
    x + y * w
}

/// Column and row of the cell at row-major index `i` in a grid `w` cells wide.
pub open spec fn coord_of(w: int, i: int) -> (int, int) {
    (i % w, i / w)
}

/// A cell inside a `w` by `h` grid lies on a row-major index below `w * h`.
pub proof fn lemma_index_in_grid(w: int, h: int, x: int, y: int)
    requires
        0 <= x < w,
        0 <= y < h,
    ensures
        0 <= index_of(w, x, y) < w * h,
{
    assert(x + y * w < w * h) by (nonlinear_arith)
        requires
            0 <= x < w,
            0 <= y < h,
    ;
    assert(0 <= y * w) by (nonlinear_arith)
        requires
            0 <= y,
            0 <= w,
    ;
}

/// Taking a cell to its index and back gives the same cell.
pub proof fn lemma_coord_of_index(w: int, x: int, y: int)
    requires
        0 <= x < w,
        0 <= y,
    ensures
        coord_of(w, index_of(w, x, y)) == (x, y),
{
    vstd::arithmetic::div_mod::lemma_fundamental_div_mod_converse(x + y * w, w, y, x);
}

/// Taking an index to its cell and back gives the same index, and an index
/// below `w * h` names a cell inside the grid.
pub proof fn lemma_index_of_coord(w: int, h: int, i: int)
    requires
        0 < w,
        0 <= i,
    ensures
        index_of(w, coord_of(w, i).0, coord_of(w, i).1) == i,
        0 <= coord_of(w, i).0 < w,
        0 <= coord_of(w, i).1,
        i < w * h ==> coord_of(w, i).1 < h,
{
    vstd::arithmetic::div_mod::lemma_fundamental_div_mod(i, w);
    assert(i % w + (i / w) * w == i) by (nonlinear_arith)
        requires
            i == w * (i / w) + i % w,
    ;
    vstd::arithmetic::div_mod::lemma_div_pos_is_pos(i, w);
    if i < w * h {
        vstd::arithmetic::div_mod::lemma_multiply_divide_lt(i, w, h);
    }
}

/// The points of `path` that lie inside a `w` by `h` grid, in order, each with
/// its 1-based position along the path.
pub open spec fn path_on_grid(w: int, h: int, path: Seq<(isize, isize)>) -> Seq<(usize, usize, usize)>
    decreases path.len(),
{
    if path.len() == 0 {
        Seq::empty()
    } else {
        let prev = path_on_grid(w, h, path.drop_last());
        let p = path.last();
        if 0 <= p.0 < w && 0 <= p.1 < h {
            prev.push((path.len() as usize, p.0 as usize, p.1 as usize))
        } else {
            prev
        }
    }
}

/// Every entry of `path_on_grid` is a point of the path inside the grid,
/// given with its 1-based step; the steps strictly increase; and every point
/// of the path that lies inside the grid is listed.
pub proof fn lemma_path_on_grid(w: int, h: int, path: Seq<(isize, isize)>)
    requires
        0 <= w <= usize::MAX,
        0 <= h <= usize::MAX,
        path.len() <= usize::MAX,
    ensures
        forall|k: int|
            #![trigger path_on_grid(w, h, path)[k]]
            0 <= k < path_on_grid(w, h, path).len() ==> {
                let e = path_on_grid(w, h, path)[k];
                &&& 1 <= e.0 <= path.len()
                &&& e.1 < w
                &&& e.2 < h
                &&& path[e.0 - 1].0 == e.1
                &&& path[e.0 - 1].1 == e.2
            },
        forall|i: int, j: int|
            0 <= i < j < path_on_grid(w, h, path).len() ==> path_on_grid(w, h, path)[i].0
                < path_on_grid(w, h, path)[j].0,
        forall|j: int|
            0 <= j < path.len() && 0 <= #[trigger] path[j].0 < w && 0 <= path[j].1 < h ==> exists|k: int|
                0 <= k < path_on_grid(w, h, path).len() && #[trigger] path_on_grid(w, h, path)[k].0 == j + 1,
    decreases path.len(),
{
    if path.len() > 0 {
        let prev_path = path.drop_last();
        lemma_path_on_grid(w, h, prev_path);
        let prev = path_on_grid(w, h, prev_path);
        let s = path_on_grid(w, h, path);
        let p = path.last();
        assert forall|k: int| 0 <= k < prev.len() implies prev[k].0 <= prev_path.len() && path[prev[k].0 - 1]
            == prev_path[prev[k].0 - 1] by {}
        if 0 <= p.0 < w && 0 <= p.1 < h {
            assert(s == prev.push((path.len() as usize, p.0 as usize, p.1 as usize)));
            assert forall|k: int| #![trigger s[k]] 0 <= k < s.len() implies {
                let e = s[k];
                &&& 1 <= e.0 <= path.len()
                &&& e.1 < w
                &&& e.2 < h
                &&& path[e.0 - 1].0 == e.1
                &&& path[e.0 - 1].1 == e.2
            } by {
                if k < prev.len() {
                    assert(s[k] == prev[k]);
                }
            }
            assert forall|i: int, j: int| 0 <= i < j < s.len() implies s[i].0 < s[j].0 by {
                assert(s[i] == prev[i]);
                if j < prev.len() {
                    assert(s[j] == prev[j]);
                }
            }
            assert forall|j: int|
                0 <= j < path.len() && 0 <= #[trigger] path[j].0 < w && 0 <= path[j].1 < h implies exists|k: int|
                    0 <= k < s.len() && #[trigger] s[k].0 == j + 1 by {
                if j < prev_path.len() {
                    assert(prev_path[j] == path[j]);
                    let k = choose|k: int| 0 <= k < prev.len() && #[trigger] prev[k].0 == j + 1;
                    assert(s[k] == prev[k]);
                } else {
                    assert(s[prev.len() as int].0 == j + 1);
                }
            }
        } else {
            assert(s == prev);
            assert forall|j: int|
                0 <= j < path.len() && 0 <= #[trigger] path[j].0 < w && 0 <= path[j].1 < h implies exists|k: int|
                    0 <= k < s.len() && #[trigger] s[k].0 == j + 1 by {
                assert(j < prev_path.len());
                assert(prev_path[j] == path[j]);
            }
        }
    }
}

/// How a cell is drawn: water, a burning cell, or land that is not burning.
#[derive(PartialEq, Eq, Structural, Clone, Copy, Debug)]
pub enum CellLook {
    Water,
    Burning,
    Ground,
}

/// The discrete state of the simulation: which cells are land, which burn,
/// and the embers that landed during the last step.
#[derive(Clone)]
pub struct CellGrid {
    pub width: usize,
    pub height: usize,
    pub cell_land: Vec<bool>,
    pub cell_fire: Vec<bool>,
    pub embers: Vec<(usize, usize)>,
}

impl CellGrid {
    /// Land (`true`) or water (`false`) of each cell, in row-major order.
    pub open spec fn land(self) -> Seq<bool> {
        self.cell_land@
    }

    /// Whether each cell burns, in row-major order.
    pub open spec fn fire(self) -> Seq<bool> {
        self.cell_fire@
    }

    /// The cells, by column and row, that embers landed on in the last step.
    pub open spec fn embers(self) -> Seq<(usize, usize)> {
        self.embers@
    }

    /// Number of cells.
    pub open spec fn cells(self) -> int {
        self.width * self.height
    }

    /// Both layers hold one entry per cell.
    pub open spec fn wf(self) -> bool {
        &&& self.land().len() == self.cells()
        &&& self.fire().len() == self.cells()
    }

    /// Whether column `x`, row `y` lies inside the grid.
    pub open spec fn contains(self, x: int, y: int) -> bool {
        0 <= x < self.width && 0 <= y < self.height
    }

    /// Whether an ember landed on column `x`, row `y` in the last step.
    pub open spec fn ember_at(self, x: usize, y: usize) -> bool {
        self.embers().contains((x, y))
    }

    /// A grid of `width` by `height` cells with the given land layer, where
    /// nothing burns and no ember has landed.
    pub fn new(width: usize, height: usize, land: Vec<bool>) -> (grid: CellGrid)
        requires
            land.len() == width * height,
        ensures
            grid.wf(),
            grid.width == width,
            grid.height == height,
            grid.land() == land@,
            grid.fire() == Seq::new(land@.len(), |i: int| false),
            grid.embers() == Seq::<(usize, usize)>::empty(),
    {
        let n = land.len();
        let fire = vec![false; n];
        CellGrid { width, height, cell_land: land, cell_fire: fire, embers: Vec::new() }
    }

    /// Column and row of the cell at row-major index `idx`.
    pub fn index_to_coord(&self, idx: usize) -> (xy: (usize, usize))
        requires
            self.width > 0,
        ensures
            (xy.0 as int, xy.1 as int) == coord_of(self.width as int, idx as int),
    {
        let x = idx % self.width;
        proof {
            let w = self.width as int;
            let q = idx as int / w;
            vstd::arithmetic::div_mod::lemma_fundamental_div_mod(idx as int, w);
            vstd::arithmetic::div_mod::lemma_div_pos_is_pos(idx as int, w);
            assert(q * w == w * q) by (nonlinear_arith);
            assert(0 <= q * w) by (nonlinear_arith)
                requires
                    0 <= q,
                    0 < w,
            ;
            vstd::arithmetic::div_mod::lemma_fundamental_div_mod_converse(idx as int - x as int, w, q, 0);
        }
        let y = (idx - x) / self.width;
        (x, y)
    }

    /// Row-major index of column `x`, row `y`.
    pub fn coord_to_index(&self, x: usize, y: usize) -> (idx: usize)
        requires
            index_of(self.width as int, x as int, y as int) <= usize::MAX,
        ensures
            idx == index_of(self.width as int, x as int, y as int),
    {
        proof {
            assert(0 <= y * self.width) by (nonlinear_arith);
        }
        x + y * self.width
    }

    /// Whether the cell at row-major index `i` is land.
    pub fn is_land(&self, i: usize) -> (b: bool)
        requires
            self.wf(),
            i < self.cells(),
        ensures
            b == self.land()[i as int],
    {
        self.cell_land[i]
    }

    /// Whether the cell at row-major index `i` burns.
    pub fn is_burning(&self, i: usize) -> (b: bool)
        requires
            self.wf(),
            i < self.cells(),
        ensures
            b == self.fire()[i as int],
    {
        self.cell_fire[i]
    }

    /// The cell at column `nx`, row `ny`, given as signed numbers, when it
    /// lies inside the grid.
    pub fn cell_at(&self, nx: isize, ny: isize) -> (cell: Option<(usize, usize)>)
        ensures
            cell is Some <==> self.contains(nx as int, ny as int),
            cell matches Some(c) ==> c.0 == nx && c.1 == ny,
    {
        if nx >= 0 && ny >= 0 && (nx as usize) < self.width && (ny as usize) < self.height {
            Some((nx as usize, ny as usize))
        } else {
            None
        }
    }

    /// How the cell at row-major index `i` is drawn.
    pub fn appearance(&self, i: usize) -> (look: CellLook)
        requires
            self.wf(),
            i < self.cells(),
        ensures
            look == (if !self.land()[i as int] {
                CellLook::Water
            } else if self.fire()[i as int] {
                CellLook::Burning
            } else {
                CellLook::Ground
            }),
    {
        if !self.cell_land[i] {
            CellLook::Water
        } else if self.cell_fire[i] {
            CellLook::Burning
        } else {
            CellLook::Ground
        }
    }

    /// Sets the cell at column `x`, row `y` on fire; a cell outside the grid
    /// leaves the grid as it was.
    pub fn start_fire(&mut self, x: usize, y: usize)
        requires
            old(self).wf(),
            old(self).width > 0,
            old(self).height > 0,
        ensures
            final(self).wf(),
            final(self).width == old(self).width,
            final(self).height == old(self).height,
            final(self).land() == old(self).land(),
            final(self).embers() == old(self).embers(),
            final(self).fire() == (if old(self).contains(x as int, y as int) {
                old(self).fire().update(index_of(old(self).width as int, x as int, y as int), true)
            } else {
                old(self).fire()
            }),
    {
        if x > self.width - 1 || y > self.height - 1 {
            return;
        }
        proof {
            lemma_index_in_grid(self.width as int, self.height as int, x as int, y as int);
            assert(self.cell_land@.len() == self.cell_land.len());
        }
        let idx = self.coord_to_index(x, y);
        self.cell_fire.set(idx, true);
    }

    /// Puts out the fire at column `x`, row `y`; a cell outside the grid
    /// leaves the grid as it was.
    pub fn douse_fire(&mut self, x: usize, y: usize)
        requires
            old(self).wf(),
            old(self).width > 0,
            old(self).height > 0,
        ensures
            final(self).wf(),
            final(self).width == old(self).width,
            final(self).height == old(self).height,
            final(self).land() == old(self).land(),
            final(self).embers() == old(self).embers(),
            final(self).fire() == (if old(self).contains(x as int, y as int) {
                old(self).fire().update(index_of(old(self).width as int, x as int, y as int), false)
            } else {
                old(self).fire()
            }),
    {
        if x > self.width - 1 || y > self.height - 1 {
            return;
        }
        proof {
            lemma_index_in_grid(self.width as int, self.height as int, x as int, y as int);
            assert(self.cell_land@.len() == self.cell_land.len());
        }
        let idx = self.coord_to_index(x, y);
        self.cell_fire.set(idx, false);
    }

    /// The points of `path` that lie inside the grid, in order, each as its
    /// 1-based step along the path with its column and row.
    pub fn path_cells(&self, path: &Vec<(isize, isize)>) -> (cells: Vec<(usize, usize, usize)>)
        ensures
            cells@ == path_on_grid(self.width as int, self.height as int, path@),
            forall|k: int|
                #![trigger cells@[k]]
                0 <= k < cells@.len() ==> {
                    let e = cells@[k];
                    &&& 1 <= e.0 <= path@.len()
                    &&& e.1 < self.width
                    &&& e.2 < self.height
                    &&& path@[e.0 - 1].0 == e.1
                    &&& path@[e.0 - 1].1 == e.2
                },
            forall|i: int, j: int| 0 <= i < j < cells@.len() ==> cells@[i].0 < cells@[j].0,
            forall|j: int|
                0 <= j < path@.len() && 0 <= #[trigger] path@[j].0 < self.width && 0 <= path@[j].1 < self.height
                    ==> exists|k: int| 0 <= k < cells@.len() && #[trigger] cells@[k].0 == j + 1,
    {
        let mut cells: Vec<(usize, usize, usize)> = Vec::new();
        let mut k: usize = 0;
        while k < path.len()
            invariant
                k <= path@.len(),
                cells@ == path_on_grid(self.width as int, self.height as int, path@.take(k as int)),
            decreases path.len() - k,
        {
            let (px, py) = path[k];
            proof {
                assert(path@.take(k + 1).drop_last() == path@.take(k as int));
                assert(path@.take(k + 1).last() == path@[k as int]);
            }
            match self.cell_at(px, py) {
                Some((cx, cy)) => {
                    cells.push((k + 1, cx, cy));
                },
                None => {},
            }
            k = k + 1;
        }
        proof {
            assert(path@.take(path@.len() as int) == path@);
            lemma_path_on_grid(self.width as int, self.height as int, path@);
        }
        cells
    }

    /// An ember lies at column `x`, row `y` exactly when some landed ember's
    /// first component is `x` and its second is `y`.
    pub proof fn lemma_ember_at_pairs(self, x: usize, y: usize)
        ensures
            self.ember_at(x, y) <==> exists|k: int|
                0 <= k < self.embers().len() && #[trigger] self.embers()[k].0 == x && self.embers()[k].1 == y,
    {
        if self.ember_at(x, y) {
            let k = choose|k: int| 0 <= k < self.embers().len() && self.embers()[k] == (x, y);
            assert(self.embers()[k].0 == x);
        }
        if exists|k: int|
            0 <= k < self.embers().len() && #[trigger] self.embers()[k].0 == x && self.embers()[k].1 == y {
            let k = choose|k: int|
                0 <= k < self.embers().len() && #[trigger] self.embers()[k].0 == x && self.embers()[k].1 == y;
            assert(self.embers()[k] == (x, y));
        }
    }
}

} // verus!
