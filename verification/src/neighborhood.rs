use vstd::prelude::*;
use crate::grid::{CellGrid, index_of, lemma_index_in_grid, lemma_coord_of_index};

verus! {

/// Whether the offset `(dx, dy)` from column `x`, row `y` of a `w` by `h` grid
/// names another cell of the grid at most `r` steps away along each axis.
pub open spec fn is_neighbor(w: int, h: int, x: int, y: int, r: int, dx: int, dy: int) -> bool {
    &&& -r <= dx <= r
    &&& -r <= dy <= r
    &&& !(dx == 0 && dy == 0)
    &&& 0 <= x + dx < w
    &&& 0 <= y + dy < h
}

/// The entry that lists the neighbour at offset `(dx, dy)`: its row-major
/// index, then the offset itself.
pub open spec fn neighbor_entry(w: int, x: int, y: int, dx: int, dy: int) -> (usize, isize, isize) {
    (index_of(w, x + dx, y + dy) as usize, dx as isize, dy as isize)
}

/// The neighbours in row `y + dy` among the first `n` columns of the window,
/// which starts at `dx == -r`, from left to right.
pub open spec fn row_scan(w: int, h: int, x: int, y: int, r: int, dy: int, n: nat) -> Seq<
    (usize, isize, isize),
>
    decreases n,
{
    if n == 0 {
        Seq::empty()
    } else {
        let dx = -r + (n - 1);
        let prev = row_scan(w, h, x, y, r, dy, (n - 1) as nat);
        if is_neighbor(w, h, x, y, r, dx, dy) {
            prev.push(neighbor_entry(w, x, y, dx, dy))
        } else {
            prev
        }
    }
}

/// The neighbours in the first `m` rows of the window, which starts at
/// `dy == -r`, row after row.
pub open spec fn window_scan(w: int, h: int, x: int, y: int, r: int, m: nat) -> Seq<
    (usize, isize, isize),
>
    decreases m,
{
    if m == 0 {
        Seq::empty()
    } else {
        window_scan(w, h, x, y, r, (m - 1) as nat) + row_scan(
            w,
            h,
            x,
            y,
            r,
            -r + (m - 1),
            (2 * r + 1) as nat,
        )
    }
}

/// All cells of a `w` by `h` grid within `r` steps of column `x`, row `y`
/// along each axis, other than that cell itself, row by row from the top
/// and from left to right within a row.
pub open spec fn neighborhood(w: int, h: int, x: int, y: int, r: int) -> Seq<(usize, isize, isize)> {
    window_scan(w, h, x, y, r, (2 * r + 1) as nat)
}

/// How many of the listed neighbours burn.
pub open spec fn count_burning(cells: Seq<(usize, isize, isize)>, fire: Seq<bool>) -> nat
    decreases cells.len(),
{
    if cells.len() == 0 {
        0
    } else {
        count_burning(cells.drop_last(), fire) + if fire[cells.last().0 as int] {
            1nat
        } else {
            0nat
        }
    }
}

proof fn lemma_row_scan_members(w: int, h: int, x: int, y: int, r: int, dy: int, n: nat)
    ensures
        forall|e: (usize, isize, isize)|
            row_scan(w, h, x, y, r, dy, n).contains(e) <==> exists|dx: int|
                -r <= dx < -r + n && #[trigger] is_neighbor(w, h, x, y, r, dx, dy) && e
                    == neighbor_entry(w, x, y, dx, dy),
    decreases n,
{
    if n > 0 {
        lemma_row_scan_members(w, h, x, y, r, dy, (n - 1) as nat);
        let s = row_scan(w, h, x, y, r, dy, n);
        let prev = row_scan(w, h, x, y, r, dy, (n - 1) as nat);
        let ldx = -r + (n - 1);
        assert forall|e: (usize, isize, isize)|
            s.contains(e) <==> exists|dx: int|
                -r <= dx < -r + n && #[trigger] is_neighbor(w, h, x, y, r, dx, dy) && e
                    == neighbor_entry(w, x, y, dx, dy) by {
            if s.contains(e) {
                if prev.contains(e) {
                } else {
                    let k = choose|k: int| 0 <= k < s.len() && s[k] == e;
                    assert(k == s.len() - 1);
                    assert(is_neighbor(w, h, x, y, r, ldx, dy));
                }
            }
            if exists|dx: int|
                -r <= dx < -r + n && #[trigger] is_neighbor(w, h, x, y, r, dx, dy) && e
                    == neighbor_entry(w, x, y, dx, dy) {
                let dx = choose|dx: int|
                    -r <= dx < -r + n && #[trigger] is_neighbor(w, h, x, y, r, dx, dy) && e
                        == neighbor_entry(w, x, y, dx, dy);
                if dx < ldx {
                    assert(prev.contains(e));
                    if is_neighbor(w, h, x, y, r, ldx, dy) {
                        let k = choose|k: int| 0 <= k < prev.len() && prev[k] == e;
                        assert(s[k] == e);
                    }
                } else {
                    assert(s[s.len() - 1] == e);
                }
            }
        }
    }
}

proof fn lemma_window_scan_members(w: int, h: int, x: int, y: int, r: int, m: nat)
    requires
        0 <= r,
    ensures
        forall|e: (usize, isize, isize)|
            window_scan(w, h, x, y, r, m).contains(e) <==> exists|dx: int, dy: int|
                -r <= dy < -r + m && #[trigger] is_neighbor(w, h, x, y, r, dx, dy) && e
                    == neighbor_entry(w, x, y, dx, dy),
    decreases m,
{
    if m > 0 {
        lemma_window_scan_members(w, h, x, y, r, (m - 1) as nat);
        let ldy = -r + (m - 1);
        let n = (2 * r + 1) as nat;
        lemma_row_scan_members(w, h, x, y, r, ldy, n);
        let prev = window_scan(w, h, x, y, r, (m - 1) as nat);
        let row = row_scan(w, h, x, y, r, ldy, n);
        let s = window_scan(w, h, x, y, r, m);
        assert(s == prev + row);
        assert forall|e: (usize, isize, isize)|
            s.contains(e) <==> exists|dx: int, dy: int|
                -r <= dy < -r + m && #[trigger] is_neighbor(w, h, x, y, r, dx, dy) && e
                    == neighbor_entry(w, x, y, dx, dy) by {
            if s.contains(e) {
                let k = choose|k: int| 0 <= k < s.len() && s[k] == e;
                if k < prev.len() {
                    assert(prev.contains(e));
                } else {
                    assert(row[k - prev.len()] == e);
                    assert(row.contains(e));
                }
            }
            if exists|dx: int, dy: int|
                -r <= dy < -r + m && #[trigger] is_neighbor(w, h, x, y, r, dx, dy) && e
                    == neighbor_entry(w, x, y, dx, dy) {
                let (dx, dy) = choose|dx: int, dy: int|
                    -r <= dy < -r + m && #[trigger] is_neighbor(w, h, x, y, r, dx, dy) && e
                        == neighbor_entry(w, x, y, dx, dy);
                if dy < ldy {
                    assert(prev.contains(e));
                    let k = choose|k: int| 0 <= k < prev.len() && prev[k] == e;
                    assert(s[k] == e);
                } else {
                    assert(is_neighbor(w, h, x, y, r, dx, ldy));
                    assert(row.contains(e));
                    let k = choose|k: int| 0 <= k < row.len() && row[k] == e;
                    assert(s[prev.len() + k] == e);
                }
            }
        }
    }
}

/// An entry is listed in the neighbourhood exactly when it is the entry of an
/// offset that names a neighbour.
pub proof fn lemma_neighborhood_members(w: int, h: int, x: int, y: int, r: int)
    requires
        0 <= r,
    ensures
        forall|e: (usize, isize, isize)|
            neighborhood(w, h, x, y, r).contains(e) <==> exists|dx: int, dy: int|
                #[trigger] is_neighbor(w, h, x, y, r, dx, dy) && e == neighbor_entry(w, x, y, dx, dy),
{
    lemma_window_scan_members(w, h, x, y, r, (2 * r + 1) as nat);
}


/// Every listed neighbour lies inside the grid, is another cell than the one
/// at the centre, and sits at the offset that its entry gives.
pub proof fn lemma_neighborhood_entries(w: int, h: int, x: int, y: int, r: int)
    requires
        0 <= r <= isize::MAX,
        0 <= x < w,
        0 <= y < h,
        w * h <= usize::MAX,
    ensures
        forall|k: int|
            #![trigger neighborhood(w, h, x, y, r)[k]]
            0 <= k < neighborhood(w, h, x, y, r).len() ==> {
                let e = neighborhood(w, h, x, y, r)[k];
                &&& is_neighbor(w, h, x, y, r, e.1 as int, e.2 as int)
                &&& e.0 as int == index_of(w, x + e.1, y + e.2)
                &&& e.0 < w * h
                &&& e.0 != index_of(w, x, y)
            },
{
    lemma_neighborhood_members(w, h, x, y, r);
    let s = neighborhood(w, h, x, y, r);
    assert forall|k: int| #![trigger s[k]] 0 <= k < s.len() implies {
        let e = s[k];
        &&& is_neighbor(w, h, x, y, r, e.1 as int, e.2 as int)
        &&& e.0 as int == index_of(w, x + e.1, y + e.2)
        &&& e.0 < w * h
        &&& e.0 != index_of(w, x, y)
    } by {
        let e = s[k];
        assert(s.contains(e));
        let (dx, dy) = choose|dx: int, dy: int|
            #[trigger] is_neighbor(w, h, x, y, r, dx, dy) && e == neighbor_entry(w, x, y, dx, dy);
        lemma_index_in_grid(w, h, x + dx, y + dy);
        assert(e.1 as int == dx);
        assert(e.2 as int == dy);
        if e.0 == index_of(w, x, y) {
            lemma_coord_of_index(w, x + dx, y + dy);
            lemma_coord_of_index(w, x, y);
        }
    }
}

/// Being neighbours goes both ways: the cell at offset `(dx, dy)` from
/// `(x, y)` sees `(x, y)` at offset `(-dx, -dy)`, within the same radius.
pub proof fn lemma_neighbor_symmetric(w: int, h: int, x: int, y: int, r: int, dx: int, dy: int)
    requires
        0 <= x < w,
        0 <= y < h,
    ensures
        is_neighbor(w, h, x, y, r, dx, dy) <==> (0 <= x + dx < w && 0 <= y + dy < h
            && is_neighbor(w, h, x + dx, y + dy, r, -dx, -dy)),
{
}

proof fn lemma_row_scan_sorted(w: int, h: int, x: int, y: int, r: int, dy: int, n: nat)
    requires
        0 <= r <= isize::MAX,
        0 <= x < w,
        0 <= y < h,
        w * h <= usize::MAX,
    ensures
        forall|k: int|
            #![trigger row_scan(w, h, x, y, r, dy, n)[k]]
            0 <= k < row_scan(w, h, x, y, r, dy, n).len() ==> {
                let e = row_scan(w, h, x, y, r, dy, n)[k];
                &&& -r <= e.1 < -r + n
                &&& e.2 == dy
                &&& 0 <= y + dy < h
                &&& 0 <= x + e.1 < w
                &&& e.0 as int == (x + e.1) + (y + dy) * w
            },
        forall|i: int, j: int|
            0 <= i < j < row_scan(w, h, x, y, r, dy, n).len() ==> row_scan(w, h, x, y, r, dy, n)[i].0
                < row_scan(w, h, x, y, r, dy, n)[j].0,
    decreases n,
{
    if n > 0 {
        lemma_row_scan_sorted(w, h, x, y, r, dy, (n - 1) as nat);
        let ldx = -r + (n - 1);
        let prev = row_scan(w, h, x, y, r, dy, (n - 1) as nat);
        let s = row_scan(w, h, x, y, r, dy, n);
        if is_neighbor(w, h, x, y, r, ldx, dy) {
            lemma_index_in_grid(w, h, x + ldx, y + dy);
            let e = neighbor_entry(w, x, y, ldx, dy);
            assert(s == prev.push(e));
            assert(e.1 as int == ldx);
            assert(e.2 as int == dy);
            assert(e.0 as int == (x + ldx) + (y + dy) * w);
            assert forall|k: int| #![trigger s[k]] 0 <= k < s.len() implies {
                let f = s[k];
                &&& -r <= f.1 < -r + n
                &&& f.2 == dy
                &&& 0 <= y + dy < h
                &&& 0 <= x + f.1 < w
                &&& f.0 as int == (x + f.1) + (y + dy) * w
            } by {
                if k < prev.len() {
                    assert(s[k] == prev[k]);
                }
            }
            assert forall|i: int, j: int| 0 <= i < j < s.len() implies s[i].0 < s[j].0 by {
                assert(s[i] == prev[i]);
                if j < prev.len() {
                    assert(s[j] == prev[j]);
                } else {
                    assert(s[j] == e);
                }
            }
        } else {
            assert(s == prev);
        }
    }
}

proof fn lemma_window_scan_sorted(w: int, h: int, x: int, y: int, r: int, m: nat)
    requires
        0 <= r <= isize::MAX,
        0 <= x < w,
        0 <= y < h,
        w * h <= usize::MAX,
    ensures
        forall|k: int|
            #![trigger window_scan(w, h, x, y, r, m)[k]]
            0 <= k < window_scan(w, h, x, y, r, m).len() ==> {
                let e = window_scan(w, h, x, y, r, m)[k];
                &&& -r <= e.2 < -r + m
                &&& 0 <= y + e.2 < h
                &&& 0 <= x + e.1 < w
                &&& e.0 as int == (x + e.1) + (y + e.2) * w
            },
        forall|i: int, j: int|
            0 <= i < j < window_scan(w, h, x, y, r, m).len() ==> window_scan(w, h, x, y, r, m)[i].0
                < window_scan(w, h, x, y, r, m)[j].0,
    decreases m,
{
    if m > 0 {
        lemma_window_scan_sorted(w, h, x, y, r, (m - 1) as nat);
        let ldy = -r + (m - 1);
        let n = (2 * r + 1) as nat;
        lemma_row_scan_sorted(w, h, x, y, r, ldy, n);
        let prev = window_scan(w, h, x, y, r, (m - 1) as nat);
        let row = row_scan(w, h, x, y, r, ldy, n);
        let s = window_scan(w, h, x, y, r, m);
        assert(s == prev + row);
        assert forall|k: int| #![trigger s[k]] 0 <= k < s.len() implies {
            let e = s[k];
            &&& -r <= e.2 < -r + m
            &&& 0 <= y + e.2 < h
            &&& 0 <= x + e.1 < w
            &&& e.0 as int == (x + e.1) + (y + e.2) * w
        } by {
            if k < prev.len() {
                assert(s[k] == prev[k]);
            } else {
                assert(s[k] == row[k - prev.len()]);
            }
        }
        assert forall|i: int, j: int| 0 <= i < j < s.len() implies s[i].0 < s[j].0 by {
            if j < prev.len() {
                assert(s[i] == prev[i] && s[j] == prev[j]);
            } else if i >= prev.len() {
                assert(s[i] == row[i - prev.len()] && s[j] == row[j - prev.len()]);
            } else {
                let a = prev[i];
                let b = row[j - prev.len()];
                assert(s[i] == a && s[j] == b);
                let ya = y + a.2;
                let yb = y + ldy;
                assert((x + a.1) + ya * w < yb * w) by (nonlinear_arith)
                    requires
                        0 <= x + a.1 < w,
                        ya < yb,
                ;
            }
        }
    }
}

/// The neighbours are listed by strictly increasing row-major index, so no
/// cell is listed twice.
pub proof fn lemma_neighborhood_sorted(w: int, h: int, x: int, y: int, r: int)
    requires
        0 <= r <= isize::MAX,
        0 <= x < w,
        0 <= y < h,
        w * h <= usize::MAX,
    ensures
        forall|i: int, j: int|
            0 <= i < j < neighborhood(w, h, x, y, r).len() ==> neighborhood(w, h, x, y, r)[i].0
                < neighborhood(w, h, x, y, r)[j].0,
{
    lemma_window_scan_sorted(w, h, x, y, r, (2 * r + 1) as nat);
}

/// Counting burning neighbours grows with the fire: where every cell that
/// burns in `f1` also burns in `f2`, `f2` counts at least as many. The count
/// is never more than the number of listed cells, is that number when every
/// cell burns, and is 0 when none does.
pub proof fn lemma_count_burning_monotone(cells: Seq<(usize, isize, isize)>, f1: Seq<bool>, f2: Seq<bool>)
    requires
        f1.len() == f2.len(),
        forall|k: int| 0 <= k < cells.len() ==> #[trigger] cells[k].0 < f1.len(),
        forall|i: int| 0 <= i < f1.len() && #[trigger] f1[i] ==> f2[i],
    ensures
        count_burning(cells, f1) <= count_burning(cells, f2),
        count_burning(cells, f1) <= cells.len(),
        (forall|i: int| 0 <= i < f1.len() ==> #[trigger] f1[i]) ==> count_burning(cells, f1) == cells.len(),
        (forall|i: int| 0 <= i < f1.len() ==> !#[trigger] f1[i]) ==> count_burning(cells, f1) == 0,
    decreases cells.len(),
{
    if cells.len() > 0 {
        let rest = cells.drop_last();
        assert forall|k: int| 0 <= k < rest.len() implies #[trigger] rest[k].0 < f1.len() by {
            assert(rest[k] == cells[k]);
        }
        lemma_count_burning_monotone(rest, f1, f2);
        assert(cells.last() == cells[cells.len() - 1]);
    }
}

/// The burning count of a list is the length of the list of its burning
/// entries: each listed cell that burns counts once, each that does not
/// counts nothing.
pub proof fn lemma_count_burning_is_filter(cells: Seq<(usize, isize, isize)>, fire: Seq<bool>)
    ensures
        count_burning(cells, fire) == cells.filter(|e: (usize, isize, isize)| fire[e.0 as int]).len(),
    decreases cells.len(),
{
    reveal_with_fuel(Seq::<(usize, isize, isize)>::filter, 1);
    if cells.len() > 0 {
        lemma_count_burning_is_filter(cells.drop_last(), fire);
    }
}

/// Counting burning cells adds up over concatenated lists.
pub proof fn lemma_count_burning_append(a: Seq<(usize, isize, isize)>, b: Seq<(usize, isize, isize)>, fire: Seq<bool>)
    ensures
        count_burning(a + b, fire) == count_burning(a, fire) + count_burning(b, fire),
    decreases b.len(),
{
    if b.len() == 0 {
        assert(a + b == a);
    } else {
        lemma_count_burning_append(a, b.drop_last(), fire);
        assert((a + b).drop_last() == a + b.drop_last());
        assert((a + b).last() == b.last());
    }
}

impl CellGrid {
    /// The cells around column `x`, row `y` that are at most `radius` steps
    /// away along each axis and inside the grid, the cell itself left out:
    /// each as its row-major index and its offset, row by row from the top
    /// and from left to right within a row.
    pub fn neighbors(&self, x: usize, y: usize, radius: usize) -> (out: Vec<(usize, isize, isize)>)
        requires
            self.wf(),
            x < self.width,
            y < self.height,
            self.width + radius <= isize::MAX,
            self.height + radius <= isize::MAX,
        ensures
            out@ == neighborhood(self.width as int, self.height as int, x as int, y as int, radius as int),
    {
        let ghost w = self.width as int;
        let ghost h = self.height as int;
        let ghost gr = radius as int;
        let r = radius as isize;
        let xi = x as isize;
        let yi = y as isize;
        let mut out: Vec<(usize, isize, isize)> = Vec::new();
        let mut dy: isize = -r;
        while dy <= r
            invariant
                self.wf(),
                w == self.width,
                h == self.height,
                gr == r,
                xi == x,
                yi == y,
                x < self.width,
                y < self.height,
                self.width + radius <= isize::MAX,
                self.height + radius <= isize::MAX,
                r == radius,
                -r <= dy <= r + 1,
                out@ == window_scan(w, h, x as int, y as int, gr, (dy + gr) as nat),
            decreases r + 1 - dy,
        {
            let mut dx: isize = -r;
            while dx <= r
                invariant
                    self.wf(),
                    w == self.width,
                    h == self.height,
                    gr == r,
                    xi == x,
                    yi == y,
                    x < self.width,
                    y < self.height,
                    self.width + radius <= isize::MAX,
                    self.height + radius <= isize::MAX,
                    r == radius,
                    -r <= dy <= r,
                    -r <= dx <= r + 1,
                    out@ == window_scan(w, h, x as int, y as int, gr, (dy + gr) as nat) + row_scan(
                        w,
                        h,
                        x as int,
                        y as int,
                        gr,
                        dy as int,
                        (dx + gr) as nat,
                    ),
                decreases r + 1 - dx,
            {
                let ghost before = out@;
                if !(dx == 0 && dy == 0) {
                    let nx = xi + dx;
                    let ny = yi + dy;
                    if nx >= 0 && ny >= 0 && (nx as usize) < self.width && (ny as usize) < self.height {
                        proof {
                            lemma_index_in_grid(w, h, nx as int, ny as int);
                            assert(self.cell_land@.len() == self.cell_land.len());
                        }
                        let ni = self.coord_to_index(nx as usize, ny as usize);
                        out.push((ni, dx, dy));
                    }
                }
                proof {
                    let s1 = window_scan(w, h, x as int, y as int, gr, (dy + gr) as nat);
                    let s2 = row_scan(w, h, x as int, y as int, gr, dy as int, (dx + gr) as nat);
                    let s3 = row_scan(w, h, x as int, y as int, gr, dy as int, (dx + 1 + gr) as nat);
                    if is_neighbor(w, h, x as int, y as int, gr, dx as int, dy as int) {
                        assert(s3 == s2.push(neighbor_entry(w, x as int, y as int, dx as int, dy as int)));
                        assert(out@ == s1 + s3);
                    } else {
                        assert(s3 == s2);
                    }
                }
                dx = dx + 1;
            }
            proof {
                assert(window_scan(w, h, x as int, y as int, gr, (dy + 1 + gr) as nat)
                    == window_scan(w, h, x as int, y as int, gr, (dy + gr) as nat) + row_scan(
                    w,
                    h,
                    x as int,
                    y as int,
                    gr,
                    dy as int,
                    (2 * gr + 1) as nat,
                ));
            }
            dy = dy + 1;
        }
        out
    }

    /// How many of the cells that `neighbors` lists for the same arguments burn.
    pub fn burning_count(&self, x: usize, y: usize, radius: usize) -> (n: usize)
        requires
            self.wf(),
            x < self.width,
            y < self.height,
            self.width + radius <= isize::MAX,
            self.height + radius <= isize::MAX,
        ensures
            n == count_burning(
                neighborhood(self.width as int, self.height as int, x as int, y as int, radius as int),
                self.fire(),
            ),
            n == neighborhood(self.width as int, self.height as int, x as int, y as int, radius as int).filter(
                |e: (usize, isize, isize)| self.fire()[e.0 as int],
            ).len(),
    {
        let nb = self.neighbors(x, y, radius);
        let ghost s = nb@;
        proof {
            assert(self.cell_land@.len() == self.cell_land.len());
            lemma_neighborhood_entries(self.width as int, self.height as int, x as int, y as int, radius as int);
        }
        let mut n: usize = 0;
        let mut i: usize = 0;
        while i < nb.len()
            invariant
                self.wf(),
                s == nb@,
                i <= nb.len(),
                n <= i,
                n == count_burning(s.take(i as int), self.fire()),
                forall|k: int| 0 <= k < s.len() ==> #[trigger] s[k].0 < self.cells(),
            decreases nb.len() - i,
        {
            let idx = nb[i].0;
            proof {
                assert(s.take(i + 1).drop_last() == s.take(i as int));
                assert(s.take(i + 1).last() == s[i as int]);
            }
            if self.cell_fire[idx] {
                n = n + 1;
            }
            i = i + 1;
        }
        proof {
            assert(s.take(s.len() as int) == s);
            lemma_count_burning_is_filter(s, self.fire());
        }
        n
    }
}

} // verus!
