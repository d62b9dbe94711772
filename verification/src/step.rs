use vstd::prelude::*;
use crate::grid::{CellGrid, coord_of, index_of, lemma_index_of_coord, lemma_index_in_grid, lemma_coord_of_index};

verus! {

/// Whether a cell burns after one step. Water keeps its state. A burning land
/// cell goes on burning unless its roll to go out succeeded. A land cell that
/// does not burn catches fire when its roll to ignite succeeded or when an
/// ember landed on it.
pub open spec fn spec_next_fire(land: bool, burning: bool, ignites: bool, ember: bool, goes_out: bool) -> bool {
    if !land {
        burning
    } else if burning {
        !goes_out
    } else {
        ignites || ember
    }
}

/// The rules of one step for a single cell: water never changes; a burning
/// land cell keeps burning exactly when its roll to go out failed; a land
/// cell that does not burn catches fire whenever an ember landed on it, and
/// otherwise exactly when its roll to ignite succeeded.
pub proof fn lemma_fire_rules(land: bool, burning: bool, ignites: bool, ember: bool, goes_out: bool)
    ensures
        !land ==> spec_next_fire(land, burning, ignites, ember, goes_out) == burning,
        land && burning ==> spec_next_fire(land, burning, ignites, ember, goes_out) == !goes_out,
        land && !burning && ember ==> spec_next_fire(land, burning, ignites, ember, goes_out),
        land && !burning && !ember ==> spec_next_fire(land, burning, ignites, ember, goes_out) == ignites,
{
}

/// Whether a cell burns after one step; see `spec_next_fire`.
pub fn next_fire(land: bool, burning: bool, ignites: bool, ember: bool, goes_out: bool) -> (b: bool)
    ensures
        b == spec_next_fire(land, burning, ignites, ember, goes_out),
{
    if !land {
        burning
    } else if burning {
        !goes_out
    } else {
        ignites || ember
    }
}

/// Where an ember launched from column `x`, row `y` lands when the wind
/// carries it `ox` columns and `oy` rows: the signed sums, read as unsigned,
/// so that a landing left of or above the grid wraps to a position outside it.
pub fn ember_landing(x: usize, y: usize, ox: i32, oy: i32) -> (at: (usize, usize))
    requires
        i32::MIN <= (x as i32) + ox <= i32::MAX,
        i32::MIN <= (y as i32) + oy <= i32::MAX,
    ensures
        at.0 == ((x as i32) + ox) as usize,
        at.1 == ((y as i32) + oy) as usize,
        0 <= (x as i32) + ox ==> at.0 == (x as i32) + ox,
        0 <= (y as i32) + oy ==> at.1 == (y as i32) + oy,
{
    (((x as i32) + ox) as usize, ((y as i32) + oy) as usize)
}

impl CellGrid {
    /// Whether an ember landed on column `x`, row `y` in the last step.
    pub fn has_ember(&self, x: usize, y: usize) -> (b: bool)
        ensures
            b == self.ember_at(x, y),
            b <==> exists|k: int|
                0 <= k < self.embers().len() && #[trigger] self.embers()[k].0 == x && self.embers()[k].1 == y,
    {
        proof {
            self.lemma_ember_at_pairs(x, y);
        }
        let mut k: usize = 0;
        while k < self.embers.len()
            invariant
                k <= self.embers@.len(),
                forall|j: int| 0 <= j < k ==> self.embers@[j] != (x, y),
            decreases self.embers.len() - k,
        {
            let e = self.embers[k];
            if e.0 == x && e.1 == y {
                assert(self.embers@[k as int] == (x, y));
                return true;
            }
            k = k + 1;
        }
        false
    }

    /// One step of the fire: each cell's next state given whether its roll
    /// to ignite (`ignition`) and its roll to go out (`extinction`)
    /// succeeded; `embers` are the cells that embers landed on during this
    /// step. Land and size do not change.
    pub fn advance(&self, ignition: &Vec<bool>, extinction: &Vec<bool>, embers: Vec<(usize, usize)>) -> (next: CellGrid)
        requires
            self.wf(),
            ignition.len() == self.cells(),
            extinction.len() == self.cells(),
        ensures
            next.wf(),
            next.width == self.width,
            next.height == self.height,
            next.land() == self.land(),
            next.embers() == embers@,
            forall|i: int|
                0 <= i < self.cells() ==> #[trigger] next.fire()[i] == spec_next_fire(
                    self.land()[i],
                    self.fire()[i],
                    ignition@[i],
                    self.ember_at(coord_of(self.width as int, i).0 as usize, coord_of(self.width as int, i).1 as usize),
                    extinction@[i],
                ),
            forall|k: int|
                0 <= k < self.embers().len() && #[trigger] self.embers()[k].0 < self.width && self.embers()[k].1
                    < self.height ==> {
                    let i = index_of(self.width as int, self.embers()[k].0 as int, self.embers()[k].1 as int);
                    self.land()[i] && !self.fire()[i] ==> next.fire()[i]
                },
    {
        let n = self.cell_land.len();
        let mut fire: Vec<bool> = Vec::new();
        let mut i: usize = 0;
        while i < n
            invariant
                self.wf(),
                n == self.cells(),
                ignition.len() == n,
                extinction.len() == n,
                i <= n,
                fire@.len() == i,
                forall|j: int|
                    0 <= j < i ==> #[trigger] fire@[j] == spec_next_fire(
                        self.land()[j],
                        self.fire()[j],
                        ignition@[j],
                        self.ember_at(coord_of(self.width as int, j).0 as usize, coord_of(self.width as int, j).1 as usize),
                        extinction@[j],
                    ),
            decreases n - i,
        {
            proof {
                assert(self.width > 0) by (nonlinear_arith)
                    requires
                        i < self.width * self.height,
                        0 <= self.height,
                ;
                lemma_index_of_coord(self.width as int, self.height as int, i as int);
            }
            let (x, y) = self.index_to_coord(i);
            let ember = self.has_ember(x, y);
            let b = next_fire(self.cell_land[i], self.cell_fire[i], ignition[i], ember, extinction[i]);
            fire.push(b);
            i = i + 1;
        }
        proof {
            assert forall|k: int|
                0 <= k < self.embers().len() && #[trigger] self.embers()[k].0 < self.width && self.embers()[k].1
                    < self.height implies {
                let i = index_of(self.width as int, self.embers()[k].0 as int, self.embers()[k].1 as int);
                self.land()[i] && !self.fire()[i] ==> fire@[i]
            } by {
                let e = self.embers()[k];
                let i = index_of(self.width as int, e.0 as int, e.1 as int);
                lemma_index_in_grid(self.width as int, self.height as int, e.0 as int, e.1 as int);
                lemma_coord_of_index(self.width as int, e.0 as int, e.1 as int);
                assert(self.embers().contains(e));
                assert(self.ember_at(coord_of(self.width as int, i).0 as usize, coord_of(self.width as int, i).1 as usize));
            }
        }
        CellGrid {
            width: self.width,
            height: self.height,
            cell_land: self.cell_land.clone(),
            cell_fire: fire,
            embers,
        }
    }
}

} // verus!
