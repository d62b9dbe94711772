use wildfire::grid::{CellGrid, CellLook};
use wildfire::noise::hash_bits;
use wildfire::seed::{choose_seed, seed_from, FIRE_SEED, TERRAIN_SEED};
use wildfire::step::{ember_landing, next_fire};

fn all_land(w: usize, h: usize) -> CellGrid {
    CellGrid::new(w, h, vec![true; w * h])
}

fn burning(grid: &CellGrid) -> Vec<bool> {
    (0..grid.width * grid.height).map(|i| grid.is_burning(i)).collect()
}

#[test]
fn new_grid_has_no_fire() {
    let land = vec![true, false, true, true, false, true];
    let grid = CellGrid::new(3, 2, land.clone());
    assert_eq!(grid.width, 3);
    assert_eq!(grid.height, 2);
    for i in 0..6 {
        assert_eq!(grid.is_land(i), land[i]);
        assert!(!grid.is_burning(i));
    }
    assert!(!grid.has_ember(0, 0));
}

#[test]
fn index_and_coord_round_trip() {
    let grid = all_land(7, 5);
    assert_eq!(grid.coord_to_index(3, 2), 17);
    assert_eq!(grid.index_to_coord(17), (3, 2));
    assert_eq!(grid.index_to_coord(0), (0, 0));
    assert_eq!(grid.index_to_coord(34), (6, 4));
    for i in 0..35 {
        let (x, y) = grid.index_to_coord(i);
        assert!(x < 7 && y < 5);
        assert_eq!(grid.coord_to_index(x, y), i);
    }
}

#[test]
fn cell_at_checks_bounds() {
    let grid = all_land(4, 3);
    assert_eq!(grid.cell_at(0, 0), Some((0, 0)));
    assert_eq!(grid.cell_at(3, 2), Some((3, 2)));
    assert_eq!(grid.cell_at(-1, 0), None);
    assert_eq!(grid.cell_at(0, -1), None);
    assert_eq!(grid.cell_at(4, 0), None);
    assert_eq!(grid.cell_at(0, 3), None);
}

#[test]
fn start_and_douse_fire() {
    let mut grid = all_land(4, 3);
    grid.start_fire(2, 1);
    assert!(grid.is_burning(6));
    assert_eq!(burning(&grid).iter().filter(|b| **b).count(), 1);
    grid.start_fire(2, 1);
    assert!(grid.is_burning(6));
    grid.douse_fire(2, 1);
    assert!(!grid.is_burning(6));
    assert_eq!(burning(&grid).iter().filter(|b| **b).count(), 0);
}

#[test]
fn fire_outside_the_grid_is_ignored() {
    let mut grid = all_land(4, 3);
    grid.start_fire(4, 0);
    grid.start_fire(0, 3);
    grid.start_fire(usize::MAX, usize::MAX);
    assert_eq!(burning(&grid), vec![false; 12]);
    grid.start_fire(3, 2);
    grid.douse_fire(4, 2);
    assert!(grid.is_burning(11));
}

#[test]
fn appearance_of_cells() {
    let mut grid = CellGrid::new(2, 1, vec![false, true]);
    assert_eq!(grid.appearance(0), CellLook::Water);
    assert_eq!(grid.appearance(1), CellLook::Ground);
    grid.start_fire(1, 0);
    assert_eq!(grid.appearance(1), CellLook::Burning);
    grid.start_fire(0, 0);
    assert_eq!(grid.appearance(0), CellLook::Water);
}

#[test]
fn neighbors_in_a_corner() {
    let grid = all_land(3, 3);
    assert_eq!(grid.neighbors(0, 0, 1), vec![(1, 1, 0), (3, 0, 1), (4, 1, 1)]);
}

#[test]
fn neighbors_in_the_middle() {
    let grid = all_land(3, 3);
    assert_eq!(
        grid.neighbors(1, 1, 1),
        vec![(0, -1, -1), (1, 0, -1), (2, 1, -1), (3, -1, 0), (5, 1, 0), (6, -1, 1), (7, 0, 1), (8, 1, 1)]
    );
    assert_eq!(grid.neighbors(1, 1, 0), vec![]);
}

#[test]
fn neighbors_radius_three() {
    let grid = all_land(10, 10);
    let nb = grid.neighbors(5, 5, 3);
    assert_eq!(nb.len(), 48);
    for w in nb.windows(2) {
        assert!(w[0].0 < w[1].0);
    }
    assert!(nb.iter().all(|e| e.0 != 55));
    assert_eq!(grid.neighbors(0, 0, 3).len(), 15);
}

#[test]
fn neighbors_are_symmetric() {
    let grid = all_land(6, 4);
    for i in 0..24 {
        let (x, y) = grid.index_to_coord(i);
        for (j, dx, dy) in grid.neighbors(x, y, 2) {
            let (nx, ny) = grid.index_to_coord(j);
            assert!(grid.neighbors(nx, ny, 2).contains(&(i, -dx, -dy)));
        }
    }
}

#[test]
fn burning_count_counts_burning_neighbors() {
    let mut grid = all_land(5, 5);
    assert_eq!(grid.burning_count(2, 2, 1), 0);
    grid.start_fire(2, 2);
    assert_eq!(grid.burning_count(2, 2, 1), 0);
    grid.start_fire(1, 1);
    grid.start_fire(3, 2);
    grid.start_fire(0, 0);
    assert_eq!(grid.burning_count(2, 2, 1), 2);
    assert_eq!(grid.burning_count(2, 2, 3), 3);
    assert_eq!(grid.burning_count(0, 0, 1), 1);
}

#[test]
fn burning_count_grows_with_fire() {
    let mut grid = all_land(4, 4);
    let mut last = 0;
    for i in 0..16 {
        let (x, y) = grid.index_to_coord(i);
        grid.start_fire(x, y);
        let c = grid.burning_count(1, 1, 3);
        assert!(c >= last);
        last = c;
    }
    assert_eq!(last, 15);
}

#[test]
fn next_fire_rules() {
    // water keeps its state
    assert!(!next_fire(false, false, true, true, false));
    assert!(next_fire(false, true, false, false, true));
    // burning land stays burning unless it goes out
    assert!(next_fire(true, true, false, false, false));
    assert!(!next_fire(true, true, true, true, true));
    // land that does not burn catches from a roll or an ember
    assert!(next_fire(true, false, true, false, false));
    assert!(next_fire(true, false, false, true, false));
    assert!(!next_fire(true, false, false, false, true));
}

#[test]
fn advance_applies_rolls_and_embers() {
    let land = vec![true, true, false, true, true, true];
    let mut grid = CellGrid::new(3, 2, land.clone());
    grid.start_fire(0, 0);
    grid.start_fire(1, 0);
    grid.start_fire(2, 0); // water, but set burning
    let grid = grid.advance(&vec![false; 6], &vec![false; 6], vec![(1, 1), (9, 9)]);
    assert_eq!(burning(&grid), vec![true, true, true, false, false, false]);
    assert!(grid.has_ember(1, 1));
    assert!(grid.has_ember(9, 9));
    assert!(!grid.has_ember(0, 1));
    let ignition = vec![true, false, true, false, false, true];
    let extinction = vec![true, false, true, true, true, false];
    let next = grid.advance(&ignition, &extinction, vec![]);
    assert_eq!(burning(&next), vec![false, true, true, false, true, true]);
    for i in 0..6 {
        assert_eq!(next.is_land(i), land[i]);
    }
    assert_eq!((next.width, next.height), (3, 2));
    assert!(!next.has_ember(1, 1));
}

#[test]
fn ember_landing_positions() {
    assert_eq!(ember_landing(3, 4, 2, -1), (5, 3));
    assert_eq!(ember_landing(0, 0, 0, 0), (0, 0));
    assert_eq!(ember_landing(1, 2, -2, -3), ((-1i64) as usize, (-1i64) as usize));
    let grid = all_land(3, 3);
    assert_eq!(grid.cell_at(-1, -1), None);
}

#[test]
fn hash_bits_values() {
    assert_eq!(hash_bits(0, 0), 0);
    assert_eq!(hash_bits(1, 0), 2112582102);
    assert_eq!(hash_bits(0, 1), 995271717);
    assert_eq!(hash_bits(3, -7), 998466127);
    assert_eq!(hash_bits(-5, 12), 141153409);
    assert_eq!(hash_bits(i32::MAX, i32::MIN), 838425893);
}

#[test]
fn configured_seeds_are_kept() {
    assert_eq!(choose_seed(42), 42);
    assert_eq!(choose_seed(u64::MAX), u64::MAX);
    let _ = choose_seed(TERRAIN_SEED);
    let _ = choose_seed(FIRE_SEED);
}

#[test]
fn tiny_and_empty_grids() {
    let grid = all_land(1, 1);
    assert_eq!(grid.neighbors(0, 0, 3), vec![]);
    assert_eq!(grid.burning_count(0, 0, 3), 0);
    let empty = CellGrid::new(0, 0, vec![]);
    let next = empty.advance(&vec![], &vec![], vec![]);
    assert_eq!((next.width, next.height), (0, 0));
    let row = CellGrid::new(5, 0, vec![]);
    assert_eq!(row.index_to_coord(7), (2, 1));
}

#[test]
fn path_cells_keeps_points_on_the_grid() {
    let grid = all_land(4, 3);
    let path = vec![(1, 1), (-1, 0), (3, 2), (4, 2), (0, 3), (0, 0)];
    assert_eq!(grid.path_cells(&path), vec![(1, 1, 1), (3, 3, 2), (6, 0, 0)]);
    assert_eq!(grid.path_cells(&vec![]), vec![]);
}

#[test]
fn seed_from_prefers_the_configured_seed() {
    assert_eq!(seed_from(7, 99), 7);
    assert_eq!(seed_from(0, 99), 99);
    assert_eq!(seed_from(0, 0), 0);
}
