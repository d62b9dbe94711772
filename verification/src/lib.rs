//! The discrete layer of a wildfire cellular automaton: the grid of land and
//! water cells, which of them burn, the embers that fly ahead of the fire, the
//! neighbourhoods over which fire spreads, and the integer parts of terrain
//! noise and seeding.

pub mod grid;
pub mod neighborhood;
pub mod step;
pub mod noise;
pub mod seed;
