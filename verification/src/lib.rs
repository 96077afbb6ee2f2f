//! Blizzard basin: a walled grid whose interior is crossed by blizzards that
//! wrap around it, the flags of any cell at any minute computed from the
//! layout of minute 0, and the search for a quickest route from the entry in
//! the top wall to the exit in the bottom wall.
//!
//! `tiles` holds the flags and the catalog of obstacle kinds, `point` the
//! cells in time, `level` the grid and its occupancy at any minute. `cycle`
//! and `drift` prove that the occupancy is periodic and that it agrees with a
//! simulation minute by minute. `route`, `bound` and `search` define routes
//! and find a quickest one. `parse` and `render` read and write maps, and
//! `roundtrip` proves that they undo each other. `day23` and `day24` hold the
//! argument records of the two commands.

pub mod bound;
pub mod cycle;
pub mod day23;
pub mod day24;
pub mod drift;
pub mod level;
pub mod parse;
pub mod point;
pub mod render;
pub mod roundtrip;
pub mod route;
pub mod search;
pub mod tiles;
