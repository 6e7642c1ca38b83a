//! A collection of small, independent puzzle solvers.
//!
//! The centrepiece is the grid patrol simulation with loop detection
//! (the `patrol` module): a directional state machine that walks a guard
//! over a two-dimensional grid, together with a brute-force search for
//! obstruction placements that trap the guard in a loop.  The remaining
//! modules hold the computational cores of the other solvers: location
//! list pairing, report safety checks, memory-instruction scanning,
//! word searching, page ordering, calibration-equation evaluation and
//! antinode geometry.

pub mod antinodes;
pub mod calibration;
pub mod mul_scan;
pub mod page_order;
pub mod pairing;
pub mod patrol;
pub mod reports;
pub mod word_search;
