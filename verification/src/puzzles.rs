//! Worked puzzles: each module states one puzzle as mathematics and solves
//! it with the search and evaluation tools of this crate.

pub mod balloons;
pub mod board_walk;
pub mod catapult;
pub mod change;
pub mod chariots;
pub mod cipher;
pub mod congruences;
pub mod constellations;
pub mod dancers;
pub mod descent;
pub mod dice;
pub mod dragon;
pub mod ducks;
pub mod engraving;
pub mod fire;
pub mod flight;
pub mod flock;
pub mod glider;
pub mod herbs;
pub mod irrigation;
pub mod kin;
pub mod level_maze;
pub mod lists;
pub mod measures;
pub mod mine;
pub mod names;
pub mod plants;
pub mod population;
pub mod pulls;
pub mod powers;
pub mod remainders;
pub mod runes;
pub mod sheep;
pub mod shrine;
pub mod spells;
pub mod swords;
pub mod tiles;
pub mod tokens;
pub mod track;
pub mod volcano;
pub mod trampolines;
pub mod tree;
pub mod walls;
pub mod wheels;
