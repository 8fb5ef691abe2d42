//! Solvers for five line-oriented puzzles: calibration digits, cube games,
//! engine schematics, scratchcards and a seed almanac.
pub mod text;
pub mod scratchcard;
pub mod almanac;
pub mod cubes;
pub mod calibration;
pub mod schematic;
