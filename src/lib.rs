//! Puzzle solvers over small text inputs; the centre piece is an interval
//! remapping engine that pushes half-open ranges through ordered stages of
//! source-to-destination translations.

pub mod calibration;
pub mod camel_cards;
pub mod cubes;
pub mod error;
pub mod numbers;
pub mod races;
pub mod remap;
pub mod schematic;
pub mod scratchcards;
pub mod sums;
