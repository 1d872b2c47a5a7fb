//! A solver for the Nurimisaki logic puzzle.
//!
//! A puzzle is a rectangular grid in which some cells carry a "cape" clue:
//! a cell that must end up white and that forms the tip of the white
//! region, optionally annotated with the exact length of the white arm
//! leaving it. The solver colors every cell black or white so that the
//! five puzzle rules hold, or reports that no such coloring exists.

pub mod board;
pub mod examples;
pub mod square;
pub mod uf;
