//! A verified maze-solving library: a coordinate codec for human-readable
//! cell labels, a grid builder that materializes a dense cell grid from a
//! sparse maze description, a breadth-first shortest-path search, and a
//! path reconstructor.

pub mod coord;
pub mod grid;
pub mod search;
pub mod solve;

use vstd::prelude::*;

verus! {

/// The failure kinds surfaced by the library.
#[derive(Clone, Copy, Debug, PartialEq, Eq, Structural)]
pub enum MazeError {
    /// A cell label could not be decomposed into a single uppercase
    /// ASCII letter followed by a positive decimal row number.
    MalformedCell,
    /// A grid-size string could not be split into exactly two positive
    /// decimal integers separated by a literal `x`.
    MalformedGridSize,
    /// Breadth-first search exhausted the region reachable from the
    /// entrance without meeting an exit cell.
    NoPathFound,
}

} // verus!
