//! A genetic-algorithm solver for the travelling salesman problem.
//!
//! Cities are points of the integer plane. A tour visits every city once and
//! returns to where it began. The solver keeps a population of tours and, one
//! generation after another, selects parents by fitness, crosses them over,
//! mutates the children and carries the best tour forward unchanged.
//!
//! All arithmetic is exact. Distances are fixed-point numbers with
//! [`geometry::DISTANCE_SCALE`] units to one unit of the plane, and a fitness
//! is the reciprocal of a length in the same manner.
//!
//! Chance enters through a generator of the `rand` crate that the caller
//! hands in. What is done with a draw is a function of the draw: the cut
//! points decide the children ([`crossover::crossover_at`]), the plan decides
//! the mutation ([`mutation::mutate_by_plan`]), and the draw on the wheel
//! decides the parent ([`selection::wheel_index`]). The functions that draw
//! say which outcomes the draws allow.

pub mod crossover;
pub mod geometry;
pub mod mutation;
pub mod population;
pub mod random;
pub mod selection;
pub mod solver;
pub mod tour;
