//! Conway's Game of Life on a torus.
//!
//! - [`grid`] is the mathematical model: a rectangular field of cells whose
//!   edges are glued together, and the rule that takes one generation to
//!   the next.
//! - [`world`] is the engine that runs it: cells in memory that can be
//!   queried, edited, advanced and wrapped onto a torus of another size.
//! - [`torus`] moves coordinates around the edges.
//! - [`scan`] and [`fold`] hold what is proved about a generation's list
//!   of changes and about resizing; [`patterns`] follows a block and a
//!   blinker through their generations.
//! - [`parser`] reads patterns written as text.
//! - [`control`] decides what the events of an interactive session ask
//!   for.

pub mod control;
pub mod fold;
pub mod grid;
pub mod parser;
pub mod patterns;
pub mod scan;
pub mod torus;
pub mod world;
