//! Deterministic perfect-maze generation on a rectangular grid.
//!
//! A maze is carved by a seeded depth-first walk over the rooms of the grid
//! and handed out as a bitmap with one bit per wall slot. The walk is stated
//! as a state machine in [`carve`] and run on machine integers by
//! [`builder`]; [`tree`] proves that what it carves is a spanning tree of the
//! grid. [`packer`] turns wall states into bytes and back, [`dump`] reads a
//! maze back from a log, and [`drawing`] says what a renderer draws of it.

pub mod builder;
pub mod carve;
pub mod contract;
pub mod drawing;
pub mod dump;
pub mod error;
pub mod grid;
pub mod packer;
pub mod rng;
pub mod tally;
pub mod tree;
