//! Maze generation on a rectangular grid.
//!
//! A [`grid::Grid`] starts fully walled. A generator from [`maze`] takes down one wall at a
//! time, and a [`disjoint_set::DisjointSet`] over the cells keeps track of which cells are
//! connected already, so that no wall ever comes down between two of them. A complete maze
//! is therefore a spanning tree of the grid.
//!
//! The contracts speak of plain values: a disjoint set is seen as the parent map of a
//! forest ([`forest`]), a grid as its wall masks and regions ([`grid::model`]). What holds
//! of every forest and of every maze under construction is proved in [`forest::proofs`]
//! and [`grid::proofs`].

pub mod disjoint_set;
pub mod forest;
pub mod grid;
pub mod maze;
mod random;
