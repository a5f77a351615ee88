//! Turns a black-and-white maze raster into a graph of junctions and
//! dead-ends, and walks that graph breadth-first.

pub mod maze;
pub mod classify;
pub mod graph;
pub mod breadth_first_search;
