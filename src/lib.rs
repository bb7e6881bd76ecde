//! Blocks of a road network: tracing closed loops of road sides, folding dead ends, merging
//! adjacent loops, partitioning, coloring and building polygons.

pub mod coloring;
pub mod conservation;
pub mod graph;
pub mod partition;
pub mod perimeter;
pub mod polygon;
pub mod ring;
pub mod road;
pub mod tools;
pub mod trace;
