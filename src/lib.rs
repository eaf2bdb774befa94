//! Temporal reachability on randomly time-labelled graphs: edge labelling,
//! percolation masks, foremost trees and the reachability properties built on them.
pub mod graph;
pub mod labels;
pub mod percolation;
pub mod foremost;
pub mod properties;
pub mod simulation;
