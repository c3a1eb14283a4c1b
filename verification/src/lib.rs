//! Combinatorial game theory: canonical forms of short partizan games,
//! the number-up-star algebra, and the game of Snort on graphs.

pub mod graph;
pub mod latex;
pub mod numeric;
pub mod rw_hash_map;
pub mod short;
