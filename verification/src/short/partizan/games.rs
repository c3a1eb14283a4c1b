//! Rules of particular games.

pub mod snort;
pub mod snort_components;
pub mod snort_exchange;
pub mod snort_partition;
