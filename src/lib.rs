//! An implicit (array-embedded) binary search tree built for the
//! clone / tear down / refill cycle: plain and interval variants.

pub mod base;
pub mod model;
pub mod repr;
pub mod drivers;
pub mod plain_tree;
pub mod interval;
pub mod interval_tree;
pub mod external_api;
