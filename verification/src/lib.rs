//! A stable, in-place sort for slices of `i32`: fixed-size runs are sorted by
//! insertion, then merged bottom-up in passes of doubling width.

pub mod laws;
pub mod lemmas;
pub mod merger;
pub mod model;
pub mod parallel;
pub mod run_sorter;
pub mod scheduler;
pub mod step;
