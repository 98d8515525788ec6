//! Instrumented comparison of sequential and binary search over sorted
//! integer arrays: verified search algorithms that report how many element
//! comparisons they performed, a benchmark driver that averages repeated
//! runs, and a verified encoder/decoder for the tabular result file.

pub mod bench;
pub mod clock;
pub mod csv_export;
pub mod rng;
pub mod search;
pub mod types;
