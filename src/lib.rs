//! Splits a suite of test files over parallel nodes so that the recorded run
//! times of the nodes come out as even as possible.

pub mod distribute;
pub mod file_set;
pub mod laws;
pub mod path_order;
pub mod record;
pub mod report;
