//! From a child's output to what its caller sees.

pub mod drain;
pub mod laws;
pub mod parts;
pub mod path_laws;
pub mod paths;
pub mod ring;
pub mod run_laws;
pub mod scan;
pub mod spawn;
pub mod spill;
pub mod steps;
