//! Setting up the places that commands are started from.

pub mod shims;
