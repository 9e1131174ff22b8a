//! Verified core of `nclgen`: resource generation driven by Nickel evaluations.

pub mod paths;
pub mod names;
pub mod pathset;
pub mod outputs;
pub mod nickel;
pub mod project;
pub mod cli;
pub mod written;
