//! Simulations to run the harness against.

pub mod minimal;
