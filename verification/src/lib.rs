//! The judging engine of a competitive-programming test harness.
//!
//! The engine is free of I/O: every function maps plain values to plain
//! values, and the caller performs what the returned actions ask for.

pub mod cargo;
pub mod config;
pub mod decimal;
pub mod errors;
pub mod interactive;
pub mod judging;
pub mod outcome;
pub mod render;
pub mod rounding;
pub mod schedule;
pub mod scheduler;
pub mod setup;
pub mod simple;
pub mod testsuite;
pub mod text;
