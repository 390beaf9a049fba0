//! A dependency-resolution engine for jobs linked by symbolic resource labels.
//!
//! A job declares the labels it consumes (`In`) and produces (`Out`);
//! registration wires ancestor/child edges between consumers and the
//! producers known at that moment, and lifecycle events report which jobs
//! become free to run.

pub mod deps;
pub mod ids;
pub mod job;
pub mod laws;
pub mod model;
pub mod state;
