//! Verified core of a proof-generation profiler for Noir circuits: the
//! parsing of measurement output, the reduction of repeated samples to
//! medians, and the measurement run as a state machine.
pub mod cli;
pub mod decimal;
pub mod gates;
pub mod measure;
pub mod pipeline;
pub mod report;
pub mod text;
pub mod tools;
