//! Bring-up of a Tang9k board: exchanges, probes, records and their command line.

pub mod acceptance;
pub mod cli;
pub mod exchange;
pub mod record;
pub mod report;
pub mod run;
pub mod steps;
