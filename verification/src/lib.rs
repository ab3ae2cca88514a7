//! Analysis of batch build-testing experiment reports: given a manifest of
//! units and per-configuration runs, classify the raw logs of the runs that
//! failed in an unknown way against a table of literal signatures and a fixed
//! error-code pattern, and render a deterministic textual report.

pub mod analysis;
pub mod config;
pub mod findings;
pub mod order;
pub mod render;
pub mod report;
pub mod sanitize;
pub mod signatures;
pub mod text;
pub mod unclassified;
