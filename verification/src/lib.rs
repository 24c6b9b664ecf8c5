//! Detection and reporting of disabled lint rules in source trees.

pub mod text;
pub mod paths;
pub mod cli;
pub mod config;
pub mod counts;
pub mod owners;
pub mod scan;
pub mod report;
pub mod sort;
pub mod trend;
pub mod tui;
