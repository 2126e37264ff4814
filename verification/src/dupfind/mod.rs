pub mod config;
pub mod duplicates;
pub mod grouping;
pub mod hashing;
pub mod paths;
pub mod report;
