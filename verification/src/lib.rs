//! `rlike` is a DataFrame library that combines expressive Rust-like statements
//! with R-like data objects. The primary structure of interest is the
//! column-oriented `DataFrame`.
pub mod types;
pub mod data_frame;
