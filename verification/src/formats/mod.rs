//! The output formats for payload sets.

pub mod json;
pub mod output;
