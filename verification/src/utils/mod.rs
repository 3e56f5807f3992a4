//! Helpers used throughout.

pub mod http;
pub mod time;
