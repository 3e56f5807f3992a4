//! The targets: components that make the data of a unit available.

pub mod rtr;
pub mod http;
