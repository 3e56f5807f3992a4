//! The units: components that collect and process data.

pub mod combine;
pub mod rtr;
pub mod slurm;
pub mod json;
