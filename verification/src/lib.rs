//! RTRTR: collecting, processing and distributing route filtering data.
//!
//! The library holds the data handling at the heart of an RPKI data proxy:
//! payload items and their order ([`rtr`]), the immutable, shareable sets
//! of payload and the differences between them ([`payload`]).

pub mod payload;
pub mod rtr;
pub mod text;
pub mod formats;
pub mod targets;
pub mod units;
pub mod comms;
pub mod log;
pub mod metrics;
pub mod http;
pub mod config;
pub mod manager;
pub mod utils;
