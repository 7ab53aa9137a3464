//! The decisions of a caching, normalising front end for the ClearlyDefined
//! definitions API, each with a contract that says what it decides.

pub mod text;
pub mod json;
pub mod vcs;
pub mod party;
pub mod fault;
pub mod coordinate;
pub mod definition;
pub mod time;
pub mod client;
pub mod cache;
pub mod persist;
pub mod reply;
pub mod stats;
pub mod flight;
pub mod resolve;
pub mod config;
