//! The application layer of dam: the rules and use cases that sit between
//! the domain objects and the store, remote helpers and environment.

pub mod config;
pub mod contract;
pub mod credentials;
pub mod domain;
pub mod errors;
pub mod merge;
pub mod ports;
pub mod remote;
pub mod secret;
pub mod use_cases;

pub use domain::{CommitId, Oid};
pub use secret::Secret;
