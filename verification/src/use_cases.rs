//! The verbs dam offers, each a use case over the ports.

pub mod agenda;
pub mod commit;
pub mod complete;
pub mod connect;
pub mod edit;
pub mod freshness;
pub mod list;
pub mod new_object;
pub mod pull;
pub mod push;
pub mod relocate;
pub mod remove;
pub mod resolve;
pub mod restore;
pub mod stage;
pub mod status;
pub mod subtree;
