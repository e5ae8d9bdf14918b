//! Core of a decentralized authenticated file system: identity and session
//! registry, an encrypted chunked file store with per-recipient key wrapping,
//! peer discovery and messaging state, and a federated recommendation model.

pub mod codec;
pub mod crypto;
pub mod errors;
pub mod filestore;
pub mod host;
pub mod messaging;
pub mod models;
pub mod peer;
pub mod recommend;
pub mod registry;
pub mod shell;
pub mod store;
pub mod text;
pub mod util;
pub mod web;
pub mod wire;
