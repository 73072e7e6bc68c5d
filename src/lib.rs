//! Symbol handling for the system libraries of Apple platforms: SDK
//! identities, a flat symbol database, its writer and its reader.
pub mod error;
pub mod sdk;
pub mod schema;
pub mod uuids;
pub mod memdb;
pub mod writer;
pub mod config;
pub mod dsym;
pub mod laws;
