//! The smaller server, for Cargo and npm manifests alone.

pub mod laws;
pub mod manifest;
pub mod manifest_laws;
pub mod registry;
pub mod server;
pub mod server_laws;
pub mod update;
