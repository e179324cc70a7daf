//! Dependency versions in manifests: where they stand, which are outdated, and
//! what to put in their place.

pub mod answer_laws;
pub mod cache;
pub mod cargo_edits;
pub mod cargo_laws;
pub mod class_laws;
pub mod comment_laws;
pub mod documents;
pub mod edits;
pub mod entries;
pub mod extension;
pub mod fetch;
pub mod file_laws;
pub mod joined;
pub mod laws;
pub mod lines;
pub mod manifest;
pub mod markers;
pub mod newest;
pub mod npm_edits;
pub mod npm_laws;
pub mod outside;
pub mod place_laws;
pub mod position;
pub mod project_joins;
pub mod project_laws;
pub mod pyproject_edits;
pub mod pyproject_lines;
pub mod python;
pub mod python_edits;
pub mod python_laws;
pub mod python_update;
pub mod references;
pub mod registry;
pub mod registry_laws;
pub mod requirement;
pub mod scan;
pub mod section_laws;
pub mod server;
pub mod server_laws;
pub mod successor;
pub mod table;
pub mod tables;
pub mod text;
pub mod toml;
pub mod update;
pub mod update_laws;
pub mod version;
pub mod version_laws;
pub mod written;
pub mod zeddeps;
