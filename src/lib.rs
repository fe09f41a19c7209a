//! A link-graph indexer for a vault of plain-text notes: wikilink extraction,
//! name resolution, a link-graph store and filesystem reconciliation.
pub mod commands;
pub mod db;
pub mod file_index;
pub mod indexer;
pub mod models;
pub mod path;
pub mod sanitize;
pub mod text;
pub mod wikilink;
