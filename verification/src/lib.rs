//! Verified core of a size-table generator: parses free-text garment
//! measurement cells into name/value pairs, classifies spreadsheet columns,
//! deduplicates and groups rows per item code, resolves measurement names
//! through a glossary, and assembles one display table per item.

pub mod classify;
pub mod errors;
pub mod grammar;
pub mod group;
pub mod laws;
pub mod models;
pub mod resolve;
pub mod tables;
pub mod text;
