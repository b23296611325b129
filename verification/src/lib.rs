//! A small verified key-value store with numeric record ids.
//!
//! The store keeps `(id, key, value)` records sorted by id, renders itself
//! to a JSON text for persistence, parses that text back, and turns each
//! command of the surrounding tool into one store operation together with
//! the exact output lines the tool prints. Reading and writing the database
//! file, argument parsing and the clipboard live outside this crate.

pub mod chars;
pub mod codec;
pub mod command;
pub mod store;
