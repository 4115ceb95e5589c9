//! A small registry of named links: an ordered collection with
//! add/update/delete/reorder operations, a bounded tray-menu projection,
//! and a textual storage encoding that survives corrupt input.

pub mod item;
pub mod registry;
pub mod codec;
pub mod menu;
