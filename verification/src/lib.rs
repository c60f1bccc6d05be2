//! Listing helper for a launcher menu over known note vaults.
//!
//! The heart of the crate is the display-name disambiguation in
//! [`display_name`]: given a list of filesystem paths, it derives for each
//! one the shortest root-to-leaf path suffix that still tells it apart from
//! every other path in the list. The remaining modules carry the pure parts
//! of the surrounding tool: its configuration values, the merging of vault
//! lists, and the line protocol spoken to the launcher.

pub mod args;
pub mod config;
pub mod display_name;
pub mod menu;
pub mod vaults;
