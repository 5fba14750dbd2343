//! Verified core of a small dotfile/package installation library.
//!
//! The library describes packages (identity, dependencies, version probing
//! and installation), accumulates them in a configuration, and drives an
//! installation run in dependency order.

pub mod package;
pub mod runner;
pub mod text;
