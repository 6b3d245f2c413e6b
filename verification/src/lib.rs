//! A read-only virtual filesystem engine that exposes one set of project
//! directories under several naming schemes at once: flat names with aliases,
//! group directories, and mirrors whose entries are renamed by rule.
//!
//! The engine is a set of in-memory indexes and a dispatcher. It never touches
//! the disk: whoever drives it reads directories and clocks, and hands the
//! results in as plain values.

pub mod config;
pub mod error;
pub mod filesystem;
pub mod groups;
pub mod ids;
pub mod mirrors;
pub mod names;
pub mod node;
pub mod projects;
pub mod renaming;
