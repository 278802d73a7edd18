//! Watches a kernel-image directory for freshly installed kernels and, when a
//! strictly newer image shows up, rebuilds a firmware boot entry: the old
//! entry is removed and a new one is created by running a user-configured,
//! version-substituted command line.
//!
//! This crate holds the logic of that tool: extracting a numeric version from
//! a filename, ordering versions, tokenizing the boot-creation command
//! template, and deciding what an update cycle must do. The surrounding
//! process — filesystem watching, configuration, spawning — lives outside and
//! hands plain values in.

pub mod pattern;
pub mod version;
pub mod order;
pub mod template;
pub mod controller;
