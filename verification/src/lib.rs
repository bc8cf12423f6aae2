//! Alphabetical ordering of the dependency tables of Cargo manifests.
//!
//! The crate sorts the keys of the `dependencies` and `dev-dependencies`
//! tables of a manifest and leaves the values attached to them untouched.

pub mod driver;
pub mod entries;
pub mod locate;
pub mod manifest;
pub mod order;
pub mod table;
pub mod toml;
