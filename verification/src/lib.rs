//! One-directional synchronization of a remote photo album into a local
//! directory: the reconciliation engine that decides what to download, what
//! to skip and what to delete, together with the string logic it rests on
//! (filename stems, extension derivation, endpoint URLs, configuration
//! normalization).

pub mod config;
pub mod endpoints;
pub mod naming;
pub mod privileges;
pub mod reconcile;
pub mod strings;
