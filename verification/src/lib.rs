//! Redirect enumeration and wildcard compression for release download URLs.
//!
//! The crate turns a release history (version ranges, versions, download
//! locations) plus a list of aliases into an ordered list of redirect rules,
//! and optionally compresses recurring per-version rules into `:version`
//! wildcard rules without changing which destination a source path reaches.

pub mod enumerate;
pub mod model;
pub mod render;
pub mod wildcard;
pub mod text;
