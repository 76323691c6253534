//! Semantic-version bumping for a build descriptor and a package manifest.
//!
//! The library works on text already read into memory: it parses the current
//! version and build counter out of the lines of each file, computes the next
//! values for a release class, and produces the rewritten lines.
pub mod error;
pub mod patcher;
pub mod readback;
pub mod text;
pub mod upgrader;
pub mod version;
