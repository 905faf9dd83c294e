//! Turn a version-control commit history into a structured changelog.
//!
//! The library parses commit messages against the conventional-commit
//! grammar, partitions an oldest-first commit sequence into release-bounded
//! changesets, extracts contributor and pull-request metadata, and assembles
//! an ordered changelog document ready for rendering.

pub mod changelog;
pub mod config;
pub mod error;
pub mod git;
pub mod message;
pub mod render;
pub mod text;
pub mod version;
