//! Verified core of a scoped version-tag manager.
//!
//! A tag string such as `backend/1.2.3` carries an optional scope prefix,
//! a single separator character, and a semantic version. This crate parses
//! such tags, groups a repository's tag list by scope with a strict
//! semver-triple ordering, and computes successor versions.

pub mod chars;
pub mod registry;
pub mod tag;
pub mod version;

pub use registry::{group_tags_by_scope, ScopeError, ScopeGroup, ScopeRegistry, TagEntry};
pub use tag::{Part, ParseError, ScopedTag};
pub use version::SemVer;
