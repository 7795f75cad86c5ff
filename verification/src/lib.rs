//! Merge-patch and diff over tree-shaped structured values.
//!
//! `merge_json` applies a merge patch (RFC 7396 semantics) to a target value
//! in place; `create_patch` computes a patch that transforms a source value
//! into a target value, so that applying the computed patch to the source
//! reproduces the target.

pub mod diff;
pub mod laws;
pub mod merge;
pub mod value;

pub use diff::create_patch;
pub use merge::merge_json;
pub use merge::MergeError;
pub use value::Value;
