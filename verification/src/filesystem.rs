//! The questions that the library puts to the filesystem.
//!
//! Each answer depends on what is on disk at the moment of the call, so
//! nothing is claimed of any of them: two calls on one path may differ.

use vstd::prelude::*;

verus! {

/// The resolved, absolute form of `entry`, with `.`, `..` and symbolic links
/// followed, or `None` where the path cannot be resolved.
///
/// Calls `std::path::Path::canonicalize`; an error of any kind gives `None`.
/// Nothing is claimed of the answer.
#[verifier::external_body]
pub(crate) fn canonical_text(entry: &str) -> (resolved: Option<String>) {
    match std::path::Path::new(entry).canonicalize() {
        Ok(path) => Some(path.to_string_lossy().to_string()),
        Err(_) => None,
    }
}

/// Whether `entry` names something that exists.
///
/// Calls `std::path::Path::exists`. Nothing is claimed of the answer.
#[verifier::external_body]
pub(crate) fn path_exists(entry: &str) -> (found: bool) {
    std::path::Path::new(entry).exists()
}

/// Whether `entry` names a directory.
///
/// Calls `std::path::Path::is_dir`. Nothing is claimed of the answer.
#[verifier::external_body]
pub(crate) fn path_is_dir(entry: &str) -> (found: bool) {
    std::path::Path::new(entry).is_dir()
}

} // verus!
