//! What a caller configures for one digest of a tree.

use std::path::PathBuf;
use vstd::prelude::*;

verus! {

#[verifier::external_type_specification]
#[verifier::external_body]
pub struct ExPathBuf(std::path::PathBuf);

/// Options controlling hashing behavior.
#[derive(Clone, Debug)]
pub struct Options {
    /// Follow symlinks when walking the tree.
    pub follow_symlinks: bool,
    /// Include basic metadata (permissions and modification time).
    pub include_metadata: bool,
    /// Compare and frame paths as they are; when `false`, they are ordered
    /// with ASCII case folded and framed lowercased.
    pub case_sensitive_paths: bool,
    /// Extra ignore patterns, relative to the root.
    pub ignore_patterns: Vec<String>,
    /// Files of ignore patterns, one per line, `#` for comments.
    pub ignore_files: Vec<PathBuf>,
    /// Whether `.get_dir_hash_ignore` in the root is read as a pattern file.
    pub load_dot_get_dir_hash_ignore: bool,
}

impl Default for Options {
    fn default() -> (r: Self)
        ensures
            !r.follow_symlinks,
            !r.include_metadata,
            r.case_sensitive_paths,
            r.ignore_patterns@.len() == 0,
            r.ignore_files@.len() == 0,
            r.load_dot_get_dir_hash_ignore,
    {
        Options {
            follow_symlinks: false,
            include_metadata: false,
            case_sensitive_paths: true,
            ignore_patterns: Vec::new(),
            ignore_files: Vec::new(),
            load_dot_get_dir_hash_ignore: true,
        }
    }
}

} // verus!
