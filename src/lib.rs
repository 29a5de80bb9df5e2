//! Deterministic digests of directory trees.
//!
//! The library holds the logic of the digest: compiling ignore globs,
//! normalizing root-relative paths, choosing which walk entries are hashed,
//! ordering them, framing each file's record and folding everything into one
//! BLAKE3 digest rendered as lowercase hex. Walking the disk and reading
//! files is left to the caller, which hands the library plain values.

pub mod digest;
pub mod hex;
pub mod ignore;
pub mod options;
pub mod order;
pub mod paths;
pub mod record;

pub use digest::ContentHasher;
pub use hex::hex_lower;
pub use ignore::{parse_pattern_lines, select_candidates, Candidate, IgnoreMatcher, PatternError, WalkEntry};
pub use options::Options;
pub use order::cmp_case_insensitive;
pub use paths::{make_rel_unix, path_to_unix_string, PathPart};
pub use record::{compose_digest, digest_files, encode_metadata, order_records, FileMeta, FileRecord, Permissions};
