use get_dir_hash::{
    cmp_case_insensitive, compose_digest, digest_files, encode_metadata, hex_lower, make_rel_unix,
    order_records, parse_pattern_lines, path_to_unix_string, select_candidates, ContentHasher, FileMeta,
    FileRecord, IgnoreMatcher, Options, PathPart, PatternError, Permissions, WalkEntry,
};
use std::cmp::Ordering;

fn normal(s: &str) -> PathPart {
    PathPart::Normal(s.to_string())
}

fn parts(rel: &str) -> Vec<PathPart> {
    rel.split('/').map(normal).collect()
}

fn content_digest(bytes: &[u8]) -> [u8; 32] {
    let mut h = ContentHasher::new();
    h.update(bytes);
    h.finish()
}

fn rec(path: &str, content: &[u8]) -> FileRecord {
    FileRecord { path: path.to_string(), content: content_digest(content), meta: None }
}

fn rec_meta(path: &str, content: &[u8], secs: u64) -> FileRecord {
    FileRecord {
        path: path.to_string(),
        content: content_digest(content),
        meta: Some(FileMeta { permissions: Permissions::Mode(0o100644), modified: Some((secs, 0)) }),
    }
}

/// Hashes a tree given as (relative path, content) pairs under `root`, the
/// way a walk would report it, with inline ignore patterns.
fn tree_digest(root: &[&str], files: &[(&str, &[u8])], ignores: &[&str], case_sensitive: bool) -> String {
    let root_parts: Vec<PathPart> =
        std::iter::once(PathPart::RootDir).chain(root.iter().map(|s| normal(s))).collect();
    let entries: Vec<WalkEntry> = files
        .iter()
        .map(|(rel, _)| {
            let mut path = root_parts.clone();
            path.extend(parts(rel));
            WalkEntry { path, is_file: true }
        })
        .collect();
    let pats: Vec<String> = ignores.iter().map(|s| s.to_string()).collect();
    let matcher = IgnoreMatcher::compile(&pats).ok().unwrap();
    let cands = select_candidates(&root_parts, &entries, &matcher);
    let records: Vec<FileRecord> = cands.iter().map(|c| rec(&c.rel, files[c.index].1)).collect();
    digest_files(records, case_sensitive, false)
}

#[test]
fn hex_lower_renders_each_byte() {
    assert_eq!(hex_lower(&[0x00, 0xff, 0x1a, 0x9c]), "00ff1a9c");
    assert_eq!(hex_lower(&[]), "");
}

#[test]
fn content_hasher_streams_chunks() {
    let mut h = ContentHasher::new();
    h.update(b"hel");
    h.update(b"lo");
    assert_eq!(h.finish(), *blake3::hash(b"hello").as_bytes());
}

#[test]
fn case_insensitive_comparison() {
    assert_eq!(cmp_case_insensitive("ABC", "abd"), Ordering::Less);
    assert_eq!(cmp_case_insensitive("Readme", "README"), Ordering::Equal);
    assert_eq!(cmp_case_insensitive("b", "A"), Ordering::Greater);
    assert_eq!(cmp_case_insensitive("ab", "a"), Ordering::Greater);
}

#[test]
fn normalize_resolves_dots() {
    let p = vec![normal("a"), PathPart::CurDir, normal("b"), PathPart::ParentDir, normal("c")];
    assert_eq!(path_to_unix_string(&p), "a/c");
}

#[test]
fn normalize_leaves_normalized_path() {
    assert_eq!(path_to_unix_string(&parts("a/b/c.txt")), "a/b/c.txt");
    let once = path_to_unix_string(&parts("x/y"));
    assert_eq!(path_to_unix_string(&parts(&once)), once);
}

#[test]
fn normalize_parent_above_start_is_dropped() {
    let p = vec![PathPart::ParentDir, normal("a")];
    assert_eq!(path_to_unix_string(&p), "a");
}

#[test]
fn relative_path_under_root() {
    let root = vec![PathPart::RootDir, normal("r")];
    let path = vec![PathPart::RootDir, normal("r"), normal("x"), normal("y.txt")];
    assert_eq!(make_rel_unix(&root, &path), Some("x/y.txt".to_string()));
    let other = vec![PathPart::RootDir, normal("s"), normal("y.txt")];
    assert_eq!(make_rel_unix(&root, &other), None);
}

#[test]
fn pattern_file_lines() {
    let text = "  # comment\n\n!keep.txt\n target/** \r\nb.txt";
    assert_eq!(parse_pattern_lines(text), vec!["target/**".to_string(), "b.txt".to_string()]);
    assert!(parse_pattern_lines("").is_empty());
}

#[test]
fn matcher_matches_union_of_patterns() {
    let m = IgnoreMatcher::compile(&vec!["b.txt".to_string(), "logs\\*.log".to_string()]).ok().unwrap();
    assert!(m.is_ignored("b.txt"));
    assert!(m.is_ignored("logs/x.log"));
    assert!(!m.is_ignored("a.txt"));
}

#[test]
fn matcher_from_files_and_inline() {
    let m = IgnoreMatcher::from_sources(&vec!["# c\nb.txt\n".to_string()], &vec!["*.tmp".to_string()])
        .ok()
        .unwrap();
    assert!(m.is_ignored("b.txt"));
    assert!(m.is_ignored("x.tmp"));
    assert!(!m.is_ignored("a.txt"));
}

#[test]
fn matcher_rejects_invalid_glob() {
    match IgnoreMatcher::compile(&vec!["ok".to_string(), "a[".to_string()]) {
        Err(PatternError::InvalidGlob(p)) => assert_eq!(p, "a["),
        _ => panic!("expected an invalid glob"),
    }
}

#[test]
fn empty_matcher_ignores_nothing() {
    let m = IgnoreMatcher::compile(&vec![]).ok().unwrap();
    assert!(!m.is_ignored("a.txt"));
}

#[test]
fn selection_skips_directories_ignored_and_outside() {
    let root = vec![PathPart::RootDir, normal("r")];
    let mut a = root.clone();
    a.push(normal("a.txt"));
    let mut b = root.clone();
    b.push(normal("b.txt"));
    let mut d = root.clone();
    d.push(normal("sub"));
    let outside = vec![PathPart::RootDir, normal("q"), normal("a.txt")];
    let entries = vec![
        WalkEntry { path: a, is_file: true },
        WalkEntry { path: b, is_file: true },
        WalkEntry { path: d, is_file: false },
        WalkEntry { path: outside, is_file: true },
    ];
    let m = IgnoreMatcher::compile(&vec!["b.txt".to_string()]).ok().unwrap();
    let c = select_candidates(&root, &entries, &m);
    assert_eq!(c.len(), 1);
    assert_eq!(c[0].rel, "a.txt");
    assert_eq!(c[0].index, 0);
}

#[test]
fn metadata_frame_bytes() {
    let m = FileMeta { permissions: Permissions::Mode(0x0102_0304), modified: Some((5, 7)) };
    assert_eq!(
        encode_metadata(&m),
        vec![0, 77, 0, 4, 3, 2, 1, 5, 0, 0, 0, 0, 0, 0, 0, 7, 0, 0, 0]
    );
    let r = FileMeta { permissions: Permissions::ReadOnly(true), modified: None };
    assert_eq!(encode_metadata(&r), vec![0, 77, 0, 1]);
}

#[test]
fn empty_tree_digest_is_domain_tag_hash() {
    let expected = blake3::hash(b"get_dir_hash-v1\0").to_hex().to_string();
    assert_eq!(compose_digest(&vec![], true, false), expected);
    assert_eq!(tree_digest(&["one"], &[], &[], true), expected);
    assert_eq!(tree_digest(&["two", "deeper"], &[], &[], true), expected);
}

#[test]
fn single_record_framing() {
    let r = rec("a.txt", b"hello");
    let mut stream = b"get_dir_hash-v1\0F\0a.txt\0".to_vec();
    stream.extend_from_slice(blake3::hash(b"hello").as_bytes());
    let expected = blake3::hash(&stream).to_hex().to_string();
    assert_eq!(compose_digest(&vec![r], true, false), expected);
}

#[test]
fn digest_independent_of_walk_order() {
    let one = vec![rec("b/c.txt", b"x"), rec("a.txt", b"y"), rec("B.txt", b"z")];
    let two = vec![rec("a.txt", b"y"), rec("B.txt", b"z"), rec("b/c.txt", b"x")];
    assert_eq!(digest_files(one.clone(), true, false), digest_files(two.clone(), true, false));
    assert_eq!(digest_files(one, false, false), digest_files(two, false, false));
}

#[test]
fn ordering_by_bytes_and_by_folded_bytes() {
    let rs = vec![rec("b", b""), rec("a", b""), rec("C", b"")];
    let cs: Vec<String> = order_records(rs.clone(), true).into_iter().map(|r| r.path).collect();
    assert_eq!(cs, vec!["C", "a", "b"]);
    let ci: Vec<String> = order_records(rs, false).into_iter().map(|r| r.path).collect();
    assert_eq!(ci, vec!["a", "b", "C"]);
}

#[test]
fn equal_keys_keep_walk_order() {
    let rs = vec![rec("B", b"1"), rec("a", b"2"), rec("b", b"3")];
    let paths: Vec<String> = order_records(rs, false).into_iter().map(|r| r.path).collect();
    assert_eq!(paths, vec!["a", "B", "b"]);
}

#[test]
fn ignored_file_does_not_change_digest() {
    let without = tree_digest(&["r"], &[("a.txt", b"hello")], &["b.txt"], true);
    let with = tree_digest(&["r"], &[("a.txt", b"hello"), ("b.txt", b"anything")], &["b.txt"], true);
    assert_eq!(without, with);
}

#[test]
fn unrelated_pattern_does_not_change_digest() {
    let files: &[(&str, &[u8])] = &[("a.txt", b"1"), ("b/c.txt", b"2")];
    assert_eq!(tree_digest(&["r"], files, &[], true), tree_digest(&["r"], files, &["*.none"], true));
}

#[test]
fn same_tree_under_different_roots() {
    let files: &[(&str, &[u8])] = &[("a.txt", b"alpha"), ("b/c.txt", b"gamma")];
    assert_eq!(tree_digest(&["home", "one"], files, &[], true), tree_digest(&["tmp", "two", "x"], files, &[], true));
}

#[test]
fn content_change_changes_digest() {
    let a = digest_files(vec![rec("a.txt", b"hello")], true, false);
    let b = digest_files(vec![rec("a.txt", b"hellO")], true, false);
    assert_ne!(a, b);
}

#[test]
fn rename_changes_digest() {
    let a = digest_files(vec![rec("a.txt", b"hello")], true, false);
    let b = digest_files(vec![rec("z.txt", b"hello")], true, false);
    assert_ne!(a, b);
}

#[test]
fn mtime_counts_only_with_metadata() {
    let a = vec![rec_meta("a.txt", b"hello", 100)];
    let b = vec![rec_meta("a.txt", b"hello", 200)];
    assert_eq!(digest_files(a.clone(), true, false), digest_files(b.clone(), true, false));
    assert_ne!(digest_files(a, true, true), digest_files(b, true, true));
}

#[test]
fn case_folding_of_paths() {
    let upper = vec![rec("DIR/A.TXT", b"x"), rec("b.txt", b"y")];
    let lower = vec![rec("dir/a.txt", b"x"), rec("b.txt", b"y")];
    assert_eq!(digest_files(upper.clone(), false, false), digest_files(lower.clone(), false, false));
    assert_ne!(digest_files(upper, true, false), digest_files(lower, true, false));
}

#[test]
fn default_options() {
    let o = Options::default();
    assert!(!o.follow_symlinks);
    assert!(!o.include_metadata);
    assert!(o.case_sensitive_paths);
    assert!(o.ignore_patterns.is_empty());
    assert!(o.ignore_files.is_empty());
    assert!(o.load_dot_get_dir_hash_ignore);
}
