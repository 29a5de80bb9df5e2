//! Ignore patterns: parsing pattern files, compiling globs with globset,
//! and choosing which walk entries are hashed.

use crate::paths::{is_part_prefix, make_rel_unix, unix_string, PathPart};
use globset::{Glob, GlobSet, GlobSetBuilder};
use vstd::prelude::*;
use vstd::string::StrSliceExecFns;

verus! {

#[verifier::external_type_specification]
#[verifier::external_body]
pub struct ExGlob(globset::Glob);

#[verifier::external_type_specification]
#[verifier::external_body]
pub struct ExGlobSetBuilder(globset::GlobSetBuilder);

#[verifier::external_type_specification]
#[verifier::external_body]
pub struct ExGlobSet(globset::GlobSet);

#[verifier::external_type_specification]
#[verifier::external_body]
pub struct ExGlobError(globset::Error);

/// Whether a pattern parses as a glob with default options.
pub uninterp spec fn glob_accepts(pattern: Seq<char>) -> bool;

/// The pattern text a parsed glob was built from.
pub uninterp spec fn glob_text(g: Glob) -> Seq<char>;

/// The pattern texts added to a builder so far, in order.
pub uninterp spec fn builder_patterns(b: GlobSetBuilder) -> Seq<Seq<char>>;

/// Whether a set of globs with these patterns can be compiled.
pub uninterp spec fn globs_build(patterns: Seq<Seq<char>>) -> bool;

/// The pattern texts a compiled set holds.
pub uninterp spec fn set_patterns(s: GlobSet) -> Seq<Seq<char>>;

/// Whether one glob pattern matches a path.
pub uninterp spec fn glob_matches(pattern: Seq<char>, path: Seq<char>) -> bool;

/// Relies on globset::Glob::new: whether parsing succeeds depends on the
/// pattern alone, and the glob keeps its pattern text (`Glob::glob`).
#[verifier::external_body]
fn parse_glob(p: &str) -> (r: Result<Glob, globset::Error>)
    ensures
        r is Ok <==> glob_accepts(p@),
        r is Ok ==> glob_text(r->Ok_0) == p@,
{
    Glob::new(p)
}

/// Relies on globset::GlobSetBuilder::new: a builder with no globs.
#[verifier::external_body]
fn builder_new() -> (r: GlobSetBuilder)
    ensures
        builder_patterns(r) == Seq::<Seq<char>>::empty(),
{
    GlobSetBuilder::new()
}

/// Relies on globset::GlobSetBuilder::add: the glob is appended to the
/// builder's list.
#[verifier::external_body]
fn builder_add(b: &mut GlobSetBuilder, g: Glob)
    ensures
        builder_patterns(*final(b)) == builder_patterns(*old(b)).push(glob_text(g)),
{
    b.add(g);
}

/// Relies on globset::GlobSetBuilder::build: a set of all globs added, or
/// an error where they cannot be compiled together.
#[verifier::external_body]
fn builder_build(b: &GlobSetBuilder) -> (r: Result<GlobSet, globset::Error>)
    ensures
        r is Ok <==> globs_build(builder_patterns(*b)),
        r is Ok ==> set_patterns(r->Ok_0) == builder_patterns(*b),
{
    b.build()
}

/// Relies on globset::GlobSet::is_match: true if any glob in the set
/// matches the path.
#[verifier::external_body]
fn set_is_match(s: &GlobSet, path: &str) -> (r: bool)
    ensures
        r == (exists|i: int|
            0 <= i < set_patterns(*s).len() && glob_matches(set_patterns(*s)[i], path@)),
{
    s.is_match(path)
}

/// Relies on str::replace: every `\` becomes `/`, nothing else changes.
#[verifier::external_body]
fn forward_slashes(s: &str) -> (r: String)
    ensures
        r@ == slashes(s@),
{
    s.replace('\\', "/")
}

pub open spec fn slashes(s: Seq<char>) -> Seq<char> {
    s.map_values(|c: char| if c == '\\' { '/' } else { c })
}

pub open spec fn views(v: Seq<String>) -> Seq<Seq<char>> {
    v.map_values(|s: String| s@)
}

/// Some pattern matches the path.
pub open spec fn matches_any(patterns: Seq<Seq<char>>, path: Seq<char>) -> bool {
    exists|i: int| 0 <= i < patterns.len() && glob_matches(patterns[i], path)
}

/// The index of the first pattern that does not parse, if any.
pub open spec fn first_rejected(patterns: Seq<Seq<char>>, k: int) -> bool {
    &&& 0 <= k < patterns.len()
    &&& !glob_accepts(patterns[k])
    &&& forall|j: int| 0 <= j < k ==> glob_accepts(patterns[j])
}

/// `r` is what compiling `patterns` gives: a matcher of the patterns with
/// `\` turned into `/`, or the first pattern that is not a valid glob, or
/// the failure of the whole set.
pub open spec fn compiled_as(r: Result<IgnoreMatcher, PatternError>, patterns: Seq<Seq<char>>) -> bool {
    let norm = patterns.map_values(|p: Seq<char>| slashes(p));
    &&& r is Ok <==> (forall|k: int| 0 <= k < norm.len() ==> glob_accepts(norm[k])) && globs_build(norm)
    &&& r is Ok ==> r->Ok_0.patterns() == norm
    &&& (r matches Err(PatternError::InvalidGlob(p)) ==> exists|k: int|
        first_rejected(norm, k) && p@ == norm[k])
    &&& (r matches Err(PatternError::SetTooLarge) ==> (forall|k: int|
        0 <= k < norm.len() ==> glob_accepts(norm[k])) && !globs_build(norm))
}

/// Why a set of ignore patterns could not be compiled.
#[derive(Clone, Debug)]
pub enum PatternError {
    /// This pattern (after `\` became `/`) is not a valid glob.
    InvalidGlob(String),
    /// Every pattern parses, but the set could not be compiled together.
    SetTooLarge,
}

/// A compiled set of ignore patterns.
pub struct IgnoreMatcher {
    set: GlobSet,
}

impl IgnoreMatcher {
    /// The patterns the matcher was compiled from.
    pub closed spec fn patterns(&self) -> Seq<Seq<char>> {
        set_patterns(self.set)
    }

    /// Compiles the patterns, each with `\` turned into `/` first. Fails
    /// with the first pattern that is not a valid glob.
    pub fn compile(patterns: &Vec<String>) -> (r: Result<IgnoreMatcher, PatternError>)
        ensures
            compiled_as(r, views(patterns@)),
    {
        let ghost norm = views(patterns@).map_values(|p: Seq<char>| slashes(p));
        let mut b = builder_new();
        let mut i: usize = 0;
        while i < patterns.len()
            invariant
                i <= patterns@.len(),
                norm == views(patterns@).map_values(|p: Seq<char>| slashes(p)),
                builder_patterns(b) == norm.subrange(0, i as int),
                forall|k: int| 0 <= k < i ==> glob_accepts(norm[k]),
            decreases patterns.len() - i,
        {
            let pat = forward_slashes(patterns[i].as_str());
            assert(pat@ == norm[i as int]);
            match parse_glob(pat.as_str()) {
                Ok(g) => builder_add(&mut b, g),
                Err(_) => {
                    assert(first_rejected(norm, i as int));
                    return Err(PatternError::InvalidGlob(pat));
                },
            }
            assert(norm.subrange(0, i + 1) =~= norm.subrange(0, i as int).push(norm[i as int]));
            i += 1;
        }
        assert(norm.subrange(0, i as int) =~= norm);
        match builder_build(&b) {
            Ok(set) => Ok(IgnoreMatcher { set }),
            Err(_) => Err(PatternError::SetTooLarge),
        }
    }

    /// Compiles the patterns of the pattern files' texts, in order,
    /// followed by the inline patterns.
    pub fn from_sources(file_texts: &Vec<String>, inline: &Vec<String>) -> (r: Result<IgnoreMatcher, PatternError>)
        ensures
            compiled_as(r, all_patterns(file_texts@, inline@)),
    {
        let all = collect_patterns(file_texts, inline);
        IgnoreMatcher::compile(&all)
    }

    /// Whether some pattern matches the root-relative path.
    pub fn is_ignored(&self, rel: &str) -> (r: bool)
        ensures
            r == matches_any(self.patterns(), rel@),
    {
        set_is_match(&self.set, rel)
    }
}

/// Unicode White_Space, the characters that trimming removes.
pub open spec fn is_white(c: char) -> bool {
    let u = c as u32;
    (9 <= u <= 13) || u == 32 || u == 0x85 || u == 0xA0 || u == 0x1680 || (0x2000 <= u <= 0x200A)
        || u == 0x2028 || u == 0x2029 || u == 0x202F || u == 0x205F || u == 0x3000
}

pub open spec fn trim_front(s: Seq<char>) -> Seq<char>
    decreases s.len(),
{
    if s.len() > 0 && is_white(s[0]) {
        trim_front(s.drop_first())
    } else {
        s
    }
}

pub open spec fn trim_back(s: Seq<char>) -> Seq<char>
    decreases s.len(),
{
    if s.len() > 0 && is_white(s.last()) {
        trim_back(s.drop_last())
    } else {
        s
    }
}

pub open spec fn trimmed(s: Seq<char>) -> Seq<char> {
    trim_back(trim_front(s))
}

/// The pieces of `s` between `\n` characters, in order; one empty piece
/// for an empty string, and an empty last piece after a final `\n`.
pub open spec fn split_newlines(s: Seq<char>) -> Seq<Seq<char>>
    decreases s.len(),
{
    if s.len() == 0 {
        seq![Seq::empty()]
    } else {
        let prev = split_newlines(s.drop_last());
        if s.last() == '\n' {
            prev.push(Seq::empty())
        } else {
            prev.update(prev.len() - 1, prev.last().push(s.last()))
        }
    }
}

/// Relies on str::trim: leading and trailing White_Space removed.
#[verifier::external_body]
fn trim_str(s: &str) -> (r: String)
    ensures
        r@ == trimmed(s@),
{
    s.trim().to_string()
}

/// Relies on str::split with `'\n'`: the pieces between newlines, in order.
#[verifier::external_body]
fn split_lines(s: &str) -> (r: Vec<String>)
    ensures
        views(r@) == split_newlines(s@),
{
    s.split('\n').map(String::from).collect()
}

/// The pattern a line of a pattern file gives: the trimmed line, unless it
/// is empty, a `#` comment, or a `!` negation, which is not supported.
pub open spec fn pattern_of_line(line: Seq<char>) -> Option<Seq<char>> {
    let t = trimmed(line);
    if t.len() == 0 || t[0] == '#' || t[0] == '!' {
        None
    } else {
        Some(t)
    }
}

pub open spec fn patterns_of_lines(lines: Seq<Seq<char>>) -> Seq<Seq<char>>
    decreases lines.len(),
{
    if lines.len() == 0 {
        Seq::empty()
    } else {
        let prev = patterns_of_lines(lines.drop_last());
        match pattern_of_line(lines.last()) {
            Some(t) => prev.push(t),
            None => prev,
        }
    }
}

/// The patterns of one pattern file, in order.
pub open spec fn file_patterns(text: Seq<char>) -> Seq<Seq<char>> {
    patterns_of_lines(split_newlines(text))
}

pub open spec fn files_patterns(texts: Seq<String>) -> Seq<Seq<char>>
    decreases texts.len(),
{
    if texts.len() == 0 {
        Seq::empty()
    } else {
        files_patterns(texts.drop_last()) + file_patterns(texts.last()@)
    }
}

/// The patterns of the pattern files in order, then the inline ones.
pub open spec fn all_patterns(file_texts: Seq<String>, inline: Seq<String>) -> Seq<Seq<char>> {
    files_patterns(file_texts) + views(inline)
}

/// Reads the patterns of a pattern file: one per line, surrounding white
/// space trimmed; blank lines, `#` comments and `!` lines are skipped.
pub fn parse_pattern_lines(text: &str) -> (r: Vec<String>)
    ensures
        views(r@) == file_patterns(text@),
{
    let lines = split_lines(text);
    let ghost ls = split_newlines(text@);
    let mut out: Vec<String> = Vec::new();
    let mut i: usize = 0;
    while i < lines.len()
        invariant
            i <= lines@.len(),
            views(lines@) == ls,
            views(out@) == patterns_of_lines(ls.subrange(0, i as int)),
        decreases lines.len() - i,
    {
        let t = trim_str(lines[i].as_str());
        assert(lines@[i as int]@ == ls[i as int]);
        if !t.as_str().is_empty() {
            let c = t.as_str().get_char(0);
            if c != '#' && c != '!' {
                out.push(t);
            }
        }
        proof {
            assert(ls.subrange(0, i + 1).drop_last() =~= ls.subrange(0, i as int));
            assert(ls.subrange(0, i + 1).last() == ls[i as int]);
            assert(views(out@) =~= patterns_of_lines(ls.subrange(0, i + 1)));
        }
        i += 1;
    }
    assert(ls.subrange(0, i as int) =~= ls);
    out
}

fn push_all(out: &mut Vec<String>, items: &Vec<String>)
    ensures
        views(final(out)@) == views(old(out)@) + views(items@),
{
    let ghost start = views(out@);
    let mut i: usize = 0;
    while i < items.len()
        invariant
            i <= items@.len(),
            views(out@) == start + views(items@.subrange(0, i as int)),
        decreases items.len() - i,
    {
        let ghost pre = out@;
        let item = items[i].clone();
        assert(item@ == items@[i as int]@);
        out.push(item);
        assert(views(out@) =~= views(pre).push(item@));
        assert(views(items@.subrange(0, i + 1)) =~= views(items@.subrange(0, i as int)).push(item@));
        assert(views(out@) =~= start + views(items@.subrange(0, i + 1)));
        i += 1;
    }
    assert(items@.subrange(0, i as int) =~= items@);
}

/// Gathers the patterns of the pattern files' texts, in order, followed by
/// the inline patterns.
pub fn collect_patterns(file_texts: &Vec<String>, inline: &Vec<String>) -> (r: Vec<String>)
    ensures
        views(r@) == all_patterns(file_texts@, inline@),
{
    let mut out: Vec<String> = Vec::new();
    let mut i: usize = 0;
    while i < file_texts.len()
        invariant
            i <= file_texts@.len(),
            views(out@) == files_patterns(file_texts@.subrange(0, i as int)),
        decreases file_texts.len() - i,
    {
        let pats = parse_pattern_lines(file_texts[i].as_str());
        push_all(&mut out, &pats);
        assert(file_texts@.subrange(0, i + 1).drop_last() =~= file_texts@.subrange(0, i as int));
        i += 1;
    }
    assert(file_texts@.subrange(0, i as int) =~= file_texts@);
    push_all(&mut out, inline);
    out
}

/// One entry that a walk of the tree reported.
#[derive(Clone, Debug)]
pub struct WalkEntry {
    pub path: Vec<PathPart>,
    pub is_file: bool,
}

/// A file chosen for hashing: its normalized path and the index of its
/// walk entry.
#[derive(Clone, Debug)]
pub struct Candidate {
    pub rel: String,
    pub index: usize,
}

/// The normalized path of an entry relative to the root.
pub open spec fn entry_rel(root: Seq<PathPart>, e: WalkEntry) -> Seq<char> {
    unix_string(e.path@.subrange(root.len() as int, e.path@.len() as int))
}

/// An entry is hashed when it is a regular file under the root whose
/// normalized path no pattern matches.
pub open spec fn entry_kept(root: Seq<PathPart>, e: WalkEntry, patterns: Seq<Seq<char>>) -> bool {
    &&& e.is_file
    &&& is_part_prefix(root, e.path@)
    &&& !matches_any(patterns, entry_rel(root, e))
}

/// Indices below `n` of the entries that are hashed, in walk order.
pub open spec fn kept_indices(
    root: Seq<PathPart>,
    entries: Seq<WalkEntry>,
    patterns: Seq<Seq<char>>,
    n: int,
) -> Seq<int>
    decreases n,
{
    if n <= 0 {
        Seq::empty()
    } else if entry_kept(root, entries[n - 1], patterns) {
        kept_indices(root, entries, patterns, n - 1).push(n - 1)
    } else {
        kept_indices(root, entries, patterns, n - 1)
    }
}

/// Chooses, in walk order, the entries that are hashed.
pub fn select_candidates(root: &Vec<PathPart>, entries: &Vec<WalkEntry>, matcher: &IgnoreMatcher) -> (r: Vec<
    Candidate,
>)
    ensures
        ({
            let kept = kept_indices(root@, entries@, matcher.patterns(), entries@.len() as int);
            &&& r@.len() == kept.len()
            &&& forall|k: int|
                0 <= k < r@.len() ==> r@[k].index == kept[k] && r@[k].rel@ == entry_rel(
                    root@,
                    entries@[kept[k]],
                )
        }),
        forall|k: int| 0 <= k < r@.len() ==> !matches_any(matcher.patterns(), #[trigger] r@[k].rel@),
{
    let mut out: Vec<Candidate> = Vec::new();
    let mut i: usize = 0;
    while i < entries.len()
        invariant
            i <= entries@.len(),
            ({
                let kept = kept_indices(root@, entries@, matcher.patterns(), i as int);
                &&& out@.len() == kept.len()
                &&& forall|k: int|
                    0 <= k < out@.len() ==> out@[k].index == kept[k] && out@[k].rel@ == entry_rel(
                        root@,
                        entries@[kept[k]],
                    ) && entry_kept(root@, entries@[kept[k]], matcher.patterns())
            }),
        decreases entries.len() - i,
    {
        let e = &entries[i];
        if e.is_file {
            match make_rel_unix(root, &e.path) {
                Some(rel) => {
                    if !matcher.is_ignored(rel.as_str()) {
                        out.push(Candidate { rel, index: i });
                    }
                },
                None => {},
            }
        }
        i += 1;
    }
    assert forall|k: int| 0 <= k < out@.len() implies !matches_any(
        matcher.patterns(),
        #[trigger] out@[k].rel@,
    ) by {
        let kept = kept_indices(root@, entries@, matcher.patterns(), i as int);
        assert(entry_kept(root@, entries@[kept[k]], matcher.patterns()));
    }
    out
}

/// A pattern that matches no file under the root leaves the choice of
/// files, and so the digest, unchanged.
pub proof fn lemma_unmatched_pattern_changes_nothing(
    root: Seq<PathPart>,
    entries: Seq<WalkEntry>,
    patterns: Seq<Seq<char>>,
    extra: Seq<char>,
    n: int,
)
    requires
        0 <= n <= entries.len(),
        forall|i: int|
            0 <= i < entries.len() && entries[i].is_file && is_part_prefix(root, entries[i].path@)
                ==> !glob_matches(extra, entry_rel(root, entries[i])),
    ensures
        kept_indices(root, entries, patterns.push(extra), n) == kept_indices(root, entries, patterns, n),
    decreases n,
{
    if n > 0 {
        lemma_unmatched_pattern_changes_nothing(root, entries, patterns, extra, n - 1);
        let e = entries[n - 1];
        let more = patterns.push(extra);
        if e.is_file && is_part_prefix(root, e.path@) {
            let rel = entry_rel(root, e);
            if matches_any(patterns, rel) {
                let i = choose|i: int| 0 <= i < patterns.len() && glob_matches(patterns[i], rel);
                assert(more[i] == patterns[i]);
            }
            if matches_any(more, rel) {
                let i = choose|i: int| 0 <= i < more.len() && glob_matches(more[i], rel);
                assert(i < patterns.len());
                assert(more[i] == patterns[i]);
            }
        }
    }
}

} // verus!
