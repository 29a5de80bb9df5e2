//! Root-relative, `/`-separated path strings, resolved lexically.

use crate::hex::push_char;
use vstd::prelude::*;
use vstd::string::StringExecFns;

verus! {

/// One component of a filesystem path, as the platform splits it.
#[derive(Clone, Debug)]
pub enum PathPart {
    /// A drive or share prefix, on platforms that have them.
    Prefix(String),
    RootDir,
    /// `.`
    CurDir,
    /// `..`
    ParentDir,
    Normal(String),
}

/// Two components are the same: same kind, same text.
pub open spec fn part_same(a: PathPart, b: PathPart) -> bool {
    match (a, b) {
        (PathPart::Prefix(x), PathPart::Prefix(y)) => x@ == y@,
        (PathPart::RootDir, PathPart::RootDir) => true,
        (PathPart::CurDir, PathPart::CurDir) => true,
        (PathPart::ParentDir, PathPart::ParentDir) => true,
        (PathPart::Normal(x), PathPart::Normal(y)) => x@ == y@,
        _ => false,
    }
}

/// The names left after resolving `.` and `..` lexically: `.` is dropped,
/// `..` drops the last name kept so far, roots and prefixes are dropped.
pub open spec fn resolve(parts: Seq<PathPart>) -> Seq<Seq<char>>
    decreases parts.len(),
{
    if parts.len() == 0 {
        Seq::empty()
    } else {
        let prev = resolve(parts.drop_last());
        match parts.last() {
            PathPart::Normal(s) => prev.push(s@),
            PathPart::ParentDir => if prev.len() > 0 {
                prev.drop_last()
            } else {
                prev
            },
            _ => prev,
        }
    }
}

/// Names joined with `/`.
pub open spec fn join_slash(names: Seq<Seq<char>>) -> Seq<char>
    decreases names.len(),
{
    if names.len() == 0 {
        Seq::empty()
    } else if names.len() == 1 {
        names[0]
    } else {
        join_slash(names.drop_last()) + seq!['/'] + names.last()
    }
}

pub open spec fn unix_string(parts: Seq<PathPart>) -> Seq<char> {
    join_slash(resolve(parts))
}

/// `root` is a component-wise prefix of `path`.
pub open spec fn is_part_prefix(root: Seq<PathPart>, path: Seq<PathPart>) -> bool {
    &&& root.len() <= path.len()
    &&& forall|i: int| 0 <= i < root.len() ==> part_same(root[i], path[i])
}

/// Whether two components are the same.
fn same_part(a: &PathPart, b: &PathPart) -> (r: bool)
    ensures
        r == part_same(*a, *b),
{
    match (a, b) {
        (PathPart::Prefix(x), PathPart::Prefix(y)) => x.eq(y),
        (PathPart::RootDir, PathPart::RootDir) => true,
        (PathPart::CurDir, PathPart::CurDir) => true,
        (PathPart::ParentDir, PathPart::ParentDir) => true,
        (PathPart::Normal(x), PathPart::Normal(y)) => x.eq(y),
        _ => false,
    }
}

/// Resolves the components from `start` on and joins the names with `/`.
fn unix_string_from(parts: &Vec<PathPart>, start: usize) -> (r: String)
    requires
        start <= parts@.len(),
    ensures
        r@ == unix_string(parts@.subrange(start as int, parts@.len() as int)),
{
    let ghost tail = parts@.subrange(start as int, parts@.len() as int);
    let mut names: Vec<String> = Vec::new();
    let ghost mut gnames: Seq<Seq<char>> = Seq::empty();
    let mut i: usize = start;
    while i < parts.len()
        invariant
            start <= i <= parts@.len(),
            tail == parts@.subrange(start as int, parts@.len() as int),
            gnames == resolve(tail.subrange(0, i - start)),
            names@.len() == gnames.len(),
            forall|k: int| 0 <= k < gnames.len() ==> #[trigger] names@[k]@ == gnames[k],
        decreases parts.len() - i,
    {
        proof {
            assert(tail.subrange(0, i + 1 - start).drop_last() =~= tail.subrange(0, i - start));
            assert(tail.subrange(0, i + 1 - start).last() == parts@[i as int]);
        }
        match &parts[i] {
            PathPart::Normal(s) => {
                names.push(s.clone());
                proof {
                    gnames = gnames.push(s@);
                }
            },
            PathPart::ParentDir => {
                if names.len() > 0 {
                    names.pop();
                    proof {
                        gnames = gnames.drop_last();
                    }
                }
            },
            _ => {},
        }
        i += 1;
    }
    assert(tail.subrange(0, i - start) =~= tail);
    let mut out = String::new();
    let mut k: usize = 0;
    while k < names.len()
        invariant
            k <= names@.len(),
            names@.len() == gnames.len(),
            forall|m: int| 0 <= m < gnames.len() ==> #[trigger] names@[m]@ == gnames[m],
            out@ == join_slash(gnames.subrange(0, k as int)),
        decreases names.len() - k,
    {
        assert(gnames.subrange(0, k + 1).drop_last() =~= gnames.subrange(0, k as int));
        if k > 0 {
            push_char(&mut out, '/');
        }
        out.append(names[k].as_str());
        proof {
            assert(names@[k as int]@ == gnames[k as int]);
            if k == 0 {
                assert(out@ =~= gnames[0]);
            }
        }
        k += 1;
    }
    assert(gnames.subrange(0, k as int) =~= gnames);
    out
}

/// Converts path components to a `/`-separated string with `.` and `..`
/// resolved lexically.
pub fn path_to_unix_string(p: &Vec<PathPart>) -> (r: String)
    ensures
        r@ == unix_string(p@),
{
    let r = unix_string_from(p, 0);
    assert(p@.subrange(0, p@.len() as int) =~= p@);
    r
}

/// The normalized path of `path` relative to `root`, or `None` where `root`
/// is not a component-wise prefix of `path`.
pub fn make_rel_unix(root: &Vec<PathPart>, path: &Vec<PathPart>) -> (r: Option<String>)
    ensures
        r is Some <==> is_part_prefix(root@, path@),
        r is Some ==> r->Some_0@ == unix_string(path@.subrange(root@.len() as int, path@.len() as int)),
{
    if root.len() > path.len() {
        return None;
    }
    let mut i: usize = 0;
    while i < root.len()
        invariant
            i <= root@.len() <= path@.len(),
            forall|k: int| 0 <= k < i ==> part_same(root@[k], path@[k]),
        decreases root.len() - i,
    {
        if !same_part(&root[i], &path[i]) {
            return None;
        }
        i += 1;
    }
    Some(unix_string_from(path, root.len()))
}

/// A path made of plain names only is left as it is: its names joined with
/// `/`.
pub proof fn lemma_normalized_path_unchanged(parts: Seq<PathPart>)
    requires
        forall|i: int| 0 <= i < parts.len() ==> parts[i] is Normal,
    ensures
        resolve(parts) == parts.map_values(|p: PathPart| p->Normal_0@),
        unix_string(parts) == join_slash(parts.map_values(|p: PathPart| p->Normal_0@)),
    decreases parts.len(),
{
    if parts.len() > 0 {
        lemma_normalized_path_unchanged(parts.drop_last());
        assert(parts.map_values(|p: PathPart| p->Normal_0@) =~= parts.drop_last().map_values(
            |p: PathPart| p->Normal_0@,
        ).push(parts.last()->Normal_0@));
    } else {
        assert(parts.map_values(|p: PathPart| p->Normal_0@) =~= Seq::<Seq<char>>::empty());
    }
}

} // verus!
