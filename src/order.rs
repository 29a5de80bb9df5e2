//! Byte-wise ordering of normalized paths, with an optional ASCII case fold.

use core::cmp::Ordering;
use vstd::prelude::*;
use vstd::string::StringSliceAdditionalSpecFns;

verus! {

/// Strict lexicographic order on byte strings; a proper prefix comes first.
pub open spec fn lex_lt(a: Seq<u8>, b: Seq<u8>) -> bool
    decreases a.len(),
{
    if a.len() == 0 {
        b.len() > 0
    } else if b.len() == 0 {
        false
    } else if a[0] != b[0] {
        a[0] < b[0]
    } else {
        lex_lt(a.drop_first(), b.drop_first())
    }
}

/// Maps `A`..`Z` to `a`..`z` and leaves every other byte alone.
pub open spec fn ascii_fold(b: u8) -> u8 {
    if 65 <= b <= 90 {
        (b + 32) as u8
    } else {
        b
    }
}

pub open spec fn fold_bytes(s: Seq<u8>) -> Seq<u8> {
    s.map_values(|b: u8| ascii_fold(b))
}

/// The ordering that a three-way comparison reports for `a` against `b`.
pub open spec fn lex_cmp(a: Seq<u8>, b: Seq<u8>) -> Ordering {
    if lex_lt(a, b) {
        Ordering::Less
    } else if a == b {
        Ordering::Equal
    } else {
        Ordering::Greater
    }
}

pub(crate) proof fn lemma_lex_trichotomy(a: Seq<u8>, b: Seq<u8>)
    ensures
        lex_lt(a, b) || lex_lt(b, a) || a == b,
        !(lex_lt(a, b) && lex_lt(b, a)),
    decreases a.len(),
{
    if a.len() > 0 && b.len() > 0 && a[0] == b[0] {
        lemma_lex_trichotomy(a.drop_first(), b.drop_first());
        if a.drop_first() == b.drop_first() {
            assert(a =~= seq![a[0]] + a.drop_first());
            assert(b =~= seq![b[0]] + b.drop_first());
        }
    } else if a.len() == 0 && b.len() == 0 {
        assert(a =~= b);
    }
}

pub(crate) proof fn lemma_lex_transitive(a: Seq<u8>, b: Seq<u8>, c: Seq<u8>)
    requires
        lex_lt(a, b),
        lex_lt(b, c),
    ensures
        lex_lt(a, c),
    decreases a.len(),
{
    if a.len() > 0 && b.len() > 0 && c.len() > 0 && a[0] == b[0] && b[0] == c[0] {
        lemma_lex_transitive(a.drop_first(), b.drop_first(), c.drop_first());
    }
}

/// Equal prefixes of length `i` leave the order to what follows them.
proof fn lemma_lex_skip(a: Seq<u8>, b: Seq<u8>, i: int)
    requires
        0 <= i <= a.len(),
        i <= b.len(),
        a.subrange(0, i) == b.subrange(0, i),
    ensures
        lex_lt(a, b) == lex_lt(a.subrange(i, a.len() as int), b.subrange(i, b.len() as int)),
    decreases i,
{
    if i > 0 {
        assert(a[0] == a.subrange(0, i)[0]);
        assert(b[0] == b.subrange(0, i)[0]);
        assert(a.drop_first().subrange(0, i - 1) =~= a.subrange(0, i).drop_first());
        assert(b.drop_first().subrange(0, i - 1) =~= b.subrange(0, i).drop_first());
        lemma_lex_skip(a.drop_first(), b.drop_first(), i - 1);
        assert(a.drop_first().subrange(i - 1, a.len() - 1) =~= a.subrange(i, a.len() as int));
        assert(b.drop_first().subrange(i - 1, b.len() - 1) =~= b.subrange(i, b.len() as int));
    } else {
        assert(a.subrange(0, a.len() as int) =~= a);
        assert(b.subrange(0, b.len() as int) =~= b);
    }
}

fn fold_byte(b: u8) -> (r: u8)
    ensures
        r == ascii_fold(b),
{
    if 65 <= b && b <= 90 {
        b + 32
    } else {
        b
    }
}

/// Compares two byte strings lexicographically, optionally after folding
/// ASCII upper case to lower case on both sides.
pub fn cmp_bytes(a: &[u8], b: &[u8], fold: bool) -> (r: Ordering)
    ensures
        fold ==> r == lex_cmp(fold_bytes(a@), fold_bytes(b@)),
        !fold ==> r == lex_cmp(a@, b@),
{
    let ghost fa = if fold { fold_bytes(a@) } else { a@ };
    let ghost fb = if fold { fold_bytes(b@) } else { b@ };
    let mut i: usize = 0;
    while i < a.len() && i < b.len()
        invariant
            i <= a@.len(),
            i <= b@.len(),
            fa.len() == a@.len(),
            fb.len() == b@.len(),
            fold ==> fa == fold_bytes(a@) && fb == fold_bytes(b@),
            !fold ==> fa == a@ && fb == b@,
            forall|k: int| 0 <= k < a@.len() ==> fa[k] == (if fold { ascii_fold(a@[k]) } else { a@[k] }),
            forall|k: int| 0 <= k < b@.len() ==> fb[k] == (if fold { ascii_fold(b@[k]) } else { b@[k] }),
            fa.subrange(0, i as int) == fb.subrange(0, i as int),
        decreases a.len() - i,
    {
        let x = if fold { fold_byte(a[i]) } else { a[i] };
        let y = if fold { fold_byte(b[i]) } else { b[i] };
        if x != y {
            proof {
                lemma_lex_skip(fa, fb, i as int);
                let ra = fa.subrange(i as int, fa.len() as int);
                let rb = fb.subrange(i as int, fb.len() as int);
                assert(ra[0] == x && rb[0] == y);
                if fa == fb {
                    assert(fa[i as int] == fb[i as int]);
                }
            }
            if x < y {
                return Ordering::Less;
            } else {
                proof {
                    lemma_lex_trichotomy(fa, fb);
                    lemma_lex_skip(fb, fa, i as int);
                }
                return Ordering::Greater;
            }
        }
        assert(fa.subrange(0, i + 1) =~= fa.subrange(0, i as int).push(x));
        assert(fb.subrange(0, i + 1) =~= fb.subrange(0, i as int).push(y));
        i += 1;
    }
    proof {
        lemma_lex_skip(fa, fb, i as int);
        lemma_lex_skip(fb, fa, i as int);
        lemma_lex_trichotomy(fa, fb);
        if a.len() == b.len() {
            assert(fa =~= fa.subrange(0, i as int));
            assert(fb =~= fb.subrange(0, i as int));
        }
    }
    if a.len() < b.len() {
        Ordering::Less
    } else if a.len() == b.len() {
        Ordering::Equal
    } else {
        Ordering::Greater
    }
}

/// Orders two strings by their UTF-8 bytes after folding ASCII upper case
/// to lower case; other characters compare unchanged.
pub fn cmp_case_insensitive(a: &str, b: &str) -> (r: Ordering)
    ensures
        r == lex_cmp(fold_bytes(a.spec_bytes()), fold_bytes(b.spec_bytes())),
{
    cmp_bytes(a.as_bytes(), b.as_bytes(), true)
}

} // verus!
