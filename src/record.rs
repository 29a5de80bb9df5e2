//! File records and the byte stream that the tree digest is taken over.

use crate::digest::{blake3_of, hasher_finalize, hasher_input, hasher_new, hasher_update};
use crate::hex::{hex_lower, hex_of};
use crate::order::{cmp_bytes, fold_bytes, lemma_lex_transitive, lemma_lex_trichotomy, lex_lt};
use core::cmp::Ordering;
use vstd::prelude::*;
use vstd::utf8::encode_utf8;

verus! {

/// Permission information of a file, as the platform offers it.
#[derive(Clone, Copy, PartialEq, Eq, Debug)]
pub enum Permissions {
    /// POSIX mode bits.
    Mode(u32),
    /// Only a read-only flag, where the platform has no mode bits.
    ReadOnly(bool),
}

/// The metadata folded into a record when metadata is included.
#[derive(Clone, Copy, PartialEq, Eq, Debug)]
pub struct FileMeta {
    pub permissions: Permissions,
    /// Modification time as whole seconds since the Unix epoch and the
    /// nanoseconds past them, where the platform reports it.
    pub modified: Option<(u64, u32)>,
}

/// One regular file to be hashed: its normalized root-relative path, the
/// digest of its content, and its metadata where it could be read.
#[derive(Clone, Debug)]
pub struct FileRecord {
    pub path: String,
    pub content: [u8; 32],
    pub meta: Option<FileMeta>,
}

/// The full lowercase form of a string.
pub uninterp spec fn lower_of(s: Seq<char>) -> Seq<char>;

/// Relies on str::to_lowercase: the Unicode lowercase mapping of the
/// string, which depends on its characters alone.
#[verifier::external_body]
fn lowercase(s: &str) -> (r: String)
    ensures
        r@ == lower_of(s@),
{
    s.to_lowercase()
}

pub open spec fn u32_le(x: u32) -> Seq<u8> {
    seq![x as u8, (x >> 8) as u8, (x >> 16) as u8, (x >> 24) as u8]
}

pub open spec fn u64_le(x: u64) -> Seq<u8> {
    seq![
        x as u8,
        (x >> 8) as u8,
        (x >> 16) as u8,
        (x >> 24) as u8,
        (x >> 32) as u8,
        (x >> 40) as u8,
        (x >> 48) as u8,
        (x >> 56) as u8,
    ]
}

/// `get_dir_hash-v1` followed by a NUL byte: hashed first, before any record.
pub open spec fn domain_tag() -> Seq<u8> {
    seq![103u8, 101, 116, 95, 100, 105, 114, 95, 104, 97, 115, 104, 45, 118, 49, 0]
}

/// The metadata frame: `\0M\0`, the permission bytes, then the
/// modification time when known.
pub open spec fn meta_frame(m: FileMeta) -> Seq<u8> {
    seq![0u8, 77, 0] + match m.permissions {
        Permissions::Mode(mode) => u32_le(mode),
        Permissions::ReadOnly(ro) => seq![if ro { 1u8 } else { 0u8 }],
    } + match m.modified {
        Some(t) => u64_le(t.0) + u32_le(t.1),
        None => Seq::empty(),
    }
}

/// The path as it is framed: its UTF-8 bytes, lowercased first when paths
/// are case-insensitive.
pub open spec fn path_frame(p: Seq<char>, case_sensitive: bool) -> Seq<u8> {
    if case_sensitive {
        encode_utf8(p)
    } else {
        encode_utf8(lower_of(p))
    }
}

/// One record: `F\0`, the framed path, `\0`, the content digest, and the
/// metadata frame when metadata is included and was read.
pub open spec fn record_frame(r: FileRecord, case_sensitive: bool, include_metadata: bool) -> Seq<u8> {
    seq![70u8, 0] + path_frame(r.path@, case_sensitive) + seq![0u8] + r.content@ + if include_metadata
        && r.meta is Some {
        meta_frame(r.meta->Some_0)
    } else {
        Seq::empty()
    }
}

pub open spec fn records_frame(rs: Seq<FileRecord>, case_sensitive: bool, include_metadata: bool) -> Seq<u8>
    decreases rs.len(),
{
    if rs.len() == 0 {
        Seq::empty()
    } else {
        records_frame(rs.drop_last(), case_sensitive, include_metadata) + record_frame(
            rs.last(),
            case_sensitive,
            include_metadata,
        )
    }
}

/// Everything the outer hash takes in for records in the given order.
pub open spec fn tree_stream(rs: Seq<FileRecord>, case_sensitive: bool, include_metadata: bool) -> Seq<u8> {
    domain_tag() + records_frame(rs, case_sensitive, include_metadata)
}

/// The hex digest of records taken in the given order.
pub open spec fn digest_of_ordered(rs: Seq<FileRecord>, case_sensitive: bool, include_metadata: bool) -> Seq<char> {
    hex_of(blake3_of(tree_stream(rs, case_sensitive, include_metadata)))
}

fn push_u32_le(v: &mut Vec<u8>, x: u32)
    ensures
        final(v)@ == old(v)@ + u32_le(x),
{
    v.push(x as u8);
    v.push((x >> 8) as u8);
    v.push((x >> 16) as u8);
    v.push((x >> 24) as u8);
    assert(final(v)@ =~= old(v)@ + u32_le(x));
}

fn push_u64_le(v: &mut Vec<u8>, x: u64)
    ensures
        final(v)@ == old(v)@ + u64_le(x),
{
    v.push(x as u8);
    v.push((x >> 8) as u8);
    v.push((x >> 16) as u8);
    v.push((x >> 24) as u8);
    v.push((x >> 32) as u8);
    v.push((x >> 40) as u8);
    v.push((x >> 48) as u8);
    v.push((x >> 56) as u8);
    assert(final(v)@ =~= old(v)@ + u64_le(x));
}

/// Encodes the metadata frame of one file.
pub fn encode_metadata(m: &FileMeta) -> (r: Vec<u8>)
    ensures
        r@ == meta_frame(*m),
{
    let mut v: Vec<u8> = vec![0u8, 77u8, 0u8];
    match m.permissions {
        Permissions::Mode(mode) => push_u32_le(&mut v, mode),
        Permissions::ReadOnly(ro) => v.push(if ro { 1u8 } else { 0u8 }),
    }
    match m.modified {
        Some(t) => {
            push_u64_le(&mut v, t.0);
            push_u32_le(&mut v, t.1);
        },
        None => {},
    }
    assert(v@ =~= meta_frame(*m));
    v
}

/// Hashes records in the order given and renders the digest as lowercase
/// hex: the domain tag first, then one record per file.
pub fn compose_digest(records: &Vec<FileRecord>, case_sensitive: bool, include_metadata: bool) -> (r: String)
    ensures
        r@ == digest_of_ordered(records@, case_sensitive, include_metadata),
        r@.len() == 64,
{
    let mut out = hasher_new();
    let tag: Vec<u8> = vec![103u8, 101, 116, 95, 100, 105, 114, 95, 104, 97, 115, 104, 45, 118, 49, 0];
    assert(tag@ =~= domain_tag());
    hasher_update(&mut out, tag.as_slice());
    let head: Vec<u8> = vec![70u8, 0];
    let nul: Vec<u8> = vec![0u8];
    let mut i: usize = 0;
    while i < records.len()
        invariant
            i <= records@.len(),
            head@ == seq![70u8, 0],
            nul@ == seq![0u8],
            hasher_input(out) == tree_stream(records@.subrange(0, i as int), case_sensitive, include_metadata),
        decreases records.len() - i,
    {
        let rec = &records[i];
        let ghost before = hasher_input(out);
        hasher_update(&mut out, head.as_slice());
        if case_sensitive {
            hasher_update(&mut out, rec.path.as_str().as_bytes());
        } else {
            let low = lowercase(rec.path.as_str());
            hasher_update(&mut out, low.as_str().as_bytes());
        }
        hasher_update(&mut out, nul.as_slice());
        hasher_update(&mut out, rec.content.as_slice());
        if include_metadata {
            match &rec.meta {
                Some(m) => {
                    let mf = encode_metadata(m);
                    hasher_update(&mut out, mf.as_slice());
                },
                None => {},
            }
        }
        proof {
            let s = records@.subrange(0, i + 1);
            assert(s.drop_last() =~= records@.subrange(0, i as int));
            assert(s.last() == records@[i as int]);
            assert(hasher_input(out) =~= before + record_frame(records@[i as int], case_sensitive, include_metadata));
        }
        i += 1;
    }
    assert(records@.subrange(0, i as int) =~= records@);
    let d = hasher_finalize(&out);
    hex_lower(d.as_slice())
}

/// The key records are ordered by: the path's UTF-8 bytes, with ASCII upper
/// case folded to lower case when paths are case-insensitive.
pub open spec fn sort_key(r: FileRecord, case_sensitive: bool) -> Seq<u8> {
    if case_sensitive {
        encode_utf8(r.path@)
    } else {
        fold_bytes(encode_utf8(r.path@))
    }
}

pub open spec fn key_le(a: FileRecord, b: FileRecord, case_sensitive: bool) -> bool {
    !lex_lt(sort_key(b, case_sensitive), sort_key(a, case_sensitive))
}

pub open spec fn is_sorted(rs: Seq<FileRecord>, case_sensitive: bool) -> bool {
    forall|i: int, j: int| 0 <= i < j < rs.len() ==> key_le(rs[i], rs[j], case_sensitive)
}

/// `s` holds the records of `rs`, each as often, in key order.
pub open spec fn is_ordering_of(s: Seq<FileRecord>, rs: Seq<FileRecord>, case_sensitive: bool) -> bool {
    &&& s.to_multiset() == rs.to_multiset()
    &&& is_sorted(s, case_sensitive)
}

/// The records of `rs` with key `k`, in their order in `rs`.
pub open spec fn with_key(rs: Seq<FileRecord>, k: Seq<u8>, case_sensitive: bool) -> Seq<FileRecord>
    decreases rs.len(),
{
    if rs.len() == 0 {
        Seq::empty()
    } else if sort_key(rs[0], case_sensitive) == k {
        seq![rs[0]] + with_key(rs.drop_first(), k, case_sensitive)
    } else {
        with_key(rs.drop_first(), k, case_sensitive)
    }
}

/// `s` is `rs` in key order, with records of equal key in the order `rs`
/// has them.
pub open spec fn is_stable_ordering_of(s: Seq<FileRecord>, rs: Seq<FileRecord>, case_sensitive: bool) -> bool {
    &&& is_ordering_of(s, rs, case_sensitive)
    &&& forall|k: Seq<u8>| #[trigger] with_key(s, k, case_sensitive) == with_key(rs, k, case_sensitive)
}

/// No two records share a key.
pub open spec fn keys_distinct(rs: Seq<FileRecord>, case_sensitive: bool) -> bool {
    forall|i: int, j: int|
        0 <= i < rs.len() && 0 <= j < rs.len() && i != j ==> sort_key(rs[i], case_sensitive)
            != sort_key(rs[j], case_sensitive)
}

/// `d` is the digest of the records of `rs` taken in some key order.
pub open spec fn is_tree_digest(
    d: Seq<char>,
    rs: Seq<FileRecord>,
    case_sensitive: bool,
    include_metadata: bool,
) -> bool {
    exists|s: Seq<FileRecord>|
        is_stable_ordering_of(s, rs, case_sensitive) && d == digest_of_ordered(
            s,
            case_sensitive,
            include_metadata,
        )
}

proof fn lemma_key_le_transitive(a: FileRecord, b: FileRecord, c: FileRecord, cs: bool)
    requires
        key_le(a, b, cs),
        key_le(b, c, cs),
    ensures
        key_le(a, c, cs),
{
    let (ka, kb, kc) = (sort_key(a, cs), sort_key(b, cs), sort_key(c, cs));
    lemma_lex_trichotomy(ka, kb);
    lemma_lex_trichotomy(kb, kc);
    lemma_lex_trichotomy(ka, kc);
    if lex_lt(kc, ka) {
        if lex_lt(ka, kb) {
            lemma_lex_transitive(kc, ka, kb);
        }
    }
}

proof fn lemma_with_key_append(a: Seq<FileRecord>, b: Seq<FileRecord>, k: Seq<u8>, cs: bool)
    ensures
        with_key(a + b, k, cs) == with_key(a, k, cs) + with_key(b, k, cs),
    decreases a.len(),
{
    if a.len() == 0 {
        assert(a + b =~= b);
    } else {
        lemma_with_key_append(a.drop_first(), b, k, cs);
        assert((a + b).drop_first() =~= a.drop_first() + b);
        assert(with_key(a + b, k, cs) =~= with_key(a, k, cs) + with_key(b, k, cs));
    }
}

proof fn lemma_with_key_none(a: Seq<FileRecord>, k: Seq<u8>, cs: bool)
    requires
        forall|i: int| 0 <= i < a.len() ==> sort_key(a[i], cs) != k,
    ensures
        with_key(a, k, cs) == Seq::<FileRecord>::empty(),
    decreases a.len(),
{
    if a.len() > 0 {
        lemma_with_key_none(a.drop_first(), k, cs);
    }
}

proof fn lemma_with_key_member(a: Seq<FileRecord>, k: Seq<u8>, cs: bool)
    requires
        with_key(a, k, cs).len() > 0,
    ensures
        exists|i: int| 0 <= i < a.len() && sort_key(a[i], cs) == k,
    decreases a.len(),
{
    if sort_key(a[0], cs) != k {
        lemma_with_key_member(a.drop_first(), k, cs);
        let i = choose|i: int| 0 <= i < a.len() - 1 && sort_key(a.drop_first()[i], cs) == k;
        assert(a[i + 1] == a.drop_first()[i]);
    }
}

/// Inserting `x` before every record whose key is not below its own puts
/// it first among the records of its key and changes no other group.
proof fn lemma_insert_keeps_groups(s: Seq<FileRecord>, j: int, x: FileRecord, cs: bool)
    requires
        0 <= j <= s.len(),
        forall|m: int| 0 <= m < j ==> lex_lt(sort_key(s[m], cs), sort_key(x, cs)),
    ensures
        forall|k: Seq<u8>|
            #[trigger] with_key(s.insert(j, x), k, cs) == with_key(seq![x] + s, k, cs),
{
    let kx = sort_key(x, cs);
    let lo = s.subrange(0, j);
    let hi = s.subrange(j, s.len() as int);
    assert(s =~= lo + hi);
    assert(s.insert(j, x) =~= lo + (seq![x] + hi));
    assert forall|k: Seq<u8>| #[trigger] with_key(s.insert(j, x), k, cs) == with_key(seq![x] + s, k, cs) by {
        lemma_with_key_append(lo, seq![x] + hi, k, cs);
        lemma_with_key_append(lo, hi, k, cs);
        assert((seq![x] + s)[0] == x);
        assert((seq![x] + s).drop_first() =~= s);
        assert((seq![x] + hi)[0] == x);
        assert((seq![x] + hi).drop_first() =~= hi);
        if k == kx {
            assert forall|m: int| 0 <= m < lo.len() implies sort_key(lo[m], cs) != k by {
                lemma_lex_trichotomy(sort_key(lo[m], cs), kx);
            }
            lemma_with_key_none(lo, k, cs);
            assert(with_key(seq![x] + hi, k, cs) == seq![x] + with_key(hi, k, cs));
            assert(with_key(seq![x] + s, k, cs) == seq![x] + with_key(s, k, cs));
            assert(with_key(s.insert(j, x), k, cs) =~= with_key(seq![x] + s, k, cs));
        } else {
            assert(with_key(seq![x] + hi, k, cs) == with_key(hi, k, cs));
            assert(with_key(seq![x] + s, k, cs) == with_key(s, k, cs));
            assert(with_key(s.insert(j, x), k, cs) =~= with_key(seq![x] + s, k, cs));
        }
    }
}

/// Whether `a` orders strictly before `b`.
fn key_less(a: &FileRecord, b: &FileRecord, case_sensitive: bool) -> (r: bool)
    ensures
        r == lex_lt(sort_key(*a, case_sensitive), sort_key(*b, case_sensitive)),
{
    let o = cmp_bytes(a.path.as_str().as_bytes(), b.path.as_str().as_bytes(), !case_sensitive);
    match o {
        Ordering::Less => true,
        _ => false,
    }
}

/// Sorts records by key; records with equal keys keep their order.
#[verifier::rlimit(40)]
pub fn order_records(records: Vec<FileRecord>, case_sensitive: bool) -> (r: Vec<FileRecord>)
    ensures
        is_stable_ordering_of(r@, records@, case_sensitive),
{
    broadcast use vstd::multiset::group_multiset_axioms;
    broadcast use vstd::seq_lib::group_to_multiset_ensures;

    let ghost orig = records@;
    let mut rest = records;
    let mut out: Vec<FileRecord> = Vec::new();
    while rest.len() > 0
        invariant
            out@.to_multiset().add(rest@.to_multiset()) == orig.to_multiset(),
            is_sorted(out@, case_sensitive),
            rest@.len() <= orig.len(),
            rest@ == orig.subrange(0, rest@.len() as int),
            forall|k: Seq<u8>|
                #[trigger] with_key(out@, k, case_sensitive) == with_key(
                    orig.subrange(rest@.len() as int, orig.len() as int),
                    k,
                    case_sensitive,
                ),
        decreases rest.len(),
    {
        let ghost before = rest@;
        let x = match rest.pop() {
            Some(x) => x,
            None => {
                return out;
            },
        };
        proof {
            assert(before =~= rest@.push(x));
            assert(before == orig.subrange(0, before.len() as int));
            assert(x == before[rest@.len() as int]);
            assert(rest@ =~= orig.subrange(0, rest@.len() as int));
            vstd::seq_lib::to_multiset_build(rest@, x);
        }
        let mut j: usize = 0;
        while j < out.len() && key_less(&out[j], &x, case_sensitive)
            invariant
                j <= out@.len(),
                forall|k: int| 0 <= k < j ==> lex_lt(sort_key(out@[k], case_sensitive), sort_key(x, case_sensitive)),
            decreases out.len() - j,
        {
            j += 1;
        }
        let ghost prev = out@;
        out.insert(j, x);
        proof {
            vstd::seq_lib::to_multiset_insert(prev, j as int, x);
            lemma_insert_keeps_groups(prev, j as int, x, case_sensitive);
            let done = orig.subrange(rest@.len() as int, orig.len() as int);
            let done_before = orig.subrange(rest@.len() as int + 1, orig.len() as int);
            assert(out@ == prev.insert(j as int, x));
            assert(before.len() == rest@.len() + 1);
            assert(x == orig[rest@.len() as int]);
            assert(done =~= seq![x] + done_before);
            assert forall|k: Seq<u8>| #[trigger] with_key(out@, k, case_sensitive) == with_key(done, k, case_sensitive) by {
                assert(with_key(prev, k, case_sensitive) == with_key(done_before, k, case_sensitive));
                assert(with_key(out@, k, case_sensitive) == with_key(seq![x] + prev, k, case_sensitive));
                assert((seq![x] + prev)[0] == x);
                assert((seq![x] + prev).drop_first() =~= prev);
                assert((seq![x] + done_before)[0] == x);
                assert((seq![x] + done_before).drop_first() =~= done_before);
            }
            assert(out@.to_multiset().add(rest@.to_multiset()) =~= prev.to_multiset().add(
                before.to_multiset(),
            ));
            let kx = sort_key(x, case_sensitive);
            if j < prev.len() {
                lemma_lex_trichotomy(sort_key(prev[j as int], case_sensitive), kx);
            }
            assert forall|a: int, b: int| 0 <= a < b < out@.len() implies key_le(out@[a], out@[b], case_sensitive) by {
                if a < j && b == j {
                    lemma_lex_trichotomy(sort_key(out@[a], case_sensitive), kx);
                } else if a < j && b > j {
                    assert(key_le(prev[a], prev[b - 1], case_sensitive));
                } else if a == j {
                    if b - 1 > j {
                        assert(key_le(prev[j as int], prev[b - 1], case_sensitive));
                        lemma_key_le_transitive(x, prev[j as int], prev[b - 1], case_sensitive);
                    }
                } else if b < j {
                    assert(key_le(prev[a], prev[b], case_sensitive));
                } else {
                    assert(key_le(prev[a - 1], prev[b - 1], case_sensitive));
                }
            }
        }
    }
    proof {
        assert(rest@ =~= Seq::<FileRecord>::empty());
        assert(out@.to_multiset() =~= out@.to_multiset().add(rest@.to_multiset()));
        assert(orig.subrange(0, orig.len() as int) =~= orig);
    }
    out
}

/// Orders the records and hashes them: the digest of a whole tree.
pub fn digest_files(records: Vec<FileRecord>, case_sensitive: bool, include_metadata: bool) -> (r: String)
    ensures
        is_tree_digest(r@, records@, case_sensitive, include_metadata),
        r@.len() == 64,
{
    let ordered = order_records(records, case_sensitive);
    compose_digest(&ordered, case_sensitive, include_metadata)
}

#[verifier::rlimit(40)]
proof fn lemma_sorted_unique(x: Seq<FileRecord>, y: Seq<FileRecord>, cs: bool)
    requires
        is_sorted(x, cs),
        is_sorted(y, cs),
        x.to_multiset() == y.to_multiset(),
        keys_distinct(x, cs),
    ensures
        x == y,
    decreases x.len(),
{
    broadcast use vstd::multiset::group_multiset_axioms;
    broadcast use vstd::seq_lib::group_to_multiset_ensures;

    if x.len() == 0 || y.len() == 0 {
        assert(x.len() == y.len());
        assert(x =~= y);
    } else {
        assert(y.to_multiset().contains(y[0]));
        assert(x.to_multiset().contains(x[0]));
        let i = choose|i: int| 0 <= i < x.len() && x[i] == y[0];
        let j = choose|j: int| 0 <= j < y.len() && y[j] == x[0];
        if i > 0 {
            assert(key_le(x[0], x[i], cs));
        }
        if j > 0 {
            assert(key_le(y[0], y[j], cs));
        }
        lemma_lex_trichotomy(sort_key(x[0], cs), sort_key(y[0], cs));
        assert(i == 0);
        assert(x.remove(0) =~= x.drop_first());
        assert(y.remove(0) =~= y.drop_first());
        assert(x.drop_first().to_multiset() == x.to_multiset().remove(x[0]));
        assert(y.drop_first().to_multiset() == y.to_multiset().remove(y[0]));
        assert(keys_distinct(x.drop_first(), cs)) by {
            assert forall|a: int, b: int|
                0 <= a < x.len() - 1 && 0 <= b < x.len() - 1 && a != b implies sort_key(
                x.drop_first()[a],
                cs,
            ) != sort_key(x.drop_first()[b], cs) by {
                assert(x.drop_first()[a] == x[a + 1]);
                assert(x.drop_first()[b] == x[b + 1]);
            }
        }
        assert(is_sorted(x.drop_first(), cs)) by {
            assert forall|a: int, b: int| 0 <= a < b < x.len() - 1 implies key_le(
                x.drop_first()[a],
                x.drop_first()[b],
                cs,
            ) by {
                assert(key_le(x[a + 1], x[b + 1], cs));
            }
        }
        assert(is_sorted(y.drop_first(), cs)) by {
            assert forall|a: int, b: int| 0 <= a < b < y.len() - 1 implies key_le(
                y.drop_first()[a],
                y.drop_first()[b],
                cs,
            ) by {
                assert(key_le(y[a + 1], y[b + 1], cs));
            }
        }
        lemma_sorted_unique(x.drop_first(), y.drop_first(), cs);
        assert(x =~= seq![x[0]] + x.drop_first());
        assert(y =~= seq![y[0]] + y.drop_first());
    }
}

#[verifier::rlimit(40)]
proof fn lemma_distinct_keys_permuted(a: Seq<FileRecord>, s: Seq<FileRecord>, cs: bool, i: int, j: int)
    requires
        s.to_multiset() == a.to_multiset(),
        keys_distinct(a, cs),
        0 <= i < s.len(),
        0 <= j < s.len(),
        i != j,
    ensures
        sort_key(s[i], cs) != sort_key(s[j], cs),
{
    broadcast use vstd::multiset::group_multiset_axioms;
    broadcast use vstd::seq_lib::group_to_multiset_ensures;

    let (v, w) = (s[i], s[j]);
    assert(a.to_multiset().contains(v));
    assert(a.to_multiset().contains(w));
    let p = choose|p: int| 0 <= p < a.len() && a[p] == v;
    if v != w {
        let q = choose|q: int| 0 <= q < a.len() && a[q] == w;
        assert(p != q);
    } else {
        let jj = if j < i { j } else { j - 1 };
        assert(s.remove(i)[jj] == w);
        assert(s.remove(i).to_multiset().contains(v));
        assert(s.remove(i).to_multiset() == a.to_multiset().remove(v));
        assert(a.remove(p).to_multiset() == a.to_multiset().remove(v));
        assert(a.remove(p).to_multiset().contains(v));
        let q = choose|q: int| 0 <= q < a.len() - 1 && a.remove(p)[q] == v;
        let qq = if q < p { q } else { q + 1 };
        assert(a[qq] == v);
        assert(qq != p);
    }
}

proof fn lemma_groups_determine_sorted(s: Seq<FileRecord>, t: Seq<FileRecord>, cs: bool)
    requires
        is_sorted(s, cs),
        is_sorted(t, cs),
        forall|k: Seq<u8>| #[trigger] with_key(s, k, cs) == with_key(t, k, cs),
    ensures
        s == t,
    decreases s.len() + t.len(),
{
    if s.len() == 0 && t.len() == 0 {
        assert(s =~= t);
    } else if s.len() == 0 {
        assert(with_key(t, sort_key(t[0], cs), cs).len() > 0);
        assert(with_key(s, sort_key(t[0], cs), cs).len() == 0);
    } else if t.len() == 0 {
        assert(with_key(s, sort_key(s[0], cs), cs).len() > 0);
        assert(with_key(t, sort_key(s[0], cs), cs).len() == 0);
    } else {
        let (k0, k1) = (sort_key(s[0], cs), sort_key(t[0], cs));
        assert(with_key(t, k1, cs).len() > 0);
        assert(with_key(s, k1, cs) == with_key(t, k1, cs));
        lemma_with_key_member(s, k1, cs);
        let i = choose|i: int| 0 <= i < s.len() && sort_key(s[i], cs) == k1;
        if i > 0 {
            assert(key_le(s[0], s[i], cs));
        }
        assert(with_key(s, k0, cs).len() > 0);
        assert(with_key(s, k0, cs) == with_key(t, k0, cs));
        lemma_with_key_member(t, k0, cs);
        let m = choose|m: int| 0 <= m < t.len() && sort_key(t[m], cs) == k0;
        if m > 0 {
            assert(key_le(t[0], t[m], cs));
        }
        lemma_lex_trichotomy(k0, k1);
        assert(k0 == k1);
        assert(with_key(s, k0, cs)[0] == s[0]);
        assert(with_key(t, k0, cs)[0] == t[0]);
        assert forall|k: Seq<u8>| #[trigger] with_key(s.drop_first(), k, cs) == with_key(t.drop_first(), k, cs) by {
            assert(with_key(s, k, cs) == with_key(t, k, cs));
            if k == k0 {
                assert(with_key(s.drop_first(), k, cs) =~= with_key(s, k, cs).drop_first());
                assert(with_key(t.drop_first(), k, cs) =~= with_key(t, k, cs).drop_first());
            }
        }
        assert(is_sorted(s.drop_first(), cs)) by {
            assert forall|a: int, b: int| 0 <= a < b < s.len() - 1 implies key_le(
                s.drop_first()[a],
                s.drop_first()[b],
                cs,
            ) by {
                assert(key_le(s[a + 1], s[b + 1], cs));
            }
        }
        assert(is_sorted(t.drop_first(), cs)) by {
            assert forall|a: int, b: int| 0 <= a < b < t.len() - 1 implies key_le(
                t.drop_first()[a],
                t.drop_first()[b],
                cs,
            ) by {
                assert(key_le(t[a + 1], t[b + 1], cs));
            }
        }
        lemma_groups_determine_sorted(s.drop_first(), t.drop_first(), cs);
        assert(s =~= seq![s[0]] + s.drop_first());
        assert(t =~= seq![t[0]] + t.drop_first());
    }
}

/// There is one stable ordering of a sequence of records, so a tree digest
/// of given records is one value.
pub proof fn lemma_tree_digest_unique(
    rs: Seq<FileRecord>,
    case_sensitive: bool,
    include_metadata: bool,
    d1: Seq<char>,
    d2: Seq<char>,
)
    requires
        is_tree_digest(d1, rs, case_sensitive, include_metadata),
        is_tree_digest(d2, rs, case_sensitive, include_metadata),
    ensures
        d1 == d2,
{
    let s1 = choose|s: Seq<FileRecord>|
        is_stable_ordering_of(s, rs, case_sensitive) && d1 == digest_of_ordered(s, case_sensitive, include_metadata);
    let s2 = choose|s: Seq<FileRecord>|
        is_stable_ordering_of(s, rs, case_sensitive) && d2 == digest_of_ordered(s, case_sensitive, include_metadata);
    assert forall|k: Seq<u8>| #[trigger] with_key(s1, k, case_sensitive) == with_key(s2, k, case_sensitive) by {
        assert(with_key(s1, k, case_sensitive) == with_key(rs, k, case_sensitive));
        assert(with_key(s2, k, case_sensitive) == with_key(rs, k, case_sensitive));
    }
    lemma_groups_determine_sorted(s1, s2, case_sensitive);
}

/// Determinism: records that are the same up to order, with no two sharing
/// a key, have one digest, whatever order a walk produced them in.
pub proof fn lemma_digest_independent_of_order(
    a: Seq<FileRecord>,
    b: Seq<FileRecord>,
    case_sensitive: bool,
    include_metadata: bool,
    da: Seq<char>,
    db: Seq<char>,
)
    requires
        a.to_multiset() == b.to_multiset(),
        keys_distinct(a, case_sensitive),
        is_tree_digest(da, a, case_sensitive, include_metadata),
        is_tree_digest(db, b, case_sensitive, include_metadata),
    ensures
        da == db,
{
    broadcast use vstd::seq_lib::group_to_multiset_ensures;

    let sa = choose|s: Seq<FileRecord>|
        is_stable_ordering_of(s, a, case_sensitive) && da == digest_of_ordered(s, case_sensitive, include_metadata);
    let sb = choose|s: Seq<FileRecord>|
        is_stable_ordering_of(s, b, case_sensitive) && db == digest_of_ordered(s, case_sensitive, include_metadata);
    assert(keys_distinct(sa, case_sensitive)) by {
        assert forall|i: int, j: int|
            0 <= i < sa.len() && 0 <= j < sa.len() && i != j implies sort_key(sa[i], case_sensitive)
                != sort_key(sa[j], case_sensitive) by {
            lemma_distinct_keys_permuted(a, sa, case_sensitive, i, j);
        }
    }
    lemma_sorted_unique(sa, sb, case_sensitive);
}

proof fn lemma_records_frame_append(a: Seq<FileRecord>, b: Seq<FileRecord>, cs: bool, im: bool)
    ensures
        records_frame(a + b, cs, im) == records_frame(a, cs, im) + records_frame(b, cs, im),
    decreases b.len(),
{
    if b.len() == 0 {
        assert(a + b =~= a);
        assert(records_frame(a, cs, im) + records_frame(b, cs, im) =~= records_frame(a, cs, im));
    } else {
        lemma_records_frame_append(a, b.drop_last(), cs, im);
        assert((a + b).drop_last() =~= a + b.drop_last());
        assert((a + b).last() == b.last());
        assert(records_frame(a + b, cs, im) =~= records_frame(a, cs, im) + records_frame(b, cs, im));
    }
}

/// The frames of a sequence split around record `i`.
proof fn lemma_records_frame_split(x: Seq<FileRecord>, i: int, cs: bool, im: bool)
    requires
        0 <= i < x.len(),
    ensures
        records_frame(x, cs, im) == records_frame(x.subrange(0, i), cs, im) + record_frame(x[i], cs, im)
            + records_frame(x.subrange(i + 1, x.len() as int), cs, im),
{
    let pre = x.subrange(0, i);
    let post = x.subrange(i + 1, x.len() as int);
    assert(x =~= pre.push(x[i]) + post);
    lemma_records_frame_append(pre.push(x[i]), post, cs, im);
    assert(pre.push(x[i]).drop_last() =~= pre);
}

/// Two orderings that agree but at record `i`, whose frames differ at
/// position `k`, give different streams.
#[verifier::rlimit(40)]
proof fn lemma_stream_differs_at(x: Seq<FileRecord>, y: Seq<FileRecord>, i: int, k: int, cs: bool, im: bool)
    requires
        x.len() == y.len(),
        0 <= i < x.len(),
        forall|j: int| 0 <= j < x.len() && j != i ==> x[j] == y[j],
        0 <= k < record_frame(x[i], cs, im).len(),
        k < record_frame(y[i], cs, im).len(),
        record_frame(x[i], cs, im)[k] != record_frame(y[i], cs, im)[k],
    ensures
        tree_stream(x, cs, im) != tree_stream(y, cs, im),
{
    let pre = x.subrange(0, i);
    let post = x.subrange(i + 1, x.len() as int);
    assert(y.subrange(0, i) =~= pre);
    assert(y.subrange(i + 1, y.len() as int) =~= post);
    lemma_records_frame_split(x, i, cs, im);
    lemma_records_frame_split(y, i, cs, im);
    let at = domain_tag().len() + records_frame(pre, cs, im).len() + k;
    assert(tree_stream(x, cs, im)[at] == record_frame(x[i], cs, im)[k]);
    assert(tree_stream(y, cs, im)[at] == record_frame(y[i], cs, im)[k]);
}

/// Changing the content digest of one file changes the bytes the tree
/// digest is taken over.
pub proof fn lemma_content_change_changes_stream(
    x: Seq<FileRecord>,
    y: Seq<FileRecord>,
    i: int,
    case_sensitive: bool,
    include_metadata: bool,
)
    requires
        x.len() == y.len(),
        0 <= i < x.len(),
        forall|j: int| 0 <= j < x.len() && j != i ==> x[j] == y[j],
        x[i].path@ == y[i].path@,
        x[i].meta == y[i].meta,
        x[i].content@ != y[i].content@,
    ensures
        tree_stream(x, case_sensitive, include_metadata) != tree_stream(y, case_sensitive, include_metadata),
{
    let (cs, im) = (case_sensitive, include_metadata);
    assert(exists|c: int| 0 <= c < 32 && x[i].content@[c] != y[i].content@[c]) by {
        if !(exists|c: int| 0 <= c < 32 && x[i].content@[c] != y[i].content@[c]) {
            assert(x[i].content@ =~= y[i].content@);
        }
    };
    let c = choose|c: int| 0 <= c < 32 && x[i].content@[c] != y[i].content@[c];
    let k = 3 + path_frame(x[i].path@, cs).len() as int + c;
    assert(record_frame(x[i], cs, im)[k] == x[i].content@[c]);
    assert(record_frame(y[i], cs, im)[k] == y[i].content@[c]);
    lemma_stream_differs_at(x, y, i, k, cs, im);
}

/// Renaming one file, so that its framed path changes, changes the bytes
/// the tree digest is taken over. Framed paths hold no NUL byte.
#[verifier::rlimit(40)]
pub proof fn lemma_rename_changes_stream(
    x: Seq<FileRecord>,
    y: Seq<FileRecord>,
    i: int,
    case_sensitive: bool,
    include_metadata: bool,
)
    requires
        x.len() == y.len(),
        0 <= i < x.len(),
        forall|j: int| 0 <= j < x.len() && j != i ==> x[j] == y[j],
        x[i].content == y[i].content,
        x[i].meta == y[i].meta,
        path_frame(x[i].path@, case_sensitive) != path_frame(y[i].path@, case_sensitive),
        !path_frame(x[i].path@, case_sensitive).contains(0u8),
        !path_frame(y[i].path@, case_sensitive).contains(0u8),
    ensures
        tree_stream(x, case_sensitive, include_metadata) != tree_stream(y, case_sensitive, include_metadata),
{
    let (cs, im) = (case_sensitive, include_metadata);
    let p = path_frame(x[i].path@, cs);
    let q = path_frame(y[i].path@, cs);
    let (rx, ry) = (record_frame(x[i], cs, im), record_frame(y[i], cs, im));
    if exists|k: int| 0 <= k < p.len() && k < q.len() && p[k] != q[k] {
        let k = choose|k: int| 0 <= k < p.len() && k < q.len() && p[k] != q[k];
        assert(rx[2 + k] == p[k]);
        assert(ry[2 + k] == q[k]);
        lemma_stream_differs_at(x, y, i, 2 + k, cs, im);
    } else if p.len() < q.len() {
        assert(rx[2 + p.len() as int] == 0u8);
        assert(ry[2 + p.len() as int] == q[p.len() as int]);
        lemma_stream_differs_at(x, y, i, 2 + p.len() as int, cs, im);
    } else if q.len() < p.len() {
        assert(ry[2 + q.len() as int] == 0u8);
        assert(rx[2 + q.len() as int] == p[q.len() as int]);
        lemma_stream_differs_at(x, y, i, 2 + q.len() as int, cs, im);
    } else {
        assert(p =~= q);
    }
}

/// With metadata excluded, records that agree in path and content give
/// the same stream, whatever their metadata.
pub proof fn lemma_metadata_ignored_when_excluded(x: Seq<FileRecord>, y: Seq<FileRecord>, case_sensitive: bool)
    requires
        x.len() == y.len(),
        forall|j: int| 0 <= j < x.len() ==> x[j].path@ == y[j].path@ && x[j].content == y[j].content,
    ensures
        records_frame(x, case_sensitive, false) == records_frame(y, case_sensitive, false),
        tree_stream(x, case_sensitive, false) == tree_stream(y, case_sensitive, false),
    decreases x.len(),
{
    if x.len() > 0 {
        lemma_metadata_ignored_when_excluded(x.drop_last(), y.drop_last(), case_sensitive);
        assert(record_frame(x.last(), case_sensitive, false) =~= record_frame(y.last(), case_sensitive, false));
    }
}

proof fn lemma_u64_le_injective(a: u64, b: u64)
    requires
        u64_le(a) == u64_le(b),
    ensures
        a == b,
{
    assert(u64_le(a)[0] == u64_le(b)[0]);
    assert(u64_le(a)[1] == u64_le(b)[1]);
    assert(u64_le(a)[2] == u64_le(b)[2]);
    assert(u64_le(a)[3] == u64_le(b)[3]);
    assert(u64_le(a)[4] == u64_le(b)[4]);
    assert(u64_le(a)[5] == u64_le(b)[5]);
    assert(u64_le(a)[6] == u64_le(b)[6]);
    assert(u64_le(a)[7] == u64_le(b)[7]);
    assert(a == b) by (bit_vector)
        requires
            a as u8 == b as u8,
            (a >> 8) as u8 == (b >> 8) as u8,
            (a >> 16) as u8 == (b >> 16) as u8,
            (a >> 24) as u8 == (b >> 24) as u8,
            (a >> 32) as u8 == (b >> 32) as u8,
            (a >> 40) as u8 == (b >> 40) as u8,
            (a >> 48) as u8 == (b >> 48) as u8,
            (a >> 56) as u8 == (b >> 56) as u8,
    ;
}

proof fn lemma_u32_le_injective(a: u32, b: u32)
    requires
        u32_le(a) == u32_le(b),
    ensures
        a == b,
{
    assert(u32_le(a)[0] == u32_le(b)[0]);
    assert(u32_le(a)[1] == u32_le(b)[1]);
    assert(u32_le(a)[2] == u32_le(b)[2]);
    assert(u32_le(a)[3] == u32_le(b)[3]);
    assert(a == b) by (bit_vector)
        requires
            a as u8 == b as u8,
            (a >> 8) as u8 == (b >> 8) as u8,
            (a >> 16) as u8 == (b >> 16) as u8,
            (a >> 24) as u8 == (b >> 24) as u8,
    ;
}

/// With metadata included, a changed modification time of one file
/// changes the bytes the tree digest is taken over.
#[verifier::rlimit(40)]
pub proof fn lemma_mtime_change_changes_stream(
    x: Seq<FileRecord>,
    y: Seq<FileRecord>,
    i: int,
    case_sensitive: bool,
)
    requires
        x.len() == y.len(),
        0 <= i < x.len(),
        forall|j: int| 0 <= j < x.len() && j != i ==> x[j] == y[j],
        x[i].path@ == y[i].path@,
        x[i].content == y[i].content,
        x[i].meta is Some,
        y[i].meta is Some,
        x[i].meta->Some_0.permissions == y[i].meta->Some_0.permissions,
        x[i].meta->Some_0.modified is Some,
        y[i].meta->Some_0.modified is Some,
        x[i].meta->Some_0.modified != y[i].meta->Some_0.modified,
    ensures
        tree_stream(x, case_sensitive, true) != tree_stream(y, case_sensitive, true),
{
    let cs = case_sensitive;
    let (mx, my) = (x[i].meta->Some_0, y[i].meta->Some_0);
    let (tx, ty) = (mx.modified->Some_0, my.modified->Some_0);
    let (fx, fy) = (meta_frame(mx), meta_frame(my));
    let perm_len = match mx.permissions {
        Permissions::Mode(_) => 4int,
        Permissions::ReadOnly(_) => 1int,
    };
    let base = 3 + path_frame(x[i].path@, cs).len() as int + 32 + 3 + perm_len;
    let (rx, ry) = (record_frame(x[i], cs, true), record_frame(y[i], cs, true));
    assert(rx.len() == ry.len());
    let tail_x = u64_le(tx.0) + u32_le(tx.1);
    let tail_y = u64_le(ty.0) + u32_le(ty.1);
    assert forall|m: int| 0 <= m < 12 implies rx[base + m] == tail_x[m] && ry[base + m] == tail_y[m] by {}
    if tail_x =~= tail_y {
        assert(u64_le(tx.0) =~= tail_x.subrange(0, 8));
        assert(u64_le(ty.0) =~= tail_y.subrange(0, 8));
        assert(u32_le(tx.1) =~= tail_x.subrange(8, 12));
        assert(u32_le(ty.1) =~= tail_y.subrange(8, 12));
        lemma_u64_le_injective(tx.0, ty.0);
        lemma_u32_le_injective(tx.1, ty.1);
        assert(false);
    }
    let m = choose|m: int| 0 <= m < 12 && tail_x[m] != tail_y[m];
    lemma_stream_differs_at(x, y, i, base + m, cs, true);
}

/// Two records that differ at most in the case of their paths, so that
/// they order and frame alike when paths are case-insensitive.
pub open spec fn case_variants(x: FileRecord, y: FileRecord) -> bool {
    &&& path_frame(x.path@, false) == path_frame(y.path@, false)
    &&& sort_key(x, false) == sort_key(y, false)
    &&& x.content == y.content
    &&& x.meta == y.meta
}

/// Paths that differ only in case give, when paths are case-insensitive,
/// the same order and the same stream.
pub proof fn lemma_case_variants_same_stream(x: Seq<FileRecord>, y: Seq<FileRecord>, include_metadata: bool)
    requires
        x.len() == y.len(),
        forall|j: int| 0 <= j < x.len() ==> case_variants(x[j], y[j]),
    ensures
        records_frame(x, false, include_metadata) == records_frame(y, false, include_metadata),
        tree_stream(x, false, include_metadata) == tree_stream(y, false, include_metadata),
        is_sorted(x, false) == is_sorted(y, false),
    decreases x.len(),
{
    if x.len() > 0 {
        lemma_case_variants_same_stream(x.drop_last(), y.drop_last(), include_metadata);
        assert(record_frame(x.last(), false, include_metadata) =~= record_frame(
            y.last(),
            false,
            include_metadata,
        ));
    }
    if is_sorted(x, false) {
        assert forall|a: int, b: int| 0 <= a < b < y.len() implies key_le(y[a], y[b], false) by {
            assert(key_le(x[a], x[b], false));
        }
    }
    if is_sorted(y, false) {
        assert forall|a: int, b: int| 0 <= a < b < x.len() implies key_le(x[a], x[b], false) by {
            assert(key_le(y[a], y[b], false));
        }
    }
}

proof fn lemma_map_to_multiset<B>(s1: Seq<FileRecord>, s2: Seq<FileRecord>, f: spec_fn(FileRecord) -> B)
    requires
        s1.to_multiset() == s2.to_multiset(),
    ensures
        s1.map_values(f).to_multiset() == s2.map_values(f).to_multiset(),
    decreases s1.len(),
{
    broadcast use vstd::multiset::group_multiset_axioms;
    broadcast use vstd::seq_lib::group_to_multiset_ensures;

    if s1.len() == 0 {
        vstd::seq_lib::to_multiset_len(s1);
        vstd::seq_lib::to_multiset_len(s2);
        assert(s2.len() == 0);
        assert(s1.map_values(f) =~= s2.map_values(f));
    } else {
        let x = s1[0];
        assert(s1.to_multiset().contains(x));
        let j = choose|j: int| 0 <= j < s2.len() && s2[j] == x;
        vstd::seq_lib::to_multiset_remove(s2, j);
        vstd::seq_lib::to_multiset_remove(s1, 0);
        assert(s1.remove(0) =~= s1.drop_first());
        lemma_map_to_multiset(s1.drop_first(), s2.remove(j), f);
        let m1 = s1.map_values(f);
        let m2 = s2.map_values(f);
        assert(m1.remove(0) =~= s1.drop_first().map_values(f));
        assert(m2.remove(j) =~= s2.remove(j).map_values(f));
        vstd::seq_lib::to_multiset_remove(m1, 0);
        vstd::seq_lib::to_multiset_remove(m2, j);
        assert(m1.to_multiset().contains(f(x)));
        assert(m2.to_multiset().contains(f(x)));
        assert(m1.to_multiset() =~= m1.remove(0).to_multiset().insert(f(x)));
        assert(m2.to_multiset() =~= m2.remove(j).to_multiset().insert(f(x)));
    }
}

/// Case-folding: with case-insensitive paths, two trees whose files
/// correspond one to one and differ at most in the case of their paths
/// have the same digest.
#[verifier::rlimit(40)]
pub proof fn lemma_case_variants_same_digest(
    a: Seq<FileRecord>,
    b: Seq<FileRecord>,
    include_metadata: bool,
    da: Seq<char>,
    db: Seq<char>,
)
    requires
        a.len() == b.len(),
        forall|j: int| 0 <= j < a.len() ==> case_variants(a[j], b[j]),
        keys_distinct(a, false),
        is_tree_digest(da, a, false, include_metadata),
        is_tree_digest(db, b, false, include_metadata),
    ensures
        da == db,
{
    broadcast use vstd::multiset::group_multiset_axioms;
    broadcast use vstd::seq_lib::group_to_multiset_ensures;

    let im = include_metadata;
    let sa = choose|s: Seq<FileRecord>| is_stable_ordering_of(s, a, false) && da == digest_of_ordered(s, false, im);
    let sb = choose|s: Seq<FileRecord>| is_stable_ordering_of(s, b, false) && db == digest_of_ordered(s, false, im);
    let f = |r: FileRecord| b[choose|j: int| 0 <= j < a.len() && a[j] == r];
    assert forall|j: int| 0 <= j < a.len() implies f(a[j]) == b[j] by {
        let k = choose|k: int| 0 <= k < a.len() && a[k] == a[j];
        assert(k == j);
    }
    assert(a.map_values(f) =~= b);
    let sb2 = sa.map_values(f);
    lemma_map_to_multiset(sa, a, f);
    assert forall|k: int| 0 <= k < sa.len() implies case_variants(sa[k], sb2[k]) by {
        assert(a.to_multiset().contains(sa[k]));
        let j = choose|j: int| 0 <= j < a.len() && a[j] == sa[k];
        assert(f(a[j]) == b[j]);
    }
    assert(sa.len() == sb2.len());
    lemma_case_variants_same_stream(sa, sb2, im);
    assert(keys_distinct(b, false)) by {
        assert forall|i: int, j: int|
            0 <= i < b.len() && 0 <= j < b.len() && i != j implies sort_key(b[i], false) != sort_key(
            b[j],
            false,
        ) by {
            assert(case_variants(a[i], b[i]));
            assert(case_variants(a[j], b[j]));
        }
    }
    assert(keys_distinct(sb2, false)) by {
        assert forall|i: int, j: int|
            0 <= i < sb2.len() && 0 <= j < sb2.len() && i != j implies sort_key(sb2[i], false)
                != sort_key(sb2[j], false) by {
            lemma_distinct_keys_permuted(b, sb2, false, i, j);
        }
    }
    lemma_sorted_unique(sb2, sb, false);
}

} // verus!
