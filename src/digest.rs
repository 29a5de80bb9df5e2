//! BLAKE3 hashing, as a stream of bytes fed into a hasher.

use vstd::prelude::*;

verus! {

#[verifier::external_type_specification]
#[verifier::external_body]
pub struct ExHasher(blake3::Hasher);

/// The bytes that a BLAKE3 hasher has taken in so far.
pub uninterp spec fn hasher_input(h: blake3::Hasher) -> Seq<u8>;

/// The 32-byte BLAKE3 digest of a byte string.
pub uninterp spec fn blake3_of(data: Seq<u8>) -> Seq<u8>;

/// Relies on blake3::Hasher::new: a fresh hasher has taken in no input.
#[verifier::external_body]
pub(crate) fn hasher_new() -> (r: blake3::Hasher)
    ensures
        hasher_input(r) == Seq::<u8>::empty(),
{
    blake3::Hasher::new()
}

/// Relies on blake3::Hasher::update: the input is appended to what the
/// hasher has taken in.
#[verifier::external_body]
pub(crate) fn hasher_update(h: &mut blake3::Hasher, data: &[u8])
    ensures
        hasher_input(*final(h)) == hasher_input(*old(h)) + data@,
{
    h.update(data);
}

/// Relies on blake3::Hasher::finalize and blake3::Hash::as_bytes: the
/// digest of everything taken in, which `finalize` leaves unchanged.
#[verifier::external_body]
pub(crate) fn hasher_finalize(h: &blake3::Hasher) -> (r: [u8; 32])
    ensures
        r@ == blake3_of(hasher_input(*h)),
{
    *h.finalize().as_bytes()
}

/// Streaming hash of one file's content, fed chunk by chunk.
pub struct ContentHasher {
    inner: blake3::Hasher,
}

impl View for ContentHasher {
    type V = Seq<u8>;

    closed spec fn view(&self) -> Seq<u8> {
        hasher_input(self.inner)
    }
}

impl ContentHasher {
    pub fn new() -> (r: ContentHasher)
        ensures
            r@ == Seq::<u8>::empty(),
    {
        ContentHasher { inner: hasher_new() }
    }

    pub fn update(&mut self, chunk: &[u8])
        ensures
            final(self)@ == old(self)@ + chunk@,
    {
        hasher_update(&mut self.inner, chunk);
    }

    /// The content digest of every byte fed so far.
    pub fn finish(&self) -> (r: [u8; 32])
        ensures
            r@ == blake3_of(self@),
    {
        hasher_finalize(&self.inner)
    }
}

} // verus!
