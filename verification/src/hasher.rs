//! Content digests.
//!
//! Every digest in the pipeline is a 256-bit BLAKE3 hash rendered as 64
//! lowercase hexadecimal characters. The hash itself is computed by the
//! `blake3` crate behind a small trusted boundary: `blake3_hex` names the
//! digest of a byte sequence, and the wrappers below state how the crate's
//! incremental hasher accumulates input. Everything downstream — the partial
//! head/tail scheme, the full digest, and the grouping logic — is verified
//! against that name.

use vstd::prelude::*;

verus! {

/// Bytes read for the partial digest: the whole content when it is at most
/// one head chunk long, the head alone up to the tail threshold, and the
/// head plus the final chunk beyond it.
pub const PARTIAL_CHUNK: u64 = 16384;

/// File sizes strictly above this hash a tail chunk in addition to the head.
pub const TAIL_THRESHOLD: u64 = 32768;

/// The hex digest of a byte sequence as the `blake3` crate computes it:
/// 256 bits of output, written as 64 lowercase hex characters. The digest
/// depends on the input bytes alone.
pub uninterp spec fn blake3_hex(input: Seq<u8>) -> Seq<char>;

/// The bytes fed so far into a `blake3::Hasher`, in order.
pub uninterp spec fn hasher_input(h: blake3::Hasher) -> Seq<u8>;

#[verifier::external_type_specification]
#[verifier::external_body]
pub struct ExBlake3Hasher(blake3::Hasher);

/// A 64-character lowercase hexadecimal string: the shape of every digest
/// this library stores or compares.
pub open spec fn is_hex_digest(s: Seq<char>) -> bool {
    s.len() == 64 && forall|i: int|
        0 <= i < s.len() ==> ('0' <= #[trigger] s[i] <= '9' || 'a' <= s[i] <= 'f')
}

/// Relies on blake3::Hasher::new: a fresh hasher has absorbed no input.
#[verifier::external_body]
fn hasher_new() -> (h: blake3::Hasher)
    ensures
        hasher_input(h) == Seq::<u8>::empty(),
{
    blake3::Hasher::new()
}

/// Relies on blake3::Hasher::update: it appends the given bytes to the
/// hasher's input, so that finalizing yields the digest of the concatenation.
#[verifier::external_body]
fn hasher_update(h: &mut blake3::Hasher, bytes: &[u8])
    ensures
        hasher_input(*final(h)) == hasher_input(*old(h)) + bytes@,
{
    h.update(bytes);
}

/// Relies on blake3::Hasher::finalize and blake3::Hash::to_hex: the digest of
/// the bytes fed so far, written with the lowercase table "0123456789abcdef",
/// two characters per output byte, 64 in all.
#[verifier::external_body]
fn hasher_finalize_hex(h: &blake3::Hasher) -> (r: String)
    ensures
        r@ == blake3_hex(hasher_input(*h)),
        is_hex_digest(r@),
{
    h.finalize().to_hex().to_string()
}

/// An incremental content hasher, so a caller can stream a file through in
/// chunks of its own choosing and take the digest of the concatenation.
pub struct ContentHasher {
    inner: blake3::Hasher,
}

impl ContentHasher {
    /// The bytes fed so far, in order.
    pub closed spec fn fed(&self) -> Seq<u8> {
        hasher_input(self.inner)
    }

    pub fn new() -> (h: Self)
        ensures
            h.fed() == Seq::<u8>::empty(),
    {
        ContentHasher { inner: hasher_new() }
    }

    pub fn feed(&mut self, bytes: &[u8])
        ensures
            final(self).fed() == old(self).fed() + bytes@,
    {
        hasher_update(&mut self.inner, bytes);
    }

    /// The hex digest of everything fed so far.
    pub fn finish_hex(&self) -> (r: String)
        ensures
            r@ == blake3_hex(self.fed()),
            is_hex_digest(r@),
    {
        hasher_finalize_hex(&self.inner)
    }
}

/// The digest of a whole in-memory content.
pub fn full_digest(content: &[u8]) -> (r: String)
    ensures
        r@ == blake3_hex(content@),
        is_hex_digest(r@),
{
    let mut h = ContentHasher::new();
    h.feed(content);
    proof {
        assert(h.fed() =~= content@);
    }
    h.finish_hex()
}

/// The partial digest of a file of the given size, from the bytes a caller
/// read: up to one chunk from the head, and — only for sizes above
/// `TAIL_THRESHOLD` — up to one chunk from the tail. Head and tail go into
/// one hash context, head first. Empty files have no partial digest.
pub fn partial_digest(size: u64, head: &[u8], tail: &[u8]) -> (r: Option<String>)
    requires
        size <= TAIL_THRESHOLD ==> tail@.len() == 0,
    ensures
        r is Some <==> size > 0,
        r is Some ==> r.unwrap()@ == blake3_hex(head@ + tail@) && is_hex_digest(
            r.unwrap()@,
        ),
{
    if size == 0 {
        return None;
    }
    let mut h = ContentHasher::new();
    h.feed(head);
    h.feed(tail);
    proof {
        assert(h.fed() =~= head@ + tail@);
    }
    Some(h.finish_hex())
}

/// Whether a file of this size needs its tail chunk read and hashed in
/// addition to its head: only sizes strictly above the threshold do.
pub fn tail_read_needed(size: u64) -> (r: bool)
    ensures
        r == (size > TAIL_THRESHOLD),
{
    size > TAIL_THRESHOLD
}

/// The bytes the partial digest covers, as a function of the full content:
/// everything for small files, the head chunk alone in the middle range, and
/// head plus tail above the threshold.
pub open spec fn spec_partial_input(content: Seq<u8>) -> Seq<u8> {
    if content.len() <= PARTIAL_CHUNK {
        content
    } else if content.len() <= TAIL_THRESHOLD {
        content.take(PARTIAL_CHUNK as int)
    } else {
        content.take(PARTIAL_CHUNK as int) + content.skip(content.len() - PARTIAL_CHUNK)
    }
}

} // verus!
