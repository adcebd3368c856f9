//! Content digests: the head-and-tail fingerprint that narrows candidates
//! and the digest of the whole content that confirms duplicates.

use vstd::prelude::*;
use vstd::slice::slice_subrange;

verus! {

/// The number of bytes sampled from each end of a file.
pub const WINDOW: usize = 4096;

/// The number of bytes that the digest of a whole content takes in at a
/// time.
pub const CHUNK: usize = 65536;

/// The BLAKE3 digest of `data`, in lowercase hexadecimal.
pub uninterp spec fn blake3_hex(data: Seq<u8>) -> Seq<char>;

/// `blake3::Hasher`, carried as an opaque value.
#[verifier::external_type_specification]
#[verifier::external_body]
pub struct ExHasher(blake3::Hasher);

/// The bytes that a hasher has taken in since it was made, in their order.
pub uninterp spec fn absorbed(h: blake3::Hasher) -> Seq<u8>;

/// Whether a hasher takes its input from the start, at offset zero.
pub uninterp spec fn from_start(h: blake3::Hasher) -> bool;

/// Calls `blake3::Hasher::new`. Trusted: the new hasher has taken in
/// nothing, and takes its input from the start.
#[verifier::external_body]
fn hasher_new() -> (h: blake3::Hasher)
    ensures
        absorbed(h) == Seq::<u8>::empty(),
        from_start(h),
{
    blake3::Hasher::new()
}

/// Calls `blake3::Hasher::update`, which does not panic on a hasher that
/// takes its input from the start. Trusted: the hasher has then taken in
/// what it had before, followed by the bytes of `data`, and its offset is
/// as before.
#[verifier::external_body]
fn hasher_update(h: &mut blake3::Hasher, data: &[u8])
    requires
        from_start(*old(h)),
    ensures
        absorbed(*final(h)) == absorbed(*old(h)) + data@,
        from_start(*final(h)),
    no_unwind
{
    h.update(data);
}

/// Calls `blake3::Hasher::finalize`, which does not panic on a hasher that
/// takes its input from the start, and renders the result with
/// `Hash::to_hex`. Trusted: the string is the BLAKE3 digest of the bytes
/// taken in, whatever the pieces in which they came.
#[verifier::external_body]
fn hasher_hex(h: &blake3::Hasher) -> (r: String)
    requires
        from_start(*h),
    ensures
        r@ == blake3_hex(absorbed(*h)),
{
    h.finalize().to_hex().to_string()
}

/// A digest in the making: content is handed over piece by piece.
pub struct ContentHasher {
    inner: blake3::Hasher,
}

impl ContentHasher {
    /// The hasher within takes its input from the start.
    #[verifier::type_invariant]
    spec fn whole_input(self) -> bool {
        from_start(self.inner)
    }

    /// The bytes handed over so far.
    pub closed spec fn content(&self) -> Seq<u8> {
        absorbed(self.inner)
    }

    /// A hasher that has been handed nothing.
    pub fn new() -> (h: Self)
        ensures
            h.content() == Seq::<u8>::empty(),
    {
        ContentHasher { inner: hasher_new() }
    }

    /// Hands over the next piece of the content.
    pub fn update(&mut self, piece: &[u8])
        ensures
            final(self).content() == old(self).content() + piece@,
    {
        proof {
            use_type_invariant(&*self);
        }
        hasher_update(&mut self.inner, piece);
    }

    /// The digest of all that was handed over.
    pub fn finish(&self) -> (r: String)
        ensures
            r@ == blake3_hex(self.content()),
    {
        proof {
            use_type_invariant(self);
        }
        hasher_hex(&self.inner)
    }
}

/// How many bytes the head sample takes from a file of `len` bytes.
pub open spec fn head_len(len: int) -> int {
    if len < WINDOW {
        len
    } else {
        WINDOW as int
    }
}

/// How many bytes the tail sample takes, once `head_read` bytes were read
/// from the start of a file of `len` bytes.
pub open spec fn tail_len(len: int, head_read: int) -> int {
    if len > head_read {
        if len - head_read < WINDOW {
            len - head_read
        } else {
            WINDOW as int
        }
    } else {
        0
    }
}

/// The bytes that the fingerprint is taken of: the head, then the tail.
pub open spec fn sample(content: Seq<u8>) -> Seq<u8> {
    let head = head_len(content.len() as int);
    let tail = tail_len(content.len() as int, head);
    content.subrange(0, head) + content.subrange(content.len() - tail, content.len() as int)
}

/// The sample of a file has as many bytes as the file, up to two windows,
/// and its two parts never overlap.
pub proof fn lemma_sample_len(content: Seq<u8>)
    ensures
        sample(content).len() == if content.len() < 2 * WINDOW {
            content.len() as int
        } else {
            2 * WINDOW
        },
        head_len(content.len() as int) + tail_len(
            content.len() as int,
            head_len(content.len() as int),
        ) <= content.len(),
        content.len() <= WINDOW ==> sample(content) =~= content,
{
}

/// The number of bytes to read from the end of a file of `len` bytes after
/// `head_read` bytes came from its start: nothing where the head covered the
/// file, else what is left, up to one window.
pub fn tail_window(len: u64, head_read: usize) -> (r: usize)
    ensures
        r == tail_len(len as int, head_read as int),
        r <= WINDOW,
{
    let head: u64 = head_read as u64;
    if len > head {
        let rest: u64 = len - head;
        if rest < WINDOW as u64 {
            rest as usize
        } else {
            WINDOW
        }
    } else {
        0
    }
}

/// The fingerprint of the bytes read: the digest of the head followed by the
/// tail.
pub fn partial_fingerprint(head: &[u8], tail: &[u8]) -> (r: String)
    ensures
        r@ == blake3_hex(head@ + tail@),
{
    let mut hasher = ContentHasher::new();
    hasher.update(head);
    hasher.update(tail);
    hasher.finish()
}

/// The fingerprint of a file whose content is at hand.
pub fn partial_hash(content: &[u8]) -> (r: String)
    ensures
        r@ == blake3_hex(sample(content@)),
{
    let len: usize = content.len();
    let head: usize = if len < WINDOW {
        len
    } else {
        WINDOW
    };
    let tail: usize = tail_window(len as u64, head);
    partial_fingerprint(slice_subrange(content, 0, head), slice_subrange(content, len - tail, len))
}

/// The digest of the whole content, taken in chunk by chunk.
pub fn full_hash(content: &[u8]) -> (r: String)
    ensures
        r@ == blake3_hex(content@),
{
    let len: usize = content.len();
    let mut hasher = ContentHasher::new();
    let mut pos: usize = 0;
    while pos < len
        invariant
            pos <= len,
            len == content@.len(),
            hasher.content() == content@.take(pos as int),
        decreases len - pos,
    {
        let end: usize = if len - pos < CHUNK {
            len
        } else {
            pos + CHUNK
        };
        hasher.update(slice_subrange(content, pos, end));
        assert(content@.take(pos as int) + content@.subrange(pos as int, end as int)
            =~= content@.take(end as int));
        pos = end;
    }
    assert(content@.take(len as int) =~= content@);
    hasher.finish()
}

} // verus!
