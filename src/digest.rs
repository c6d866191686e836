//! Content digests: a BLAKE3 hash computed over a file's bytes as they are
//! streamed in chunks, so that memory stays bounded whatever the file's size.
use vstd::prelude::*;

verus! {

/// The BLAKE3 hash of a byte sequence, as 32 bytes.
pub uninterp spec fn blake3_hash(input: Seq<u8>) -> Seq<u8>;

/// The bytes that a `blake3::Hasher` has been given so far, in order.
pub uninterp spec fn hasher_input(h: blake3::Hasher) -> Seq<u8>;

#[verifier::external_type_specification]
#[verifier::external_body]
pub struct ExHasher(blake3::Hasher);

/// Relies on `blake3::Hasher::new`: a hasher that has been given no input.
#[verifier::external_body]
fn new_hasher() -> (r: blake3::Hasher)
    ensures
        hasher_input(r) == Seq::<u8>::empty(),
{
    blake3::Hasher::new()
}

/// Relies on `blake3::Hasher::update`: the bytes are appended to the input
/// hashed so far.
#[verifier::external_body]
fn hasher_update(h: &mut blake3::Hasher, data: &[u8])
    ensures
        hasher_input(*final(h)) == hasher_input(*old(h)) + data@,
{
    h.update(data);
}

/// Relies on `blake3::Hasher::finalize` and `blake3::Hash::as_bytes`: the hash
/// of all the input given so far, the same as `blake3::hash` of it in one piece.
#[verifier::external_body]
fn hasher_finalize(h: &blake3::Hasher) -> (r: [u8; 32])
    ensures
        r@ == blake3_hash(hasher_input(*h)),
{
    *h.finalize().as_bytes()
}

/// What a read of the next chunk of a file produced.
pub enum ChunkRead<'a> {
    /// The bytes that were read; none at all means the end of the file.
    Bytes(&'a [u8]),
    /// The read failed.
    Failed,
}

/// Where the digest of one file stands after a read.
pub enum DigestProgress {
    /// More of the file is to be read into this digester.
    Pending(FileDigester),
    /// The whole file was read: its digest.
    Complete([u8; 32]),
    /// A read failed: nothing is kept of this file.
    Discarded,
}

/// The digest of one file, built up chunk by chunk.
pub struct FileDigester {
    hasher: blake3::Hasher,
}

/// The content that a sequence of chunk reads delivers, in order.
pub open spec fn streamed(chunks: Seq<Seq<u8>>) -> Seq<u8>
    decreases chunks.len(),
{
    if chunks.len() == 0 {
        Seq::empty()
    } else {
        streamed(chunks.drop_last()) + chunks.last()
    }
}

impl FileDigester {
    /// The bytes of the file that this digester has been given so far.
    pub closed spec fn fed(&self) -> Seq<u8> {
        hasher_input(self.hasher)
    }

    /// A digester that has read nothing yet.
    pub fn new() -> (r: FileDigester)
        ensures
            r.fed() == Seq::<u8>::empty(),
    {
        FileDigester { hasher: new_hasher() }
    }

    /// Takes in the outcome of one read: a chunk of bytes is added to the
    /// content, an empty chunk completes the digest of all the content read, and
    /// a failed read discards what was read so far.
    pub fn step(self, read: ChunkRead) -> (r: DigestProgress)
        ensures
            match read {
                ChunkRead::Bytes(chunk) => if chunk@.len() == 0 {
                    r is Complete && r->Complete_0@ == blake3_hash(self.fed())
                } else {
                    r is Pending && r->Pending_0.fed() == self.fed() + chunk@
                },
                ChunkRead::Failed => r is Discarded,
            },
    {
        match read {
            ChunkRead::Bytes(chunk) => {
                if chunk.len() == 0 {
                    DigestProgress::Complete(hasher_finalize(&self.hasher))
                } else {
                    let mut hasher = self.hasher;
                    hasher_update(&mut hasher, chunk);
                    DigestProgress::Pending(FileDigester { hasher })
                }
            },
            ChunkRead::Failed => DigestProgress::Discarded,
        }
    }
}

/// A digest depends on the content alone: two files whose chunk reads deliver
/// the same bytes, however those bytes were cut into chunks, get the same
/// digest.
pub proof fn lemma_same_content_same_digest(a: Seq<Seq<u8>>, b: Seq<Seq<u8>>)
    requires
        a.flatten() == b.flatten(),
    ensures
        blake3_hash(streamed(a)) == blake3_hash(streamed(b)),
{
    lemma_streamed_is_flatten(a);
    lemma_streamed_is_flatten(b);
}

/// The content delivered by a sequence of chunks is their concatenation.
pub proof fn lemma_streamed_is_flatten(chunks: Seq<Seq<u8>>)
    ensures
        streamed(chunks) == chunks.flatten(),
    decreases chunks.len(),
{
    if chunks.len() > 0 {
        lemma_streamed_is_flatten(chunks.drop_last());
        chunks.drop_last().lemma_flatten_and_flatten_alt_are_equivalent();
    }
    chunks.lemma_flatten_and_flatten_alt_are_equivalent();
}

} // verus!
