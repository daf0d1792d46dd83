use crate::algorithm::HashAlgorithm;
use crate::hex::{hex_chars, hexlify};
use vstd::bytes::{spec_u128_to_le_bytes, u128_to_le_bytes};
use vstd::prelude::*;
use vstd::slice::slice_subrange;

verus! {

/// `xxhash_rust::xxh3::Xxh3Default`, the streaming XXH3 state with the
/// default seed and secret. Nothing inside it is visible to proofs.
#[verifier::external_type_specification]
#[verifier::external_body]
pub struct ExXxh3Default(xxhash_rust::xxh3::Xxh3Default);

/// `md5::Context`, the streaming MD5 state. Nothing inside it is visible to
/// proofs.
#[verifier::external_type_specification]
#[verifier::external_body]
pub struct ExMd5Context(md5::Context);

/// `sha2::Sha224`, the streaming SHA-224 state. Nothing inside it is visible
/// to proofs.
#[verifier::external_type_specification]
#[verifier::external_body]
pub struct ExSha224(sha2::Sha224);

/// `sha2::Sha256`, the streaming SHA-256 state. Nothing inside it is visible
/// to proofs.
#[verifier::external_type_specification]
#[verifier::external_body]
pub struct ExSha256(sha2::Sha256);

/// `sha2::Sha384`, the streaming SHA-384 state. Nothing inside it is visible
/// to proofs.
#[verifier::external_type_specification]
#[verifier::external_body]
pub struct ExSha384(sha2::Sha384);

/// `sha2::Sha512`, the streaming SHA-512 state. Nothing inside it is visible
/// to proofs.
#[verifier::external_type_specification]
#[verifier::external_body]
pub struct ExSha512(sha2::Sha512);

/// The bytes that a streaming XXH3 state has taken in since it was made.
pub uninterp spec fn xxh3_absorbed(state: xxhash_rust::xxh3::Xxh3Default) -> Seq<u8>;

/// The 128-bit XXH3 hash, with the default seed and secret, of a byte stream.
pub uninterp spec fn xxh3_hash128(data: Seq<u8>) -> u128;

/// The bytes that an MD5 context has taken in since it was made.
pub uninterp spec fn md5_absorbed(state: md5::Context) -> Seq<u8>;

/// The MD5 digest of a byte stream.
pub uninterp spec fn md5_digest(data: Seq<u8>) -> Seq<u8>;

/// The bytes that a SHA-224 state has taken in since it was made.
pub uninterp spec fn sha224_absorbed(state: sha2::Sha224) -> Seq<u8>;

/// The SHA-224 digest of a byte stream.
pub uninterp spec fn sha224_digest(data: Seq<u8>) -> Seq<u8>;

/// The bytes that a SHA-256 state has taken in since it was made.
pub uninterp spec fn sha256_absorbed(state: sha2::Sha256) -> Seq<u8>;

/// The SHA-256 digest of a byte stream.
pub uninterp spec fn sha256_digest(data: Seq<u8>) -> Seq<u8>;

/// The bytes that a SHA-384 state has taken in since it was made.
pub uninterp spec fn sha384_absorbed(state: sha2::Sha384) -> Seq<u8>;

/// The SHA-384 digest of a byte stream.
pub uninterp spec fn sha384_digest(data: Seq<u8>) -> Seq<u8>;

/// The bytes that a SHA-512 state has taken in since it was made.
pub uninterp spec fn sha512_absorbed(state: sha2::Sha512) -> Seq<u8>;

/// The SHA-512 digest of a byte stream.
pub uninterp spec fn sha512_digest(data: Seq<u8>) -> Seq<u8>;

/// `Xxh3Default::default` makes a streaming state that has taken in nothing.
#[verifier::external_body]
fn xxh3_create() -> (state: xxhash_rust::xxh3::Xxh3Default)
    ensures
        xxh3_absorbed(state) == Seq::<u8>::empty(),
{
    xxhash_rust::xxh3::Xxh3Default::default()
}

/// `Xxh3Default::update` hashes one more chunk: the state has then taken in
/// the earlier bytes followed by the chunk.
#[verifier::external_body]
fn xxh3_update(state: &mut xxhash_rust::xxh3::Xxh3Default, data: &[u8])
    ensures
        xxh3_absorbed(*final(state)) == xxh3_absorbed(*old(state)) + data@,
{
    state.update(data)
}

/// `Xxh3Default::digest128` returns the 128-bit hash of everything the state
/// has taken in; the state is left as it was.
#[verifier::external_body]
fn xxh3_digest128(state: &xxhash_rust::xxh3::Xxh3Default) -> (hash: u128)
    ensures
        hash == xxh3_hash128(xxh3_absorbed(*state)),
{
    state.digest128()
}

/// `md5::Context::new` makes a context that has taken in nothing.
#[verifier::external_body]
fn md5_create() -> (state: md5::Context)
    ensures
        md5_absorbed(state) == Seq::<u8>::empty(),
{
    md5::Context::new()
}

/// `md5::Context::consume` takes in one more chunk: the context has then
/// taken in the earlier bytes followed by the chunk.
#[verifier::external_body]
fn md5_update(state: &mut md5::Context, data: &[u8])
    ensures
        md5_absorbed(*final(state)) == md5_absorbed(*old(state)) + data@,
{
    state.consume(data)
}

/// `md5::Context::finalize` returns the 16-byte MD5 digest of everything the
/// context has taken in.
#[verifier::external_body]
fn md5_finalize(state: md5::Context) -> (digest: Vec<u8>)
    ensures
        digest@ == md5_digest(md5_absorbed(state)),
        digest@.len() == 16,
{
    state.finalize().0.to_vec()
}

/// `Sha224::default` makes a hasher that has taken in nothing.
#[verifier::external_body]
fn sha224_create() -> (state: sha2::Sha224)
    ensures
        sha224_absorbed(state) == Seq::<u8>::empty(),
{
    <sha2::Sha224 as Default>::default()
}

/// `Digest::update` on a `Sha224` processes one more chunk: the hasher has
/// then taken in the earlier bytes followed by the chunk.
#[verifier::external_body]
fn sha224_update(state: &mut sha2::Sha224, data: &[u8])
    ensures
        sha224_absorbed(*final(state)) == sha224_absorbed(*old(state)) + data@,
{
    sha2::Digest::update(state, data)
}

/// `Digest::finalize` on a `Sha224` returns the 28-byte SHA-224 digest of
/// everything the hasher has taken in.
#[verifier::external_body]
fn sha224_finalize(state: sha2::Sha224) -> (digest: Vec<u8>)
    ensures
        digest@ == sha224_digest(sha224_absorbed(state)),
        digest@.len() == 28,
{
    sha2::Digest::finalize(state).to_vec()
}

/// `Sha256::default` makes a hasher that has taken in nothing.
#[verifier::external_body]
fn sha256_create() -> (state: sha2::Sha256)
    ensures
        sha256_absorbed(state) == Seq::<u8>::empty(),
{
    <sha2::Sha256 as Default>::default()
}

/// `Digest::update` on a `Sha256` processes one more chunk: the hasher has
/// then taken in the earlier bytes followed by the chunk.
#[verifier::external_body]
fn sha256_update(state: &mut sha2::Sha256, data: &[u8])
    ensures
        sha256_absorbed(*final(state)) == sha256_absorbed(*old(state)) + data@,
{
    sha2::Digest::update(state, data)
}

/// `Digest::finalize` on a `Sha256` returns the 32-byte SHA-256 digest of
/// everything the hasher has taken in.
#[verifier::external_body]
fn sha256_finalize(state: sha2::Sha256) -> (digest: Vec<u8>)
    ensures
        digest@ == sha256_digest(sha256_absorbed(state)),
        digest@.len() == 32,
{
    sha2::Digest::finalize(state).to_vec()
}

/// `Sha384::default` makes a hasher that has taken in nothing.
#[verifier::external_body]
fn sha384_create() -> (state: sha2::Sha384)
    ensures
        sha384_absorbed(state) == Seq::<u8>::empty(),
{
    <sha2::Sha384 as Default>::default()
}

/// `Digest::update` on a `Sha384` processes one more chunk: the hasher has
/// then taken in the earlier bytes followed by the chunk.
#[verifier::external_body]
fn sha384_update(state: &mut sha2::Sha384, data: &[u8])
    ensures
        sha384_absorbed(*final(state)) == sha384_absorbed(*old(state)) + data@,
{
    sha2::Digest::update(state, data)
}

/// `Digest::finalize` on a `Sha384` returns the 48-byte SHA-384 digest of
/// everything the hasher has taken in.
#[verifier::external_body]
fn sha384_finalize(state: sha2::Sha384) -> (digest: Vec<u8>)
    ensures
        digest@ == sha384_digest(sha384_absorbed(state)),
        digest@.len() == 48,
{
    sha2::Digest::finalize(state).to_vec()
}

/// `Sha512::default` makes a hasher that has taken in nothing.
#[verifier::external_body]
fn sha512_create() -> (state: sha2::Sha512)
    ensures
        sha512_absorbed(state) == Seq::<u8>::empty(),
{
    <sha2::Sha512 as Default>::default()
}

/// `Digest::update` on a `Sha512` processes one more chunk: the hasher has
/// then taken in the earlier bytes followed by the chunk.
#[verifier::external_body]
fn sha512_update(state: &mut sha2::Sha512, data: &[u8])
    ensures
        sha512_absorbed(*final(state)) == sha512_absorbed(*old(state)) + data@,
{
    sha2::Digest::update(state, data)
}

/// `Digest::finalize` on a `Sha512` returns the 64-byte SHA-512 digest of
/// everything the hasher has taken in.
#[verifier::external_body]
fn sha512_finalize(state: sha2::Sha512) -> (digest: Vec<u8>)
    ensures
        digest@ == sha512_digest(sha512_absorbed(state)),
        digest@.len() == 64,
{
    sha2::Digest::finalize(state).to_vec()
}

/// The digest that an algorithm assigns to a byte stream. The 128-bit XXH3
/// hash is laid out least significant byte first.
pub open spec fn digest_bytes(algorithm: HashAlgorithm, data: Seq<u8>) -> Seq<u8> {
    match algorithm {
        HashAlgorithm::Xxh3 => spec_u128_to_le_bytes(xxh3_hash128(data)),
        HashAlgorithm::Sha224 => sha224_digest(data),
        HashAlgorithm::Sha256 => sha256_digest(data),
        HashAlgorithm::Sha384 => sha384_digest(data),
        HashAlgorithm::Sha512 => sha512_digest(data),
        HashAlgorithm::Md5 => md5_digest(data),
    }
}

/// The hexadecimal digest that an algorithm assigns to a byte stream.
pub open spec fn hex_digest(algorithm: HashAlgorithm, data: Seq<u8>) -> Seq<char> {
    hex_chars(digest_bytes(algorithm, data))
}

/// An incremental digest state: made empty, fed any number of chunks, then
/// finalized into the digest of the chunks joined in the order they came.
pub trait Hasher: Sized {
    /// The algorithm that this state computes.
    spec fn algorithm() -> HashAlgorithm;

    /// The bytes taken in so far, in order.
    spec fn absorbed(&self) -> Seq<u8>;

    /// Takes in one more chunk.
    fn update(&mut self, data: &[u8])
        ensures
            final(self).absorbed() == old(self).absorbed() + data@,
    ;

    /// Gives the digest of everything taken in: as many bytes as the
    /// algorithm's digest size says.
    fn finalize(self) -> (digest: Vec<u8>)
        ensures
            digest@ == digest_bytes(Self::algorithm(), self.absorbed()),
            digest@.len() == Self::algorithm().spec_digest_size(),
    ;

    /// Makes a state that has taken in nothing.
    fn create() -> (state: Self)
        ensures
            state.absorbed() == Seq::<u8>::empty(),
    ;
}

impl Hasher for xxhash_rust::xxh3::Xxh3Default {
    open spec fn algorithm() -> HashAlgorithm {
        HashAlgorithm::Xxh3
    }

    open spec fn absorbed(&self) -> Seq<u8> {
        xxh3_absorbed(*self)
    }

    fn update(&mut self, data: &[u8]) {
        xxh3_update(self, data)
    }

    fn finalize(self) -> (digest: Vec<u8>) {
        u128_to_le_bytes(xxh3_digest128(&self))
    }

    fn create() -> (state: Self) {
        xxh3_create()
    }
}

impl Hasher for md5::Context {
    open spec fn algorithm() -> HashAlgorithm {
        HashAlgorithm::Md5
    }

    open spec fn absorbed(&self) -> Seq<u8> {
        md5_absorbed(*self)
    }

    fn update(&mut self, data: &[u8]) {
        md5_update(self, data)
    }

    fn finalize(self) -> (digest: Vec<u8>) {
        md5_finalize(self)
    }

    fn create() -> (state: Self) {
        md5_create()
    }
}

impl Hasher for sha2::Sha224 {
    open spec fn algorithm() -> HashAlgorithm {
        HashAlgorithm::Sha224
    }

    open spec fn absorbed(&self) -> Seq<u8> {
        sha224_absorbed(*self)
    }

    fn update(&mut self, data: &[u8]) {
        sha224_update(self, data)
    }

    fn finalize(self) -> (digest: Vec<u8>) {
        sha224_finalize(self)
    }

    fn create() -> (state: Self) {
        sha224_create()
    }
}

impl Hasher for sha2::Sha256 {
    open spec fn algorithm() -> HashAlgorithm {
        HashAlgorithm::Sha256
    }

    open spec fn absorbed(&self) -> Seq<u8> {
        sha256_absorbed(*self)
    }

    fn update(&mut self, data: &[u8]) {
        sha256_update(self, data)
    }

    fn finalize(self) -> (digest: Vec<u8>) {
        sha256_finalize(self)
    }

    fn create() -> (state: Self) {
        sha256_create()
    }
}

impl Hasher for sha2::Sha384 {
    open spec fn algorithm() -> HashAlgorithm {
        HashAlgorithm::Sha384
    }

    open spec fn absorbed(&self) -> Seq<u8> {
        sha384_absorbed(*self)
    }

    fn update(&mut self, data: &[u8]) {
        sha384_update(self, data)
    }

    fn finalize(self) -> (digest: Vec<u8>) {
        sha384_finalize(self)
    }

    fn create() -> (state: Self) {
        sha384_create()
    }
}

impl Hasher for sha2::Sha512 {
    open spec fn algorithm() -> HashAlgorithm {
        HashAlgorithm::Sha512
    }

    open spec fn absorbed(&self) -> Seq<u8> {
        sha512_absorbed(*self)
    }

    fn update(&mut self, data: &[u8]) {
        sha512_update(self, data)
    }

    fn finalize(self) -> (digest: Vec<u8>) {
        sha512_finalize(self)
    }

    fn create() -> (state: Self) {
        sha512_create()
    }
}

/// Files larger than this many bytes (20 MiB) are digested through a mapped
/// view of the whole file.
pub const MAP_THRESHOLD: u64 = 20971520;

/// Smaller files are read, and digested, in chunks of this many bytes
/// (128 KiB).
pub const CHUNK_SIZE: usize = 131072;

/// How a file's content reaches the digest state.
#[derive(Debug, Clone, Copy, PartialEq, Eq, Structural)]
pub enum ReadStrategy {
    /// The whole content as one chunk, through a memory-mapped view.
    Mapped,
    /// Chunk after chunk through a buffered reader.
    Buffered,
}

/// Picks the read strategy for a file of the given size: mapped strictly
/// above the threshold, buffered at or below it.
pub fn read_strategy(file_size: u64) -> (strategy: ReadStrategy)
    ensures
        strategy == (if file_size > MAP_THRESHOLD {
            ReadStrategy::Mapped
        } else {
            ReadStrategy::Buffered
        }),
{
    if file_size > MAP_THRESHOLD {
        ReadStrategy::Mapped
    } else {
        ReadStrategy::Buffered
    }
}

/// Finalizes a state and renders its digest as lowercase hexadecimal text.
pub fn finish<H: Hasher>(state: H) -> (text: String)
    ensures
        text@ == hex_digest(H::algorithm(), state.absorbed()),
        text@.len() == 2 * H::algorithm().spec_digest_size(),
{
    hexlify(state.finalize())
}

/// Digests a content handed over as a single chunk, as the mapped strategy
/// does.
pub fn hash_mapped<H: Hasher>(content: &[u8]) -> (text: String)
    ensures
        text@ == hex_digest(H::algorithm(), content@),
        text@.len() == 2 * H::algorithm().spec_digest_size(),
{
    let mut state = H::create();
    state.update(content);
    assert(state.absorbed() =~= content@);
    finish(state)
}

/// Digests a content fed in consecutive chunks of at most `chunk_size`
/// bytes, as the buffered strategy does. The result does not depend on the
/// chunk size: it is the digest of the content.
pub fn hash_buffered<H: Hasher>(content: &[u8], chunk_size: usize) -> (text: String)
    requires
        chunk_size > 0,
    ensures
        text@ == hex_digest(H::algorithm(), content@),
        text@.len() == 2 * H::algorithm().spec_digest_size(),
{
    let mut state = H::create();
    let total: usize = content.len();
    let mut offset: usize = 0;
    while offset < total
        invariant
            chunk_size > 0,
            total == content@.len(),
            offset <= total,
            state.absorbed() == content@.take(offset as int),
        decreases total - offset,
    {
        let end: usize = if total - offset > chunk_size {
            offset + chunk_size
        } else {
            total
        };
        let chunk = slice_subrange(content, offset, end);
        state.update(chunk);
        assert(content@.take(offset as int) + content@.subrange(offset as int, end as int)
            =~= content@.take(end as int));
        offset = end;
    }
    assert(content@.take(offset as int) =~= content@);
    finish(state)
}

/// Digests a sequence of chunks in order. The result is the digest of the
/// chunks joined end to end.
pub fn hash_chunks<H: Hasher>(chunks: &Vec<Vec<u8>>) -> (text: String)
    ensures
        text@ == hex_digest(H::algorithm(), joined(chunks.deep_view())),
        text@.len() == 2 * H::algorithm().spec_digest_size(),
{
    let mut state = H::create();
    let mut i: usize = 0;
    assert(joined(chunks.deep_view().take(0)) =~= Seq::<u8>::empty());
    while i < chunks.len()
        invariant
            i <= chunks.len(),
            state.absorbed() == joined(chunks.deep_view().take(i as int)),
        decreases chunks.len() - i,
    {
        state.update(chunks[i].as_slice());
        proof {
            let before = chunks.deep_view().take(i as int);
            let after = chunks.deep_view().take(i + 1);
            assert(after.drop_last() =~= before);
            assert(after.last() == chunks[i as int]@);
        }
        i += 1;
    }
    assert(chunks.deep_view().take(i as int) =~= chunks.deep_view());
    finish(state)
}

/// A list of chunks joined end to end.
pub open spec fn joined(chunks: Seq<Seq<u8>>) -> Seq<u8>
    decreases chunks.len(),
{
    if chunks.len() == 0 {
        Seq::<u8>::empty()
    } else {
        joined(chunks.drop_last()) + chunks.last()
    }
}

/// Digests a content with the given algorithm and renders the digest as
/// lowercase hexadecimal text, twice as many characters as the algorithm
/// has digest bytes.
pub fn hash_content(algorithm: HashAlgorithm, content: &[u8]) -> (text: String)
    ensures
        text@ == hex_digest(algorithm, content@),
        text@.len() == 2 * algorithm.spec_digest_size(),
{
    match algorithm {
        HashAlgorithm::Xxh3 => hash_mapped::<xxhash_rust::xxh3::Xxh3Default>(content),
        HashAlgorithm::Sha224 => hash_mapped::<sha2::Sha224>(content),
        HashAlgorithm::Sha256 => hash_mapped::<sha2::Sha256>(content),
        HashAlgorithm::Sha384 => hash_mapped::<sha2::Sha384>(content),
        HashAlgorithm::Sha512 => hash_mapped::<sha2::Sha512>(content),
        HashAlgorithm::Md5 => hash_mapped::<md5::Context>(content),
    }
}

/// The chunks in which the buffered strategy feeds a content: consecutive
/// pieces of `size` bytes, the last one shorter where the length is no
/// multiple of `size`.
pub open spec fn chunked(content: Seq<u8>, size: int) -> Seq<Seq<u8>>
    recommends
        size > 0,
    decreases content.len(),
{
    if size <= 0 || content.len() == 0 {
        Seq::empty()
    } else if content.len() <= size {
        seq![content]
    } else {
        seq![content.take(size)] + chunked(content.skip(size), size)
    }
}

/// Joining distributes over putting a chunk in front.
proof fn lemma_joined_front(first: Seq<u8>, rest: Seq<Seq<u8>>)
    ensures
        joined(seq![first] + rest) == first + joined(rest),
    decreases rest.len(),
{
    let all = seq![first] + rest;
    if rest.len() == 0 {
        assert(all.drop_last() =~= Seq::<Seq<u8>>::empty());
        assert(joined(all.drop_last()) =~= Seq::<u8>::empty());
        assert(joined(all) =~= first + joined(rest));
    } else {
        assert(all.drop_last() =~= seq![first] + rest.drop_last());
        assert(all.last() == rest.last());
        lemma_joined_front(first, rest.drop_last());
        assert(joined(all) =~= first + joined(rest));
    }
}

/// Cutting a content into chunks and joining them gives the content back.
pub proof fn lemma_chunks_join(content: Seq<u8>, size: int)
    requires
        size > 0,
    ensures
        joined(chunked(content, size)) == content,
    decreases content.len(),
{
    if content.len() == 0 {
        assert(joined(chunked(content, size)) =~= content);
    } else if content.len() <= size {
        lemma_joined_front(content, Seq::empty());
        assert(seq![content] + Seq::<Seq<u8>>::empty() =~= seq![content]);
        assert(joined(Seq::<Seq<u8>>::empty()) =~= Seq::<u8>::empty());
        assert(content + Seq::<u8>::empty() =~= content);
    } else {
        lemma_chunks_join(content.skip(size), size);
        lemma_joined_front(content.take(size), chunked(content.skip(size), size));
        assert(content.take(size) + content.skip(size) =~= content);
    }
}

/// The two read strategies agree: a content digested as one chunk and the
/// same content digested chunk after chunk, whatever the chunk size, give
/// the same hexadecimal digest under every algorithm.
pub proof fn lemma_strategies_agree(algorithm: HashAlgorithm, content: Seq<u8>, size: int)
    requires
        size > 0,
    ensures
        hex_digest(algorithm, joined(chunked(content, size))) == hex_digest(algorithm, content),
{
    lemma_chunks_join(content, size);
}

} // verus!
