//! The digest engine: SHA-256 over a byte stream fed in chunks, rendered as
//! lowercase hexadecimal.
use sha2::Digest;
use vstd::prelude::*;

verus! {

/// A `sha2::Sha256` hasher. Verus cannot declare that type (it is an alias of a
/// generic core wrapper), so it is held here, opaque, in a private field.
#[verifier::external_body]
pub struct Sha256Hasher {
    inner: sha2::Sha256,
}

/// The bytes that a SHA-256 hasher has absorbed since it was created.
pub uninterp spec fn sha256_input(h: Sha256Hasher) -> Seq<u8>;

/// The SHA-256 digest of a byte sequence.
pub uninterp spec fn sha256_of(data: Seq<u8>) -> Seq<u8>;

/// Relies on `sha2::Sha256::new` (through `Digest::new`): a hasher that has absorbed nothing.
#[verifier::external_body]
fn sha256_new() -> (r: Sha256Hasher)
    ensures
        sha256_input(r) == Seq::<u8>::empty(),
{
    Sha256Hasher { inner: sha2::Sha256::new() }
}

/// Relies on `Digest::update` of `sha2::Sha256`: the chunk is appended to what the
/// hasher has absorbed.
#[verifier::external_body]
fn sha256_update(h: &mut Sha256Hasher, chunk: &[u8])
    ensures
        sha256_input(*final(h)) == sha256_input(*old(h)) + chunk@,
{
    h.inner.update(chunk)
}

/// Relies on `Digest::finalize` of `sha2::Sha256`: the 32-byte digest of everything
/// absorbed.
#[verifier::external_body]
fn sha256_finalize(h: Sha256Hasher) -> (r: Vec<u8>)
    ensures
        r@ == sha256_of(sha256_input(h)),
        r@.len() == 32,
{
    h.inner.finalize().to_vec()
}

/// Relies on `String::push`: the character is appended.
#[verifier::external_body]
pub(crate) fn push_char(s: &mut String, c: char)
    ensures
        final(s)@ == old(s)@.push(c),
{
    s.push(c)
}

/// The lowercase hexadecimal digit of a value below 16.
pub open spec fn hex_digit(n: u8) -> char
    recommends
        n < 16,
{
    if n < 10 {
        (('0' as u8) + n) as char
    } else {
        (('a' as u8) + (n - 10)) as char
    }
}

/// Two lowercase hexadecimal digits per byte, high nibble first.
pub open spec fn hex_of(bytes: Seq<u8>) -> Seq<char>
    decreases bytes.len(),
{
    if bytes.len() == 0 {
        Seq::empty()
    } else {
        let b = bytes.last();
        hex_of(bytes.drop_last()).push(hex_digit(b / 16)).push(hex_digit(b % 16))
    }
}

/// The manifest digest of a byte sequence: its SHA-256 in lowercase hex.
pub open spec fn digest_hex(data: Seq<u8>) -> Seq<char> {
    hex_of(sha256_of(data))
}

pub proof fn lemma_hex_len(bytes: Seq<u8>)
    ensures
        hex_of(bytes).len() == 2 * bytes.len(),
    decreases bytes.len(),
{
    if bytes.len() > 0 {
        lemma_hex_len(bytes.drop_last());
    }
}

fn hex_digit_exec(n: u8) -> (c: char)
    requires
        n < 16,
    ensures
        c == hex_digit(n),
{
    if n < 10 {
        (48u8 + n) as char
    } else {
        (97u8 + (n - 10)) as char
    }
}

/// Renders bytes as lowercase hexadecimal, two digits per byte.
pub fn to_hex(bytes: &[u8]) -> (r: String)
    ensures
        r@ == hex_of(bytes@),
        r@.len() == 2 * bytes@.len(),
{
    let mut r = String::new();
    let mut i: usize = 0;
    while i < bytes.len()
        invariant
            i <= bytes@.len(),
            r@ == hex_of(bytes@.take(i as int)),
        decreases bytes@.len() - i,
    {
        let b = bytes[i];
        push_char(&mut r, hex_digit_exec(b / 16));
        push_char(&mut r, hex_digit_exec(b % 16));
        assert(bytes@.take(i as int + 1).drop_last() =~= bytes@.take(i as int));
        i = i + 1;
    }
    assert(bytes@.take(i as int) =~= bytes@);
    proof {
        lemma_hex_len(bytes@);
    }
    r
}

/// A running digest: the bytes of one file, absorbed chunk by chunk.
pub struct DigestState {
    hasher: Sha256Hasher,
}

impl DigestState {
    /// The bytes absorbed so far.
    pub closed spec fn absorbed(&self) -> Seq<u8> {
        sha256_input(self.hasher)
    }

    /// A state that has absorbed nothing.
    pub fn new() -> (r: DigestState)
        ensures
            r.absorbed() == Seq::<u8>::empty(),
    {
        DigestState { hasher: sha256_new() }
    }

    /// Absorbs one chunk of the stream.
    pub fn absorb(&mut self, chunk: &[u8])
        ensures
            final(self).absorbed() == old(self).absorbed() + chunk@,
    {
        sha256_update(&mut self.hasher, chunk);
    }

    /// The lowercase hex SHA-256 of everything absorbed: 64 characters.
    pub fn finish(self) -> (r: String)
        ensures
            r@ == digest_hex(self.absorbed()),
            r@.len() == 64,
    {
        let bytes = sha256_finalize(self.hasher);
        to_hex(bytes.as_slice())
    }
}

/// The chunks in which a stream of `data` is read with a buffer of `chunk_size`
/// bytes: full chunks, then what is left.
pub open spec fn chunks_of(data: Seq<u8>, chunk_size: nat) -> Seq<Seq<u8>>
    recommends
        chunk_size >= 1,
    decreases data.len(),
{
    if data.len() == 0 || chunk_size == 0 {
        Seq::empty()
    } else if data.len() <= chunk_size {
        seq![data]
    } else {
        seq![data.take(chunk_size as int)] + chunks_of(data.skip(chunk_size as int), chunk_size)
    }
}

/// The digest of `data` read in chunks of `chunk_size` bytes, each chunk absorbed in turn.
pub open spec fn chunked_digest(data: Seq<u8>, chunk_size: nat) -> Seq<char> {
    digest_hex(chunks_of(data, chunk_size).flatten())
}

/// Reading a stream in chunks of any positive size hands the hasher the stream itself.
pub proof fn lemma_chunks_flatten(data: Seq<u8>, chunk_size: nat)
    requires
        chunk_size >= 1,
    ensures
        chunks_of(data, chunk_size).flatten() == data,
    decreases data.len(),
{
    if data.len() == 0 {
    } else if data.len() <= chunk_size {
        let one = seq![data];
        assert(one.drop_first() =~= Seq::<Seq<u8>>::empty());
        assert(one.drop_first().flatten() =~= Seq::<u8>::empty());
        assert(one.first() + Seq::<u8>::empty() =~= data);
    } else {
        let rest = data.skip(chunk_size as int);
        lemma_chunks_flatten(rest, chunk_size);
        let cs = seq![data.take(chunk_size as int)] + chunks_of(rest, chunk_size);
        assert(cs.first() == data.take(chunk_size as int));
        assert(cs.drop_first() =~= chunks_of(rest, chunk_size));
        assert(data.take(chunk_size as int) + rest =~= data);
    }
}

/// The digest of a stream does not depend on the chunk size it is read with.
pub proof fn lemma_digest_independent_of_chunk_size(data: Seq<u8>, c1: nat, c2: nat)
    requires
        c1 >= 1,
        c2 >= 1,
    ensures
        chunked_digest(data, c1) == chunked_digest(data, c2),
        chunked_digest(data, c1) == digest_hex(data),
{
    lemma_chunks_flatten(data, c1);
    lemma_chunks_flatten(data, c2);
}

/// Digests `data` by absorbing it in chunks of at most `chunk_size` bytes through
/// one hasher, as a file is streamed through a reused buffer.
pub fn digest_chunked(data: &[u8], chunk_size: usize) -> (r: String)
    requires
        chunk_size >= 1,
    ensures
        r@ == chunked_digest(data@, chunk_size as nat),
        r@ == digest_hex(data@),
        r@.len() == 64,
{
    let mut state = DigestState::new();
    let n = data.len();
    let mut i: usize = 0;
    while i < n
        invariant
            n == data@.len(),
            i <= n,
            chunk_size >= 1,
            state.absorbed() == data@.take(i as int),
        decreases n - i,
    {
        let end: usize = if n - i <= chunk_size { n } else { i + chunk_size };
        let chunk = vstd::slice::slice_subrange(data, i, end);
        state.absorb(chunk);
        assert(data@.take(i as int) + data@.subrange(i as int, end as int) =~= data@.take(end as int));
        i = end;
    }
    assert(data@.take(n as int) =~= data@);
    proof {
        lemma_digest_independent_of_chunk_size(data@, chunk_size as nat, chunk_size as nat);
    }
    state.finish()
}

} // verus!
