//! Streaming content digests. A file's bytes are fed to a SHA-256 state in
//! chunks of any size; the digest of the concatenation of all fed bytes,
//! rendered as lowercase hex, is the file's content key.

use sha2::Digest;
use vstd::prelude::*;

verus! {

#[verifier::external_type_specification]
#[verifier::external_body]
pub struct ExSha256(sha2::Sha256);

/// The SHA-256 digest (32 bytes) of a byte sequence. The digest is a
/// function of the bytes alone; it is not given an explicit definition
/// here, the sha2 crate computes it.
pub uninterp spec fn sha256_of(bytes: Seq<u8>) -> Seq<u8>;

/// The bytes a sha2 SHA-256 state has been fed so far, in order. Opaque
/// like the state itself; the wrappers below say how each call changes it.
pub uninterp spec fn sha_state_bytes(state: sha2::Sha256) -> Seq<u8>;

/// Relies on sha2's `Sha256::new` (`Digest::new`): a fresh hasher state
/// over no bytes.
#[verifier::external_body]
fn sha_new() -> (state: sha2::Sha256)
    ensures
        sha_state_bytes(state) == Seq::<u8>::empty(),
{
    sha2::Sha256::new()
}

/// Relies on sha2's `Digest::update`: feeding bytes incrementally digests
/// the concatenation of everything fed.
#[verifier::external_body]
fn sha_update(state: &mut sha2::Sha256, chunk: &[u8])
    ensures
        sha_state_bytes(*final(state)) == sha_state_bytes(*old(state)) + chunk@,
{
    state.update(chunk);
}

/// Relies on sha2's `Digest::finalize`: the 32-byte SHA-256 digest of all
/// bytes fed, a function of those bytes alone.
#[verifier::external_body]
fn sha_finalize(state: sha2::Sha256) -> (digest: Vec<u8>)
    ensures
        digest@ == sha256_of(sha_state_bytes(state)),
        digest@.len() == 32,
{
    state.finalize().to_vec()
}

/// A streaming content hasher over a sha2 SHA-256 state.
pub struct ContentHasher {
    inner: sha2::Sha256,
}

impl ContentHasher {
    /// All bytes fed to this hasher so far, in order.
    pub closed spec fn bytes_fed(self) -> Seq<u8> {
        sha_state_bytes(self.inner)
    }

    /// A fresh hasher over no bytes.
    pub fn new() -> (h: ContentHasher)
        ensures
            h.bytes_fed() == Seq::<u8>::empty(),
    {
        ContentHasher { inner: sha_new() }
    }

    /// Feeds one chunk; the digest is taken over the concatenation of all
    /// fed chunks.
    pub fn update(&mut self, chunk: &[u8])
        ensures
            final(self).bytes_fed() == old(self).bytes_fed() + chunk@,
    {
        sha_update(&mut self.inner, chunk);
    }

    /// The 32-byte SHA-256 digest of all bytes fed.
    pub fn finalize(self) -> (digest: Vec<u8>)
        ensures
            digest@ == sha256_of(self.bytes_fed()),
            digest@.len() == 32,
    {
        sha_finalize(self.inner)
    }

    /// Finishes the digest and renders it as lowercase hex, the form used
    /// as a file's content key.
    pub fn finalize_hex(self) -> (s: String)
        ensures
            s@ == spec_content_hash(self.bytes_fed()),
            s@.len() == 64,
    {
        let digest = self.finalize();
        to_hex(&digest)
    }
}

/// The content key of a byte sequence: its SHA-256 digest in lowercase hex.
pub open spec fn spec_content_hash(bytes: Seq<u8>) -> Seq<char> {
    hex_str(sha256_of(bytes))
}

/// Digests a complete in-memory byte slice in one call.
pub fn hash_bytes(data: &[u8]) -> (s: String)
    ensures
        s@ == spec_content_hash(data@),
        s@.len() == 64,
{
    let mut h = ContentHasher::new();
    h.update(data);
    proof {
        assert(h.bytes_fed() =~= data@);
    }
    h.finalize_hex()
}

/// Hashing the same byte sequence always yields the same content key: the
/// digest is deterministic within and across scans.
pub proof fn lemma_digest_deterministic(b1: Seq<u8>, b2: Seq<u8>)
    requires
        b1 == b2,
    ensures
        spec_content_hash(b1) == spec_content_hash(b2),
{
}

/// The character for a hex digit (lowercase).
pub open spec fn hex_digit_char(d: int) -> char {
    if d < 10 {
        crate::text::digit_char(d)
    } else if d == 10 {
        'a'
    } else if d == 11 {
        'b'
    } else if d == 12 {
        'c'
    } else if d == 13 {
        'd'
    } else if d == 14 {
        'e'
    } else {
        'f'
    }
}

/// Lowercase hex rendering of a byte sequence, two digits per byte.
pub open spec fn hex_str(bytes: Seq<u8>) -> Seq<char>
    decreases bytes.len(),
{
    if bytes.len() == 0 {
        Seq::empty()
    } else {
        hex_str(bytes.drop_last()) + seq![
            hex_digit_char(bytes.last() as int / 16),
            hex_digit_char(bytes.last() as int % 16),
        ]
    }
}

/// The single-character string for the hex digit `d`.
fn hex_digit_str(d: u8) -> (r: &'static str)
    requires
        d < 16,
    ensures
        r@ == seq![hex_digit_char(d as int)],
{
    if d < 10 {
        crate::text::digit_str(d as u64)
    } else {
        proof {
            reveal_strlit("a");
            reveal_strlit("b");
            reveal_strlit("c");
            reveal_strlit("d");
            reveal_strlit("e");
            reveal_strlit("f");
        }
        let r = if d == 10 {
            "a"
        } else if d == 11 {
            "b"
        } else if d == 12 {
            "c"
        } else if d == 13 {
            "d"
        } else if d == 14 {
            "e"
        } else {
            "f"
        };
        proof {
            assert(r@ =~= seq![hex_digit_char(d as int)]);
        }
        r
    }
}

/// Renders bytes as lowercase hex, two digits per byte.
pub fn to_hex(bytes: &Vec<u8>) -> (s: String)
    ensures
        s@ == hex_str(bytes@),
        s@.len() == 2 * bytes@.len(),
{
    let mut s = String::new();
    let mut i: usize = 0;
    proof {
        assert(bytes@.take(0) =~= Seq::<u8>::empty());
    }
    while i < bytes.len()
        invariant
            i <= bytes@.len(),
            s@ == hex_str(bytes@.take(i as int)),
            s@.len() == 2 * i,
        decreases bytes@.len() - i,
    {
        let b = bytes[i];
        s.append(hex_digit_str(b / 16));
        s.append(hex_digit_str(b % 16));
        i = i + 1;
        proof {
            assert(bytes@.take(i as int).drop_last() =~= bytes@.take(i - 1));
            assert(bytes@.take(i as int).last() == bytes@[i - 1]);
        }
    }
    proof {
        assert(bytes@.take(bytes@.len() as int) =~= bytes@);
    }
    s
}

} // verus!
