//! Incremental hashing.
//!
//! Two fingerprint tiers: a cheap 64-bit fingerprint used only as a
//! discriminator, and a strong cryptographic digest, selectable between
//! a short and a long variant. Digests leave this module only as
//! lowercase hex text, and every hasher tracks (in ghost state) the
//! bytes absorbed since the last `finish`.

use vstd::prelude::*;
use crate::hexnum::{hex_of, u64_be_bytes, hex_encode_bytes, u64_to_be_byte_vec};

verus! {

/// The 64-bit XXH3 value of a byte sequence; a function of the bytes
/// alone, named but not described here.
pub uninterp spec fn xxh3_of(bytes: Seq<u8>) -> u64;

/// Byte `i` of the 128-bit MD5 digest of a byte sequence; a function
/// of the bytes alone, named but not described here.
pub uninterp spec fn md5_byte(bytes: Seq<u8>, i: int) -> u8;

/// Byte `i` of the 512-bit SHA-512 digest of a byte sequence; a
/// function of the bytes alone, named but not described here.
pub uninterp spec fn sha512_byte(bytes: Seq<u8>, i: int) -> u8;

/// The MD5 digest of a byte sequence: 16 bytes, by construction.
pub open spec fn md5_of(bytes: Seq<u8>) -> Seq<u8> {
    Seq::new(16, |i: int| md5_byte(bytes, i))
}

/// The SHA-512 digest of a byte sequence: 64 bytes, by construction.
pub open spec fn sha512_of(bytes: Seq<u8>) -> Seq<u8> {
    Seq::new(64, |i: int| sha512_byte(bytes, i))
}

#[verifier::external_type_specification]
#[verifier::external_body]
pub struct ExXxh3(xxhash_rust::xxh3::Xxh3);

#[verifier::external_type_specification]
#[verifier::external_body]
pub struct ExOpensslHasher(openssl::hash::Hasher);

/// An incremental hasher: mix bytes in, finish a digest, read it out
/// as hex text. `finish` resets the state for the next file; the text
/// read by `digest` stays valid until the next `finish`.
pub trait ByteHasher: Sized {
    /// The bytes absorbed since the last `finish` (or construction).
    spec fn absorbed_bytes(&self) -> Seq<u8>;

    /// The hex text the next `digest` call returns.
    spec fn pending_digest(&self) -> Seq<char>;

    /// The hex text this hasher's algorithm assigns to a byte sequence.
    spec fn digest_chars(&self, bytes: Seq<u8>) -> Seq<char>;

    fn update(&mut self, data: &[u8])
        ensures
            final(self).absorbed_bytes() == old(self).absorbed_bytes() + data@,
            final(self).pending_digest() == old(self).pending_digest(),
            forall|b: Seq<u8>|
                #[trigger] final(self).digest_chars(b) == old(self).digest_chars(b),
    ;

    fn finish(&mut self)
        ensures
            final(self).absorbed_bytes() == Seq::<u8>::empty(),
            final(self).pending_digest() == old(self).digest_chars(old(self).absorbed_bytes()),
            forall|b: Seq<u8>|
                #[trigger] final(self).digest_chars(b) == old(self).digest_chars(b),
    ;

    fn digest(&self) -> (r: String)
        ensures
            r@ == self.pending_digest(),
    ;
}

/// The fast tier: a streaming XXH3 fingerprint, 16 hex characters.
pub struct QuickHasher {
    digestor: xxhash_rust::xxh3::Xxh3,
    digest_hex: String,
    absorbed: Ghost<Seq<u8>>,
}

/// Relies on xxhash_rust's Xxh3::new: a fresh streaming state that has
/// absorbed nothing.
#[verifier::external_body]
fn xxh3_new() -> xxhash_rust::xxh3::Xxh3 {
    xxhash_rust::xxh3::Xxh3::new()
}

/// Relies on xxhash_rust's Xxh3::update: absorbs the bytes into the
/// streaming state; nothing else about the receiver changes.
#[verifier::external_body]
fn quick_absorb(h: &mut QuickHasher, data: &[u8])
    ensures
        final(h).absorbed@ == old(h).absorbed@ + data@,
        final(h).digest_hex == old(h).digest_hex,
{
    h.digestor.update(data);
}

/// Relies on xxhash_rust's Xxh3: `digest` returns the 64-bit XXH3 value
/// of exactly the bytes absorbed since the last reset — a function of
/// those bytes alone — and `reset` clears the state.
#[verifier::external_body]
fn quick_digest_and_reset(h: &mut QuickHasher) -> (r: u64)
    ensures
        r == xxh3_of(old(h).absorbed@),
        final(h).absorbed@ == Seq::<u8>::empty(),
        final(h).digest_hex == old(h).digest_hex,
{
    let d = h.digestor.digest();
    h.digestor.reset();
    d
}

impl QuickHasher {
    pub fn new() -> (r: Self)
        ensures
            r.absorbed_bytes() == Seq::<u8>::empty(),
            r.pending_digest() == hex_of(u64_be_bytes(0)),
    {
        let zeros = u64_to_be_byte_vec(0);
        QuickHasher {
            digestor: xxh3_new(),
            digest_hex: hex_encode_bytes(zeros.as_slice()),
            absorbed: Ghost(Seq::empty()),
        }
    }
}

impl ByteHasher for QuickHasher {
    closed spec fn absorbed_bytes(&self) -> Seq<u8> {
        self.absorbed@
    }

    closed spec fn pending_digest(&self) -> Seq<char> {
        self.digest_hex@
    }

    open spec fn digest_chars(&self, bytes: Seq<u8>) -> Seq<char> {
        hex_of(u64_be_bytes(xxh3_of(bytes)))
    }

    fn update(&mut self, data: &[u8]) {
        quick_absorb(self, data);
    }

    fn finish(&mut self) {
        let d = quick_digest_and_reset(self);
        let bytes = u64_to_be_byte_vec(d);
        self.digest_hex = hex_encode_bytes(bytes.as_slice());
    }

    fn digest(&self) -> (r: String) {
        self.digest_hex.clone()
    }
}

/// The strong tier: an OpenSSL message digest, MD5 (32 hex characters)
/// or SHA-512 (128 hex characters).
pub struct SlowHasher {
    digestor: openssl::hash::Hasher,
    digest_hex: String,
    absorbed: Ghost<Seq<u8>>,
    long: Ghost<bool>,
}

/// Relies on openssl's Hasher::new with MessageDigest::md5: a fresh
/// digest state that has absorbed nothing.
#[verifier::external_body]
fn openssl_md5_new() -> openssl::hash::Hasher {
    openssl::hash::Hasher::new(openssl::hash::MessageDigest::md5())
        .expect("error creating digest state")
}

/// Relies on openssl's Hasher::new with MessageDigest::sha512: a fresh
/// digest state that has absorbed nothing.
#[verifier::external_body]
fn openssl_sha512_new() -> openssl::hash::Hasher {
    openssl::hash::Hasher::new(openssl::hash::MessageDigest::sha512())
        .expect("error creating digest state")
}

/// Relies on openssl's Hasher::update: absorbs the bytes into the
/// digest state; nothing else about the receiver changes.
#[verifier::external_body]
fn slow_absorb(h: &mut SlowHasher, data: &[u8])
    ensures
        final(h).absorbed@ == old(h).absorbed@ + data@,
        final(h).digest_hex == old(h).digest_hex,
        final(h).long == old(h).long,
{
    h.digestor.update(data).expect("error while hashing");
}

/// Relies on openssl's Hasher::finish: returns the digest of exactly
/// the bytes absorbed since the last finish — a function of those bytes
/// alone, 16 bytes for MD5 and 64 for SHA-512 — and resets the state.
#[verifier::external_body]
fn slow_digest_and_reset(h: &mut SlowHasher) -> (r: Vec<u8>)
    ensures
        r@ == if old(h).long@ {
            sha512_of(old(h).absorbed@)
        } else {
            md5_of(old(h).absorbed@)
        },
        forall|i: int|
            0 <= i < r@.len() ==> #[trigger] r@[i] == if old(h).long@ {
                sha512_byte(old(h).absorbed@, i)
            } else {
                md5_byte(old(h).absorbed@, i)
            },
        r@.len() == if old(h).long@ {
            64int
        } else {
            16int
        },
        final(h).absorbed@ == Seq::<u8>::empty(),
        final(h).digest_hex == old(h).digest_hex,
        final(h).long == old(h).long,
{
    let d = h.digestor.finish().expect("error while finishing hash");
    d.to_vec()
}

impl SlowHasher {
    /// Whether this hasher uses the long (SHA-512) variant.
    pub closed spec fn is_long(&self) -> bool {
        self.long@
    }

    fn fresh(digestor: openssl::hash::Hasher, digest_len: usize, Ghost(long): Ghost<bool>) -> (r:
        SlowHasher)
        ensures
            r.absorbed_bytes() == Seq::<u8>::empty(),
            r.is_long() == long,
            r.pending_digest() == hex_of(Seq::new(digest_len as nat, |i: int| 0u8)),
    {
        let mut zeros: Vec<u8> = Vec::new();
        let mut i: usize = 0;
        while i < digest_len
            invariant
                0 <= i <= digest_len,
                zeros@ =~= Seq::new(i as nat, |j: int| 0u8),
            decreases digest_len - i,
        {
            zeros.push(0u8);
            i = i + 1;
        }
        proof {
            assert(zeros@ =~= Seq::new(digest_len as nat, |j: int| 0u8));
        }
        SlowHasher {
            digestor,
            digest_hex: hex_encode_bytes(zeros.as_slice()),
            absorbed: Ghost(Seq::empty()),
            long: Ghost(long),
        }
    }

    /// The short strong variant: a 128-bit MD5 digest.
    #[allow(non_snake_case)]
    pub fn MD5() -> (r: Self)
        ensures
            r.absorbed_bytes() == Seq::<u8>::empty(),
            !r.is_long(),
    {
        Self::fresh(openssl_md5_new(), 16, Ghost(false))
    }

    /// The long strong variant: a 512-bit SHA-512 digest.
    #[allow(non_snake_case)]
    pub fn SHA512() -> (r: Self)
        ensures
            r.absorbed_bytes() == Seq::<u8>::empty(),
            r.is_long(),
    {
        Self::fresh(openssl_sha512_new(), 64, Ghost(true))
    }
}

impl ByteHasher for SlowHasher {
    closed spec fn absorbed_bytes(&self) -> Seq<u8> {
        self.absorbed@
    }

    closed spec fn pending_digest(&self) -> Seq<char> {
        self.digest_hex@
    }

    open spec fn digest_chars(&self, bytes: Seq<u8>) -> Seq<char> {
        if self.is_long() {
            hex_of(sha512_of(bytes))
        } else {
            hex_of(md5_of(bytes))
        }
    }

    fn update(&mut self, data: &[u8]) {
        slow_absorb(self, data);
    }

    fn finish(&mut self) {
        let bytes = slow_digest_and_reset(self);
        self.digest_hex = hex_encode_bytes(bytes.as_slice());
    }

    fn digest(&self) -> (r: String) {
        self.digest_hex.clone()
    }
}

/// Law: the fast fingerprint is deterministic — any two fast hashers
/// assign the same digest text to the same byte sequence.
pub proof fn lemma_fast_digest_deterministic(a: &QuickHasher, b: &QuickHasher, bytes: Seq<u8>)
    ensures
        a.digest_chars(bytes) == b.digest_chars(bytes),
{
}

/// Law: the strong digest is deterministic — any two strong hashers of
/// the same variant assign the same digest text to the same byte
/// sequence.
pub proof fn lemma_strong_digest_deterministic(a: &SlowHasher, b: &SlowHasher, bytes: Seq<u8>)
    requires
        a.is_long() == b.is_long(),
    ensures
        a.digest_chars(bytes) == b.digest_chars(bytes),
{
}

/// Law: the fast fingerprint's text is always exactly 16 lowercase hex
/// characters, whatever the input.
pub proof fn lemma_fast_digest_len(h: &QuickHasher, bytes: Seq<u8>)
    ensures
        h.digest_chars(bytes).len() == 16,
{
    crate::hexnum::lemma_hex_of_len(u64_be_bytes(xxh3_of(bytes)));
}

/// Law: the strong fingerprint's text has a fixed length, whatever the
/// input: 32 hex characters for the short variant, 128 for the long.
pub proof fn lemma_strong_digest_len(h: &SlowHasher, bytes: Seq<u8>)
    ensures
        h.digest_chars(bytes).len() == if h.is_long() {
            128int
        } else {
            32int
        },
{
    if h.is_long() {
        crate::hexnum::lemma_hex_of_len(sha512_of(bytes));
    } else {
        crate::hexnum::lemma_hex_of_len(md5_of(bytes));
    }
}

} // verus!
