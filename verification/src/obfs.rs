//! Salamander obfuscation: every datagram is XORed with a key derived from a
//! password.

use sha2::{Digest, Sha256};
use vstd::prelude::*;
use vstd::utf8::encode_utf8;

verus! {

/// The number of bytes in a key.
pub const KEY_LEN: usize = 16;

/// The most bytes whose number of bits SHA-256 can count.
pub const SHA256_MAX_LEN: u64 = 0x1FFF_FFFF_FFFF_FFFF;

/// The SHA-256 digest of `data`.
pub uninterp spec fn sha256_digest(data: Seq<u8>) -> Seq<u8>;

/// `Sha256::digest` of the crate `sha2`, with the digest moved into an array.
/// The digest is a function of the bytes alone; it is named, not computed
/// here.  The crate counts the message's bits in 64 bits, and longer messages
/// are left out.
#[verifier::external_body]
fn sha256(data: &[u8]) -> (r: [u8; 32])
    requires
        data@.len() <= SHA256_MAX_LEN,
    ensures
        r@ == sha256_digest(data@),
{
    Sha256::digest(data).into()
}

/// `data` XORed with `key`, which is repeated as often as needed.
pub open spec fn masked(key: Seq<u8>, data: Seq<u8>) -> Seq<u8> {
    Seq::new(data.len(), |i: int| data[i] ^ key[i % 16])
}

/// The key that belongs to a password: the first 16 bytes of its digest.
pub open spec fn salamander_key(password: Seq<char>) -> Seq<u8> {
    sha256_digest(encode_utf8(password)).take(16)
}

/// An XOR key derived from the Salamander obfuscation password.
#[derive(Debug)]
pub struct SalamanderObfs {
    key: [u8; 16],
}

impl View for SalamanderObfs {
    type V = Seq<u8>;

    closed spec fn view(&self) -> Seq<u8> {
        self.key@
    }
}

/// The key of an obfuscation that may be switched off.
pub open spec fn obfs_key(obfs: Option<SalamanderObfs>) -> Option<Seq<u8>> {
    match obfs {
        Some(o) => Some(o@),
        None => None,
    }
}

impl Clone for SalamanderObfs {
    fn clone(&self) -> (r: Self)
        ensures
            r@ == self@,
    {
        SalamanderObfs { key: self.key }
    }
}

impl SalamanderObfs {
    /// Derives the key from a password.
    pub fn new(password: &str) -> (r: Self)
        requires
            encode_utf8(password@).len() <= SHA256_MAX_LEN,
        ensures
            r@ == salamander_key(password@),
            sha256_digest(encode_utf8(password@)).len() == 32,
            r@.len() == 16,
            forall|i: int|
                0 <= i < 16 ==> #[trigger] r@[i] == sha256_digest(encode_utf8(password@))[i],
    {
        SalamanderObfs::from_digest(sha256(password.as_bytes()))
    }

    /// Takes the key from a digest.
    pub fn from_digest(digest: [u8; 32]) -> (r: Self)
        ensures
            r@ == digest@.take(16),
            r@.len() == 16,
            forall|i: int| 0 <= i < 16 ==> #[trigger] r@[i] == digest@[i],
    {
        let mut key: [u8; 16] = [0u8; 16];
        let mut i: usize = 0;
        while i < KEY_LEN
            invariant
                i <= KEY_LEN,
                forall|j: int| 0 <= j < i ==> key@[j] == digest@[j],
            decreases KEY_LEN - i,
        {
            key[i] = digest[i];
            i = i + 1;
        }
        let r = SalamanderObfs { key };
        assert(r@ =~= digest@.take(16));
        r
    }

    /// The key.
    pub fn key(&self) -> (r: &[u8; 16])
        ensures
            r@ == self@,
    {
        &self.key
    }

    /// Applies the obfuscation in place.  The same call undoes it.
    pub fn apply(&self, buf: &mut [u8])
        ensures
            final(buf)@ == masked(self@, old(buf)@),
            self@.len() == 16,
            final(buf)@.len() == old(buf)@.len(),
            forall|i: int|
                0 <= i < old(buf)@.len() ==> old(buf)@[i] ^ #[trigger] final(buf)@[i]
                    == self@[i % 16],
    {
        let n = buf.len();
        let mut i: usize = 0;
        while i < n
            invariant
                i <= n == old(buf)@.len() == buf@.len(),
                forall|j: int|
                    0 <= j < i ==> #[trigger] buf@[j] == old(buf)@[j] ^ self.key@[j % 16],
                forall|j: int| i <= j < n ==> #[trigger] buf@[j] == old(buf)@[j],
            decreases n - i,
        {
            let b = buf[i] ^ self.key[i % KEY_LEN];
            buf[i] = b;
            i = i + 1;
        }
        assert(buf@ =~= masked(self@, old(buf)@));
        proof {
            law_masked_bytes(self@, old(buf)@);
        }
    }

    /// Every key has 16 bytes.
    pub proof fn law_key_len(&self)
        ensures
            self@.len() == 16,
    {
    }
}

/// Every byte is masked, and with the key byte of its place: the bytes before
/// and after differ by exactly that.
pub proof fn law_masked_bytes(key: Seq<u8>, data: Seq<u8>)
    ensures
        masked(key, data).len() == data.len(),
        forall|i: int|
            0 <= i < data.len() ==> data[i] ^ #[trigger] masked(key, data)[i] == key[i % 16],
{
    assert forall|i: int| 0 <= i < data.len() implies data[i] ^ #[trigger] masked(key, data)[i]
        == key[i % 16] by {
        let x = data[i];
        let k = key[i % 16];
        assert(x ^ (x ^ k) == k) by (bit_vector);
    }
}

/// Equal passwords give equal keys, and the bytes of a key are those of the
/// digest at the same places.
pub proof fn law_key_bytes(password: Seq<char>)
    requires
        sha256_digest(encode_utf8(password)).len() == 32,
    ensures
        salamander_key(password).len() == 16,
        forall|i: int|
            0 <= i < 16 ==> #[trigger] salamander_key(password)[i] == sha256_digest(
                encode_utf8(password),
            )[i],
{
}

/// What is obfuscated twice with one key is what it was.
pub proof fn law_masked_twice(key: Seq<u8>, data: Seq<u8>)
    ensures
        masked(key, masked(key, data)) == data,
{
    assert forall|i: int| 0 <= i < data.len() implies masked(key, masked(key, data))[i]
        == data[i] by {
        let x = data[i];
        let k = key[i % 16];
        assert((x ^ k) ^ k == x) by (bit_vector);
    }
    assert(masked(key, masked(key, data)) =~= data);
}

} // verus!
