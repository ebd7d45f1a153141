use vstd::prelude::*;

use chacha20poly1305::{AeadInOut, ChaCha20Poly1305, KeyInit};
use rand_chacha::ChaCha20Rng;
use rand_core::{RngCore, SeedableRng};

use crate::serialize::{le_bytes, lemma_le_bytes_len, write_u64};

verus! {

#[verifier::external_type_specification]
#[verifier::external_body]
pub struct ExAeadError(aead::Error);

/// What ChaCha20-Poly1305 produces for `plaintext` under `key`, `nonce` and
/// the associated data `aad`: the ciphertext followed by the 16-byte tag.
pub uninterp spec fn chacha20poly1305_seal(key: Seq<u8>, nonce: Seq<u8>, aad: Seq<u8>, plaintext: Seq<u8>) -> Seq<u8>;

/// What ChaCha20-Poly1305 gives back for `ciphertext` with `tag` under `key`,
/// `nonce` and `aad`: the plaintext, or nothing when the tag does not verify.
pub uninterp spec fn chacha20poly1305_open(
    key: Seq<u8>,
    nonce: Seq<u8>,
    aad: Seq<u8>,
    ciphertext: Seq<u8>,
    tag: Seq<u8>,
) -> Option<Seq<u8>>;

/// The cipher refuses a message of `2^32 - 1` blocks of 64 bytes or more.
pub open spec fn exceeds_block_limit(len: nat) -> bool {
    len / 64 >= 0xffff_ffff
}

/// Encryption or decryption failed.
#[derive(Debug, Clone, Copy, PartialEq, Eq)]
pub struct CryptoError;

/// `ChaCha20Poly1305::encrypt_inout_detached` over the whole of `buffer`.
/// Claimed: the buffer keeps its length; the call fails exactly when the
/// buffer holds `2^32 - 1` blocks of 64 bytes or more, and then leaves it
/// untouched; otherwise the buffer then holds the ciphertext, and ciphertext
/// and returned tag together are the named seal of the old contents.
#[verifier::external_body]
fn seal_in_place(key: &[u8; 32], nonce: &[u8; 12], aad: &[u8], buffer: &mut [u8]) -> (r: Result<[u8; 16], aead::Error>)
    ensures
        final(buffer)@.len() == old(buffer)@.len(),
        r is Err <==> exceeds_block_limit(old(buffer)@.len()),
        r is Err ==> final(buffer)@ == old(buffer)@,
        r is Ok ==> final(buffer)@ + r->Ok_0@ == chacha20poly1305_seal(key@, nonce@, aad@, old(buffer)@),
{
    let cipher = ChaCha20Poly1305::new(&chacha20poly1305::Key::from(*key));
    let tag = cipher.encrypt_inout_detached(&chacha20poly1305::Nonce::from(*nonce), aad, buffer.into())?;
    Ok(tag.into())
}

/// `ChaCha20Poly1305::decrypt_inout_detached` over the whole of `buffer`.
/// Claimed: the buffer keeps its length; the call succeeds exactly when the
/// named open gives a plaintext, which the buffer then holds; on failure the
/// buffer is untouched (the tag is checked before anything is decrypted);
/// and what the seal of a plaintext produced under the same key, nonce and
/// associated data opens to that plaintext (the same keystream is applied
/// and the same tag computed).
#[verifier::external_body]
fn open_in_place(key: &[u8; 32], nonce: &[u8; 12], aad: &[u8], buffer: &mut [u8], tag: &[u8; 16]) -> (r: Result<(), aead::Error>)
    ensures
        final(buffer)@.len() == old(buffer)@.len(),
        r is Ok <==> chacha20poly1305_open(key@, nonce@, aad@, old(buffer)@, tag@) is Some,
        r is Ok ==> chacha20poly1305_open(key@, nonce@, aad@, old(buffer)@, tag@) == Some(final(buffer)@),
        r is Err ==> final(buffer)@ == old(buffer)@,
        forall|p: Seq<u8>|
            !exceeds_block_limit(p.len()) && #[trigger] chacha20poly1305_seal(key@, nonce@, aad@, p) == old(buffer)@ + tag@
                ==> r is Ok && final(buffer)@ == p,
{
    let cipher = ChaCha20Poly1305::new(&chacha20poly1305::Key::from(*key));
    let tag = chacha20poly1305::Tag::from(*tag);
    cipher.decrypt_inout_detached(&chacha20poly1305::Nonce::from(*nonce), aad, buffer.into(), &tag)
}

/// The nonce of a packet: four zero bytes, then its sequence in little-endian order.
pub open spec fn spec_nonce(sequence: u64) -> Seq<u8> {
    seq![0u8, 0u8, 0u8, 0u8] + le_bytes(sequence as nat, 8)
}

fn nonce_for(sequence: u64) -> (r: [u8; 12])
    ensures
        r@ == spec_nonce(sequence),
{
    let mut v: Vec<u8> = vec![0u8, 0u8, 0u8, 0u8];
    write_u64(&mut v, sequence);
    proof {
        lemma_le_bytes_len(sequence as nat, 8);
    }
    let mut nonce = [0u8; 12];
    let mut i: usize = 0;
    while i < 12
        invariant
            i <= 12,
            v@.len() == 12,
            forall|j: int| 0 <= j < i ==> nonce@[j] == v@[j],
        decreases 12 - i,
    {
        nonce[i] = v[i];
        i = i + 1;
    }
    proof {
        assert(nonce@ =~= v@);
        assert(v@ =~= spec_nonce(sequence));
    }
    nonce
}

/// Encrypts `buffer` in place with the nonce made from `sequence`, and
/// returns the authentication tag.
pub fn encrypt_in_place(buffer: &mut [u8], sequence: u64, key: &[u8; 32], aad: &[u8]) -> (r: Result<[u8; 16], CryptoError>)
    ensures
        final(buffer)@.len() == old(buffer)@.len(),
        r is Err <==> exceeds_block_limit(old(buffer)@.len()),
        r is Err ==> final(buffer)@ == old(buffer)@,
        r is Ok ==> final(buffer)@ + r->Ok_0@ == chacha20poly1305_seal(key@, spec_nonce(sequence), aad@, old(buffer)@),
{
    let nonce = nonce_for(sequence);
    match seal_in_place(key, &nonce, aad, buffer) {
        Ok(tag) => Ok(tag),
        Err(_) => Err(CryptoError),
    }
}

/// Decrypts `buffer` in place with the nonce made from `sequence`, checking `tag`.
pub fn dencrypted_in_place(buffer: &mut [u8], sequence: u64, private_key: &[u8; 32], aad: &[u8], tag: &[u8; 16]) -> (r: Result<(), CryptoError>)
    ensures
        final(buffer)@.len() == old(buffer)@.len(),
        r is Ok <==> chacha20poly1305_open(private_key@, spec_nonce(sequence), aad@, old(buffer)@, tag@) is Some,
        r is Ok ==> chacha20poly1305_open(private_key@, spec_nonce(sequence), aad@, old(buffer)@, tag@)
            == Some(final(buffer)@),
        r is Err ==> final(buffer)@ == old(buffer)@,
        forall|p: Seq<u8>|
            !exceeds_block_limit(p.len()) && #[trigger] chacha20poly1305_seal(private_key@, spec_nonce(sequence), aad@, p)
                == old(buffer)@ + tag@ ==> r is Ok && final(buffer)@ == p,
{
    let nonce = nonce_for(sequence);
    match open_in_place(private_key, &nonce, aad, buffer, tag) {
        Ok(()) => Ok(()),
        Err(_) => Err(CryptoError),
    }
}

/// `N` bytes from a ChaCha20 generator seeded from the operating system.
/// Nothing is claimed of them.
#[verifier::external_body]
pub fn generate_random_bytes<const N: usize>() -> [u8; N] {
    let mut rng = ChaCha20Rng::from_entropy();
    let mut bytes = [0u8; N];
    rng.fill_bytes(&mut bytes);
    bytes
}

} // verus!
