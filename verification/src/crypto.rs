//! The cryptographic primitives, each behind one small function. Nothing here
//! is proved: every contract states what the primitive is documented to do, and
//! the rest of the library is verified against these statements.

use vstd::prelude::*;
use chacha20poly1305::aead::{Aead, KeyInit, Payload};
use chacha20poly1305::{ChaCha20Poly1305, Key, Nonce};
use sha2::{Digest, Sha512};

verus! {

/// The SHA-512 digest of `data`.
pub uninterp spec fn sha512_of(data: Seq<u8>) -> Seq<u8>;

/// The X25519 function of RFC 7748 on a scalar and the u-coordinate of a point.
pub uninterp spec fn x25519_of(scalar: Seq<u8>, point: Seq<u8>) -> Seq<u8>;

/// What ChaCha20-Poly1305 makes of `plaintext` under `key` and `nonce`, bound
/// to `aad`: ciphertext and tag, or nothing where the cipher refuses the input.
pub uninterp spec fn aead_sealed(
    key: Seq<u8>,
    nonce: Seq<u8>,
    aad: Seq<u8>,
    plaintext: Seq<u8>,
) -> Option<Seq<u8>>;

/// What ChaCha20-Poly1305 recovers from `sealed` under `key` and `nonce`, bound
/// to `aad`: the plaintext, or nothing where the tag does not fit.
pub uninterp spec fn aead_opened(
    key: Seq<u8>,
    nonce: Seq<u8>,
    aad: Seq<u8>,
    sealed: Seq<u8>,
) -> Option<Seq<u8>>;

/// Calls `sha2::Sha512::digest`. Claimed: the sixty-four bytes returned depend
/// on the bytes of `data` alone.
#[verifier::external_body]
pub(crate) fn sha512(data: &[u8]) -> (digest: [u8; 64])
    ensures
        digest@ == sha512_of(data@),
{
    Sha512::digest(data).into()
}

/// Calls `x25519_dalek::x25519`. Claimed: the thirty-two bytes returned depend
/// on the bytes of the scalar and of the point alone.
#[verifier::external_body]
pub(crate) fn x25519(scalar: &[u8; 32], point: &[u8; 32]) -> (out: [u8; 32])
    ensures
        out@ == x25519_of(scalar@, point@),
{
    x25519_dalek::x25519(*scalar, *point)
}

/// Calls `encrypt` of `chacha20poly1305::ChaCha20Poly1305`. Claimed: whether
/// it succeeds, and the bytes it returns, depend on the four inputs alone.
#[verifier::external_body]
pub(crate) fn aead_seal(key: &[u8; 32], nonce: &[u8; 12], aad: &[u8], plaintext: &[u8]) -> (out:
    Option<Vec<u8>>)
    ensures
        out matches Some(sealed) ==> aead_sealed(key@, nonce@, aad@, plaintext@) == Some(sealed@),
        out is None ==> aead_sealed(key@, nonce@, aad@, plaintext@) is None,
{
    let cipher = ChaCha20Poly1305::new(Key::from_slice(key));
    cipher.encrypt(Nonce::from_slice(nonce), Payload { msg: plaintext, aad }).ok()
}

/// Calls `decrypt` of `chacha20poly1305::ChaCha20Poly1305`. Claimed: whether
/// it succeeds, and the bytes it returns, depend on the four inputs alone.
#[verifier::external_body]
pub(crate) fn aead_open(key: &[u8; 32], nonce: &[u8; 12], aad: &[u8], sealed: &[u8]) -> (out:
    Option<Vec<u8>>)
    ensures
        out matches Some(plaintext) ==> aead_opened(key@, nonce@, aad@, sealed@) == Some(
            plaintext@,
        ),
        out is None ==> aead_opened(key@, nonce@, aad@, sealed@) is None,
{
    let cipher = ChaCha20Poly1305::new(Key::from_slice(key));
    cipher.decrypt(Nonce::from_slice(nonce), Payload { msg: sealed, aad }).ok()
}

/// Calls `getrandom::getrandom` for thirty-two bytes from the system's secure
/// source. Nothing is claimed of the bytes; `None` means the source failed.
#[verifier::external_body]
pub(crate) fn random_seed() -> (seed: Option<[u8; 32]>) {
    let mut seed = [0u8; 32];
    match getrandom::getrandom(&mut seed) {
        Ok(()) => Some(seed),
        Err(_) => None,
    }
}

} // verus!
