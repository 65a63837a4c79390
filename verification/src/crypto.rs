//! The calls into cryptographic and encoding crates, each as a function from bytes to bytes.

use base64::Engine as _;
use chacha20poly1305::aead::{Aead, Payload};
use ed25519_dalek::Signer as _;
use hmac::{KeyInit, Mac};
use sha2::Digest;
use vstd::prelude::*;
use vstd::utf8::{decode_utf8, is_ascii_chars, valid_utf8};

verus! {

/// The text that [`encode_base64`] gives.
pub uninterp spec fn base64_of(data: Seq<u8>) -> Seq<char>;

/// The bytes that [`decode_base64`] gives, or nothing for a text that is no base64.
pub uninterp spec fn base64_bytes(text: Seq<char>) -> Option<Seq<u8>>;

/// Calls `base64::Engine::encode` with the standard alphabet and padding.
///
/// Claimed of it: the text depends on the bytes alone, holds ASCII characters only, and decodes to
/// the bytes again.
#[verifier::external_body]
pub(crate) fn encode_base64(data: &[u8]) -> (r: String)
    ensures
        r@ == base64_of(data@),
        is_ascii_chars(r@),
        base64_bytes(r@) == Some(data@),
{
    base64::engine::general_purpose::STANDARD.encode(data)
}

/// Calls `base64::Engine::decode` with the standard alphabet and padding.
///
/// Claimed of it: whether a text is base64, and the bytes that it stands for, depend on the text
/// alone.
#[verifier::external_body]
pub(crate) fn decode_base64(text: &str) -> (r: Option<Vec<u8>>)
    ensures
        r.deep_view() == base64_bytes(text@),
{
    base64::engine::general_purpose::STANDARD.decode(text).ok()
}

/// Calls `core::str::from_utf8`.
///
/// Claimed of it: it accepts exactly the bytes that are valid UTF-8, and gives the text that they
/// stand for.
#[verifier::external_body]
pub(crate) fn utf8_text(bytes: &[u8]) -> (r: Option<String>)
    ensures
        r.deep_view() == (if valid_utf8(bytes@) {
            Some(decode_utf8(bytes@))
        } else {
            None
        }),
{
    match core::str::from_utf8(bytes) {
        Ok(text) => Some(text.to_owned()),
        Err(_) => None,
    }
}

/// The text that [`lossy_text`] gives.
pub uninterp spec fn lossy(bytes: Seq<u8>) -> Seq<char>;

/// Calls `String::from_utf8_lossy`.
///
/// Claimed of it: the text depends on the bytes alone, and is what they stand for where they are
/// valid UTF-8. What stands in the place of other bytes is left unsaid.
#[verifier::external_body]
pub(crate) fn lossy_text(bytes: &[u8]) -> (r: String)
    ensures
        r@ == lossy(bytes@),
        valid_utf8(bytes@) ==> r@ == decode_utf8(bytes@),
{
    String::from_utf8_lossy(bytes).into_owned()
}

/// The code that [`hmac_sha256`] gives.
pub uninterp spec fn hmac_of(key: Seq<u8>, message: Seq<u8>) -> Seq<u8>;

/// Calls `hmac::Hmac::<sha2::Sha256>::new_from_slice`, `update` and `finalize`.
///
/// Claimed of it: the code depends on the key and the message alone and has 32 bytes. A key of any
/// length is taken.
#[verifier::external_body]
pub(crate) fn hmac_sha256(key: &[u8], message: &[u8]) -> (r: Vec<u8>)
    ensures
        r@ == hmac_of(key@, message@),
        r@.len() == 32,
{
    match hmac::Hmac::<sha2::Sha256>::new_from_slice(key) {
        Ok(mut mac) => {
            mac.update(message);
            mac.finalize().into_bytes().to_vec()
        },
        Err(_) => Vec::new(),
    }
}

/// The digest that [`sha256`] gives.
pub uninterp spec fn sha256_of(data: Seq<u8>) -> Seq<u8>;

/// Calls `sha2::Sha256::digest`.
///
/// Claimed of it: the digest depends on the bytes alone and has 32 of its own.
#[verifier::external_body]
pub(crate) fn sha256(data: &[u8]) -> (r: Vec<u8>)
    ensures
        r@ == sha256_of(data@),
        r@.len() == 32,
{
    sha2::Sha256::digest(data).to_vec()
}

/// A secret of 32 bytes, in a `zeroize::Zeroizing` that wipes it from memory when it is dropped.
///
/// The bound of `Zeroizing` is a trait of its own crate, so it cannot stand here as it is.
#[verifier::external_body]
pub struct Secret {
    bytes: zeroize::Zeroizing<[u8; 32]>,
}

/// The bytes that a [`Secret`] holds.
pub uninterp spec fn secret_bytes(secret: Secret) -> Seq<u8>;

/// Calls `zeroize::Zeroizing::new`.
///
/// Claimed of it: the secret holds the bytes that it was made of.
#[verifier::external_body]
pub(crate) fn seal_secret(bytes: &[u8; 32]) -> (r: Secret)
    ensures
        secret_bytes(r) == bytes@,
{
    Secret { bytes: zeroize::Zeroizing::new(*bytes) }
}

/// Calls `zeroize::Zeroizing::deref`.
///
/// Claimed of it: these are the bytes that the secret holds.
#[verifier::external_body]
pub(crate) fn open_secret(secret: &Secret) -> (r: &[u8; 32])
    ensures
        r@ == secret_bytes(*secret),
{
    &secret.bytes
}

/// The public key that [`x25519_public`] gives.
pub uninterp spec fn x25519_public_of(secret: Seq<u8>) -> Seq<u8>;

/// Calls `x25519_dalek::PublicKey::from` on a `StaticSecret`.
///
/// Claimed of it: the public key depends on the secret alone.
#[verifier::external_body]
pub(crate) fn x25519_public(secret: &[u8; 32]) -> (r: [u8; 32])
    ensures
        r@ == x25519_public_of(secret@),
{
    *x25519_dalek::PublicKey::from(&x25519_dalek::StaticSecret::from(*secret)).as_bytes()
}

/// The shared secret that [`x25519_shared`] gives.
pub uninterp spec fn x25519_of(secret: Seq<u8>, public: Seq<u8>) -> Seq<u8>;

/// Thirty-two zeros.
pub open spec fn zeros32() -> Seq<u8> {
    Seq::new(32, |i: int| 0u8)
}

/// Calls `x25519_dalek::StaticSecret::diffie_hellman`, and `was_contributory` on what it gives.
///
/// Claimed of them: the shared secret depends on the two keys alone; the owner of the other secret
/// gets the same one from our public key; and it is contributory exactly when it is not all zeros.
#[verifier::external_body]
pub(crate) fn x25519_shared(secret: &[u8; 32], public: &[u8; 32]) -> (r: ([u8; 32], bool))
    ensures
        r.0@ == x25519_of(secret@, public@),
        forall|other: Seq<u8>|
            other.len() == 32 && public@ == #[trigger] x25519_public_of(other) ==> r.0@ == x25519_of(
                other,
                x25519_public_of(secret@),
            ),
        r.1 == (r.0@ != zeros32()),
{
    let shared = x25519_dalek::StaticSecret::from(*secret).diffie_hellman(
        &x25519_dalek::PublicKey::from(*public),
    );
    (*shared.as_bytes(), shared.was_contributory())
}

/// The public key that [`ed25519_public`] gives.
pub uninterp spec fn ed25519_public_of(secret: Seq<u8>) -> Seq<u8>;

/// Calls `ed25519_dalek::SigningKey::from_bytes` and `verifying_key`.
///
/// Claimed of them: the public key depends on the secret alone.
#[verifier::external_body]
pub(crate) fn ed25519_public(secret: &[u8; 32]) -> (r: [u8; 32])
    ensures
        r@ == ed25519_public_of(secret@),
{
    *ed25519_dalek::SigningKey::from_bytes(secret).verifying_key().as_bytes()
}

/// The signature that [`ed25519_sign`] gives.
pub uninterp spec fn ed25519_signature(secret: Seq<u8>, message: Seq<u8>) -> Seq<u8>;

/// How the neutral point of the curve is written: a one and zeros.
pub open spec fn neutral_point() -> Seq<u8> {
    Seq::new(
        32,
        |i: int|
            if i == 0 {
                1u8
            } else {
                0u8
            },
    )
}

/// Calls `ed25519_dalek::SigningKey::try_sign`, which does not fail.
///
/// Claimed of it: the signature depends on the secret and the message alone, has 64 bytes, and
/// verifies under the public key. Strict verification refuses a signature whose first half is the
/// neutral point, which is what a nonce that hashes to zero gives, so that one is left out.
#[verifier::external_body]
pub(crate) fn ed25519_sign(secret: &[u8; 32], message: &[u8]) -> (r: Vec<u8>)
    ensures
        r@ == ed25519_signature(secret@, message@),
        r@.len() == 64,
        r@.take(32) != neutral_point() ==> ed25519_verifies(
            ed25519_public_of(secret@),
            message@,
            r@,
        ),
{
    match ed25519_dalek::SigningKey::from_bytes(secret).try_sign(message) {
        Ok(signature) => signature.to_bytes().to_vec(),
        Err(_) => Vec::new(),
    }
}

/// What [`ed25519_verify`] says.
pub uninterp spec fn ed25519_verifies(
    public: Seq<u8>,
    message: Seq<u8>,
    signature: Seq<u8>,
) -> bool;

/// Calls `ed25519_dalek::VerifyingKey::from_bytes`, `Signature::try_from` and
/// `VerifyingKey::verify_strict`.
///
/// Claimed of them: whether a signature is good depends on the key, the message and the signature
/// alone.
#[verifier::external_body]
pub(crate) fn ed25519_verify(public: &[u8; 32], message: &[u8], signature: &[u8]) -> (r: bool)
    ensures
        r == ed25519_verifies(public@, message@, signature@),
{
    match (
        ed25519_dalek::VerifyingKey::from_bytes(public),
        ed25519_dalek::Signature::try_from(signature),
    ) {
        (Ok(key), Ok(signature)) => key.verify_strict(message, &signature).is_ok(),
        _ => false,
    }
}

/// The bytes that [`hkdf_sha256`] gives.
pub uninterp spec fn hkdf_of(salt: Seq<u8>, ikm: Seq<u8>, info: Seq<u8>, len: nat) -> Seq<u8>;

/// Calls `hkdf::Hkdf::<sha2::Sha256>::new` and `expand`, for at most 255 blocks of 32 bytes.
///
/// Claimed of them: the bytes depend on the salt, the key material, the context and the length
/// alone, and there are as many as were asked for.
#[verifier::external_body]
pub(crate) fn hkdf_sha256(salt: &[u8], ikm: &[u8], info: &[u8], len: usize) -> (r: Vec<u8>)
    requires
        len <= 8160,
    ensures
        r@ == hkdf_of(salt@, ikm@, info@, len as nat),
        r@.len() == len,
{
    let mut out = vec![0u8; len];
    match hkdf::Hkdf::<sha2::Sha256>::new(Some(salt), ikm).expand(info, &mut out) {
        Ok(()) => out,
        Err(_) => Vec::new(),
    }
}

/// The most bytes that one key and nonce encrypt: 64 for each block that the counter can number.
pub const MAX_PLAIN: u64 = 0x3f_ffff_ff80;

/// How many bytes the authentication tag takes.
pub const TAG_LEN: usize = 16;

/// The ciphertext that [`xchacha_seal`] gives.
pub uninterp spec fn xchacha_sealed(
    key: Seq<u8>,
    nonce: Seq<u8>,
    aad: Seq<u8>,
    plain: Seq<u8>,
) -> Seq<u8>;

/// The plaintext that [`xchacha_open`] gives, or nothing.
pub uninterp spec fn xchacha_opened(
    key: Seq<u8>,
    nonce: Seq<u8>,
    aad: Seq<u8>,
    sealed: Seq<u8>,
) -> Option<Seq<u8>>;

/// Calls `chacha20poly1305::XChaCha20Poly1305::encrypt`, which fails only on more bytes than
/// [`MAX_PLAIN`].
///
/// Claimed of it: the ciphertext depends on the key, the nonce, the associated data and the
/// plaintext alone; it is longer than the plaintext by the tag; and it opens to the plaintext.
#[verifier::external_body]
pub(crate) fn xchacha_seal(key: &[u8; 32], nonce: &[u8; 24], aad: &[u8], plain: &[u8]) -> (r: Vec<
    u8,
>)
    requires
        plain@.len() <= MAX_PLAIN,
    ensures
        r@ == xchacha_sealed(key@, nonce@, aad@, plain@),
        r@.len() == plain@.len() + TAG_LEN,
        xchacha_opened(key@, nonce@, aad@, r@) == Some(plain@),
{
    match chacha20poly1305::XChaCha20Poly1305::new(&chacha20poly1305::Key::from(*key)).encrypt(
        &chacha20poly1305::XNonce::from(*nonce),
        Payload { msg: plain, aad },
    ) {
        Ok(sealed) => sealed,
        Err(_) => Vec::new(),
    }
}

/// Calls `chacha20poly1305::XChaCha20Poly1305::decrypt`.
///
/// Claimed of it: whether a ciphertext opens, and to what, depends on the key, the nonce, the
/// associated data and the ciphertext alone.
#[verifier::external_body]
pub(crate) fn xchacha_open(
    key: &[u8; 32],
    nonce: &[u8; 24],
    aad: &[u8],
    sealed: &[u8],
) -> (r: Option<Vec<u8>>)
    requires
        sealed@.len() <= MAX_PLAIN + TAG_LEN,
    ensures
        r.deep_view() == xchacha_opened(key@, nonce@, aad@, sealed@),
{
    chacha20poly1305::XChaCha20Poly1305::new(&chacha20poly1305::Key::from(*key)).decrypt(
        &chacha20poly1305::XNonce::from(*nonce),
        Payload { msg: sealed, aad },
    ).ok()
}

} // verus!
