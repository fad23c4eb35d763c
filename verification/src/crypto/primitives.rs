//! The cryptographic primitives that the library takes from outside crates:
//! SHA-256 (`sha2`), HKDF-SHA-256 (`hkdf`), AES-256-GCM (`aes-gcm`), X25519
//! (`x25519-dalek`) and randomness (`rand`).
use vstd::prelude::*;
use aes_gcm::aead::Aead;
use aes_gcm::KeyInit;

verus! {

/// The SHA-256 digest of a byte string.
pub uninterp spec fn spec_sha256(data: Seq<u8>) -> Seq<u8>;

/// The HKDF-SHA-256 output of length `len` for a salt, input key material and info.
pub uninterp spec fn spec_hkdf_sha256(salt: Seq<u8>, ikm: Seq<u8>, info: Seq<u8>, len: nat) -> Seq<u8>;

/// The AES-256-GCM ciphertext (with its 16-byte tag appended) of a plaintext,
/// with empty associated data.
pub uninterp spec fn spec_aes256gcm_encrypt(key: Seq<u8>, nonce: Seq<u8>, plaintext: Seq<u8>) -> Seq<u8>;

/// The AES-256-GCM opening of a ciphertext with its tag: the plaintext, or
/// `None` when authentication fails.
pub uninterp spec fn spec_aes256gcm_decrypt(key: Seq<u8>, nonce: Seq<u8>, ciphertext: Seq<u8>) -> Option<Seq<u8>>;

/// The X25519 public key of a secret key.
pub uninterp spec fn spec_x25519_public(secret: Seq<u8>) -> Seq<u8>;

/// The X25519 shared secret of a secret key and a peer's public key.
pub uninterp spec fn spec_x25519_shared(secret: Seq<u8>, their_public: Seq<u8>) -> Seq<u8>;

/// The largest plaintext that AES-256-GCM accepts, in bytes.
pub open spec fn aes_gcm_max_plaintext() -> nat {
    0x10_0000_0000
}

/// `sha2::Sha256::digest`: the result is the digest of `data`, 32 bytes long.
#[verifier::external_body]
pub(crate) fn sha256(data: &[u8]) -> (digest: Vec<u8>)
    ensures
        digest@ == spec_sha256(data@),
        digest@.len() == 32,
{
    <sha2::Sha256 as sha2::Digest>::digest(data).to_vec()
}

/// `hkdf::Hkdf::<Sha256>::new(Some(salt), ikm)` followed by `expand(info, ..)`
/// into `len` bytes, which succeeds for `len` up to 255 blocks of 32 bytes.
#[verifier::external_body]
pub(crate) fn hkdf_sha256(salt: &[u8], ikm: &[u8], info: &[u8], len: usize) -> (okm: Vec<u8>)
    requires
        len <= 8160,
    ensures
        okm@ == spec_hkdf_sha256(salt@, ikm@, info@, len as nat),
        okm@.len() == len,
{
    let mut okm = vec![0u8; len];
    hkdf::Hkdf::<sha2::Sha256>::new(Some(salt), ikm).expand(info, &mut okm).expect("hkdf expand");
    okm
}

/// `aes_gcm::Aes256Gcm::encrypt` with the given 12-byte nonce and no
/// associated data. It fails only for plaintexts over 2^36 bytes; the
/// ciphertext is the plaintext's length plus the 16-byte tag.
#[verifier::external_body]
pub(crate) fn aes256gcm_encrypt(key: &[u8; 32], nonce: &[u8], plaintext: &[u8]) -> (res: Result<
    Vec<u8>,
    String,
>)
    requires
        nonce@.len() == 12,
    ensures
        res is Ok <==> plaintext@.len() <= aes_gcm_max_plaintext(),
        res matches Ok(c) ==> c@ == spec_aes256gcm_encrypt(key@, nonce@, plaintext@) && c@.len()
            == plaintext@.len() + 16,
{
    let cipher = <aes_gcm::Aes256Gcm as KeyInit>::new_from_slice(key).map_err(|e| e.to_string())?;
    cipher.encrypt(aes_gcm::Nonce::from_slice(nonce), plaintext).map_err(|e| e.to_string())
}

/// `aes_gcm::Aes256Gcm::decrypt` with the given 12-byte nonce and no
/// associated data: the opening of the ciphertext, which gives back the
/// plaintext of any ciphertext that encryption under the same key and nonce
/// produced.
#[verifier::external_body]
pub(crate) fn aes256gcm_decrypt(key: &[u8; 32], nonce: &[u8], ciphertext: &[u8]) -> (res: Result<
    Vec<u8>,
    String,
>)
    requires
        nonce@.len() == 12,
    ensures
        match res {
            Ok(p) => spec_aes256gcm_decrypt(key@, nonce@, ciphertext@) == Some(p@) && forall|
                q: Seq<u8>,
            |
                q.len() <= aes_gcm_max_plaintext() && ciphertext@ == #[trigger] spec_aes256gcm_encrypt(
                    key@,
                    nonce@,
                    q,
                ) ==> p@ == q,
            Err(_) => spec_aes256gcm_decrypt(key@, nonce@, ciphertext@) is None && forall|
                q: Seq<u8>,
            |
                q.len() <= aes_gcm_max_plaintext() ==> ciphertext@ != #[trigger] spec_aes256gcm_encrypt(
                    key@,
                    nonce@,
                    q,
                ),
        },
{
    let cipher = <aes_gcm::Aes256Gcm as KeyInit>::new_from_slice(key).map_err(|e| e.to_string())?;
    cipher.decrypt(aes_gcm::Nonce::from_slice(nonce), ciphertext).map_err(|e| e.to_string())
}

/// `x25519_dalek::PublicKey::from(&StaticSecret::from(secret))`: the public
/// key of a secret key.
#[verifier::external_body]
pub(crate) fn x25519_public(secret: &[u8; 32]) -> (public: [u8; 32])
    ensures
        public@ == spec_x25519_public(secret@),
{
    x25519_dalek::PublicKey::from(&x25519_dalek::StaticSecret::from(*secret)).to_bytes()
}

/// `x25519_dalek::StaticSecret::diffie_hellman`: the shared secret of a
/// secret key and a peer's public key. Both sides of an exchange compute the
/// same value: the secret of `a` with the public key of `b` equals the
/// secret of `b` with the public key of `a`.
#[verifier::external_body]
pub(crate) fn x25519_shared(secret: &[u8; 32], their_public: &[u8; 32]) -> (shared: [u8; 32])
    ensures
        shared@ == spec_x25519_shared(secret@, their_public@),
        forall|b: Seq<u8>|
            b.len() == 32 && their_public@ == #[trigger] spec_x25519_public(b) ==> shared@
                == spec_x25519_shared(b, spec_x25519_public(secret@)),
{
    let secret = x25519_dalek::StaticSecret::from(*secret);
    secret.diffie_hellman(&x25519_dalek::PublicKey::from(*their_public)).to_bytes()
}

/// `x25519_dalek::StaticSecret::random_from_rng(OsRng)`: a fresh secret key
/// from the operating system's generator. Nothing is known of its value.
#[verifier::external_body]
pub(crate) fn x25519_random_secret() -> (secret: [u8; 32]) {
    x25519_dalek::StaticSecret::random_from_rng(rand::rngs::OsRng).to_bytes()
}

/// `rand::RngCore::fill_bytes` on the thread-local generator: `len` random
/// bytes, of which only the length is known.
#[verifier::external_body]
pub(crate) fn random_bytes(len: usize) -> (bytes: Vec<u8>)
    ensures
        bytes@.len() == len,
{
    let mut bytes = vec![0u8; len];
    rand::RngCore::fill_bytes(&mut rand::thread_rng(), &mut bytes);
    bytes
}

/// `rand::RngCore::next_u64` on the thread-local generator.
#[verifier::external_body]
pub(crate) fn random_u64() -> (value: u64) {
    rand::RngCore::next_u64(&mut rand::thread_rng())
}

/// `rand::random::<u32>()`.
#[verifier::external_body]
pub(crate) fn random_u32() -> (value: u32) {
    rand::random::<u32>()
}

} // verus!
