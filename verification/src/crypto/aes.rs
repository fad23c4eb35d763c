//! Symmetric layers of the steganographic payload: key derivation from the
//! password, AES-256-GCM sealing and the repeating-key xor layer.
use vstd::prelude::*;
use vstd::slice::*;
use vstd::string::*;
use crate::crypto::primitives::{
    aes256gcm_decrypt, aes256gcm_encrypt, aes_gcm_max_plaintext, hkdf_sha256, random_bytes,
    spec_aes256gcm_decrypt, spec_aes256gcm_encrypt, spec_hkdf_sha256,
};

verus! {

/// Byte `i` of `data` xor-ed with byte `i % 32` of the key.
pub open spec fn spec_xor_cipher(data: Seq<u8>, key: Seq<u8>) -> Seq<u8> {
    Seq::new(data.len(), |i: int| data[i] ^ key[i % 32])
}

/// Xors `data` with the 32-byte key repeated along it.
pub fn xor_cipher(data: &[u8], key: &[u8; 32]) -> (result: Vec<u8>)
    ensures
        result@ == spec_xor_cipher(data@, key@),
        result@.len() == data@.len(),
        forall|i: int| 0 <= i < data@.len() ==> #[trigger] result@[i] == data@[i] ^ key@[i % 32],
{
    let n: usize = data.len();
    let mut result: Vec<u8> = Vec::with_capacity(n);
    let mut i: usize = 0;
    while i < n
        invariant
            n == data@.len(),
            key@.len() == 32,
            i <= n,
            result@.len() == i,
            forall|k: int| 0 <= k < i ==> result@[k] == data@[k] ^ key@[k % 32],
        decreases n - i,
    {
        result.push(data[i] ^ key[i % 32]);
        i = i + 1;
    }
    assert(result@ =~= spec_xor_cipher(data@, key@));
    result
}

/// Xor-ing twice with the same key gives the data back.
pub proof fn lemma_xor_involution(data: Seq<u8>, key: Seq<u8>)
    requires
        key.len() == 32,
    ensures
        spec_xor_cipher(spec_xor_cipher(data, key), key) == data,
{
    let once = spec_xor_cipher(data, key);
    let twice = spec_xor_cipher(once, key);
    assert forall|i: int| 0 <= i < data.len() implies twice[i] == data[i] by {
        let a = data[i];
        let k = key[i % 32];
        assert((a ^ k) ^ k == a) by (bit_vector);
    }
    assert(twice =~= data);
}

/// The HKDF salt of the steganographic keys.
pub open spec fn stego_salt() -> Seq<u8> {
    "bubu2bubu-stego".spec_bytes()
}

/// The HKDF info strings of the three derived keys.
pub open spec fn aes_key_info() -> Seq<u8> {
    "aes-key".spec_bytes()
}

pub open spec fn xor_key_info() -> Seq<u8> {
    "xor-key".spec_bytes()
}

pub open spec fn chaos_seed_info() -> Seq<u8> {
    "chaos-seed".spec_bytes()
}

/// The AES key, xor key and chaos seed derived from a password.
pub open spec fn spec_derive_keys(password: Seq<u8>) -> (Seq<u8>, Seq<u8>, Seq<u8>) {
    (
        spec_hkdf_sha256(stego_salt(), password, aes_key_info(), 32),
        spec_hkdf_sha256(stego_salt(), password, xor_key_info(), 32),
        spec_hkdf_sha256(stego_salt(), password, chaos_seed_info(), 16),
    )
}

/// Copies 32 bytes into an array.
pub fn to_array32(v: &[u8]) -> (a: [u8; 32])
    requires
        v@.len() == 32,
    ensures
        a@ == v@,
{
    let mut a: [u8; 32] = [0u8; 32];
    let mut i: usize = 0;
    while i < 32
        invariant
            v@.len() == 32,
            i <= 32,
            forall|k: int| 0 <= k < i ==> a@[k] == v@[k],
        decreases 32 - i,
    {
        a[i] = v[i];
        i = i + 1;
    }
    assert(a@ =~= v@);
    a
}

/// Derives the AES key, the xor key and the 16-byte chaos seed from a
/// password with HKDF-SHA-256; the iteration count plays no part.
pub fn derive_keys(password: &str, _iterations: u32) -> (keys: ([u8; 32], [u8; 32], Vec<u8>))
    ensures
        keys.0@ == spec_derive_keys(password.spec_bytes()).0,
        keys.1@ == spec_derive_keys(password.spec_bytes()).1,
        keys.2@ == spec_derive_keys(password.spec_bytes()).2,
{
    let salt: &[u8] = "bubu2bubu-stego".as_bytes();
    let ikm: &[u8] = password.as_bytes();
    let aes = hkdf_sha256(salt, ikm, "aes-key".as_bytes(), 32);
    let xor = hkdf_sha256(salt, ikm, "xor-key".as_bytes(), 32);
    let chaos_seed = hkdf_sha256(salt, ikm, "chaos-seed".as_bytes(), 16);
    (to_array32(aes.as_slice()), to_array32(xor.as_slice()), chaos_seed)
}

/// Seals `data` with AES-256-GCM under a fresh random 12-byte nonce. The
/// result is the ciphertext (tag appended), an empty salt, the nonce and the
/// tag, i.e. the last 16 bytes of the ciphertext.
pub fn encrypt_aes(data: &[u8], key: &[u8; 32]) -> (res: Result<
    (Vec<u8>, Vec<u8>, Vec<u8>, Vec<u8>),
    String,
>)
    ensures
        res is Ok <==> data@.len() <= aes_gcm_max_plaintext(),
        res matches Ok((ct, salt, nonce, tag)) ==> {
            &&& nonce@.len() == 12
            &&& ct@ == spec_aes256gcm_encrypt(key@, nonce@, data@)
            &&& ct@.len() == data@.len() + 16
            &&& salt@.len() == 0
            &&& tag@ == ct@.subrange(ct@.len() - 16, ct@.len() as int)
        },
{
    let nonce = random_bytes(12);
    let ciphertext = match aes256gcm_encrypt(key, nonce.as_slice(), data) {
        Ok(c) => c,
        Err(e) => {
            return Err(e);
        },
    };
    let tag: Vec<u8> = if ciphertext.len() >= 16 {
        slice_to_vec(slice_subrange(ciphertext.as_slice(), ciphertext.len() - 16, ciphertext.len()))
    } else {
        Vec::new()
    };
    Ok((ciphertext, Vec::new(), nonce, tag))
}

/// Opens an AES-256-GCM ciphertext (tag appended) with the given nonce; the
/// salt and the separate tag play no part.
pub fn decrypt_aes(ciphertext: &[u8], key: &[u8; 32], _salt: &[u8], nonce: &[u8], _tag: &[u8]) -> (res:
    Result<Vec<u8>, String>)
    requires
        nonce@.len() == 12,
    ensures
        match res {
            Ok(p) => spec_aes256gcm_decrypt(key@, nonce@, ciphertext@) == Some(p@),
            Err(_) => spec_aes256gcm_decrypt(key@, nonce@, ciphertext@) is None,
        },
        forall|p: Seq<u8>|
            p.len() <= aes_gcm_max_plaintext() && ciphertext@ == #[trigger] spec_aes256gcm_encrypt(
                key@,
                nonce@,
                p,
            ) ==> (res matches Ok(v) && v@ == p),
{
    aes256gcm_decrypt(key, nonce, ciphertext)
}


/// The xor layer uses the whole key, repeated: the first 32 bytes are xor-ed
/// with key bytes 0 to 31 in turn, and every byte after them with the same
/// key byte as the byte 32 places before it.
pub proof fn lemma_xor_key_repeats(data: Seq<u8>, key: Seq<u8>)
    requires
        key.len() == 32,
    ensures
        spec_xor_cipher(data, key).len() == data.len(),
        forall|i: int| 0 <= i < 32 && i < data.len() ==> #[trigger] spec_xor_cipher(data, key)[i] == data[i] ^ key[i],
        forall|i: int|
            32 <= i < data.len() ==> (#[trigger] spec_xor_cipher(data, key)[i]) ^ data[i] == spec_xor_cipher(
                data,
                key,
            )[i - 32] ^ data[i - 32],
{
    let out = spec_xor_cipher(data, key);
    assert forall|i: int| 0 <= i < 32 && i < data.len() implies #[trigger] out[i] == data[i] ^ key[i] by {
        assert(i % 32 == i);
    }
    assert forall|i: int| 32 <= i < data.len() implies (#[trigger] out[i]) ^ data[i] == out[i - 32] ^ data[i - 32] by {
        assert(i % 32 == (i - 32) % 32);
        let a = data[i];
        let b = data[i - 32];
        let k = key[i % 32];
        assert((a ^ k) ^ a == k) by (bit_vector);
        assert((b ^ k) ^ b == k) by (bit_vector);
    }
}

} // verus!
