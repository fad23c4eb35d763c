//! A symmetric key ratchet: every message is sealed under a fresh message
//! key, and the chain key moves forward with every message.
use vstd::prelude::*;
use vstd::slice::*;
use vstd::string::*;
use crate::codec::{hex_encode, spec_hex_encode};
use crate::crypto::aes::to_array32;
use crate::crypto::primitives::{
    aes256gcm_decrypt, aes256gcm_encrypt, aes_gcm_max_plaintext, hkdf_sha256, random_bytes,
    spec_aes256gcm_decrypt, spec_aes256gcm_encrypt, spec_hkdf_sha256,
};

verus! {

/// The chain key of a ratchet set up from a Noise session's bytes.
pub open spec fn spec_initial_chain(session_bytes: Seq<u8>) -> Seq<u8> {
    spec_hkdf_sha256("bubu2bubu-ratchet-init".spec_bytes(), session_bytes, "ratchet-chain".spec_bytes(), 32)
}

/// The message key that a chain key yields for the next message.
pub open spec fn spec_message_key(chain: Seq<u8>) -> Seq<u8> {
    spec_hkdf_sha256(chain, "ratchet-step".spec_bytes(), "message-key".spec_bytes(), 32)
}

/// The chain key that follows a chain key.
pub open spec fn spec_next_chain(chain: Seq<u8>) -> Seq<u8> {
    spec_hkdf_sha256(chain, "ratchet-step".spec_bytes(), "chain-key".spec_bytes(), 32)
}

/// The error for input shorter than a nonce.
pub open spec fn too_short_message() -> Seq<char> {
    "data too short"@
}

pub struct Ratchet {
    chain_key: [u8; 32],
}

impl Ratchet {
    /// The current chain key.
    pub closed spec fn chain(&self) -> Seq<u8> {
        self.chain_key@
    }

    /// A ratchet whose chain starts at the shared secret.
    pub fn new(shared_secret: &[u8; 32]) -> (r: Self)
        ensures
            r.chain() == shared_secret@,
    {
        Ratchet { chain_key: *shared_secret }
    }

    /// A ratchet whose chain is derived from a Noise session's bytes.
    pub fn from_noise_session(session_bytes: &[u8]) -> (r: Self)
        ensures
            r.chain() == spec_initial_chain(session_bytes@),
    {
        let chain = hkdf_sha256(
            "bubu2bubu-ratchet-init".as_bytes(),
            session_bytes,
            "ratchet-chain".as_bytes(),
            32,
        );
        Ratchet { chain_key: to_array32(chain.as_slice()) }
    }

    /// Moves the chain forward and returns the message key of the old chain.
    fn advance(&mut self) -> (message_key: [u8; 32])
        ensures
            message_key@ == spec_message_key(old(self).chain()),
            final(self).chain() == spec_next_chain(old(self).chain()),
    {
        let ikm: &[u8] = "ratchet-step".as_bytes();
        let message_key = hkdf_sha256(self.chain_key.as_slice(), ikm, "message-key".as_bytes(), 32);
        let next_chain = hkdf_sha256(self.chain_key.as_slice(), ikm, "chain-key".as_bytes(), 32);
        self.chain_key = to_array32(next_chain.as_slice());
        to_array32(message_key.as_slice())
    }

    /// Seals a message under the next message key and a fresh random nonce;
    /// the output is the nonce followed by the ciphertext. The chain moves
    /// forward whether or not sealing succeeds.
    pub fn encrypt(&mut self, plaintext: &[u8]) -> (res: Result<Vec<u8>, String>)
        ensures
            final(self).chain() == spec_next_chain(old(self).chain()),
            res is Ok <==> plaintext@.len() <= aes_gcm_max_plaintext(),
            res matches Ok(out) ==> {
                &&& out@.len() == plaintext@.len() + 28
                &&& out@.subrange(12, out@.len() as int) == spec_aes256gcm_encrypt(
                    spec_message_key(old(self).chain()),
                    out@.subrange(0, 12),
                    plaintext@,
                )
            },
    {
        let message_key = self.advance();
        let nonce = random_bytes(12);
        let ciphertext = match aes256gcm_encrypt(&message_key, nonce.as_slice(), plaintext) {
            Ok(c) => c,
            Err(e) => {
                return Err(e);
            },
        };
        let mut result: Vec<u8> = nonce;
        let ghost n = result@;
        let mut rest: Vec<u8> = ciphertext;
        result.append(&mut rest);
        assert(result@.subrange(0, 12) =~= n);
        Ok(result)
    }

    /// Opens a message that starts with its 12-byte nonce under the next
    /// message key. Input shorter than a nonce is refused with the chain left
    /// as it was; otherwise the chain moves forward, and a message that the
    /// peer ratchet sealed from the same chain key opens to its plaintext.
    pub fn decrypt(&mut self, data: &[u8]) -> (res: Result<Vec<u8>, String>)
        ensures
            data@.len() < 12 ==> final(self).chain() == old(self).chain() && (res matches Err(e)
                && e@ == too_short_message()),
            data@.len() >= 12 ==> {
                &&& final(self).chain() == spec_next_chain(old(self).chain())
                &&& match res {
                    Ok(p) => spec_aes256gcm_decrypt(
                        spec_message_key(old(self).chain()),
                        data@.subrange(0, 12),
                        data@.subrange(12, data@.len() as int),
                    ) == Some(p@),
                    Err(_) => spec_aes256gcm_decrypt(
                        spec_message_key(old(self).chain()),
                        data@.subrange(0, 12),
                        data@.subrange(12, data@.len() as int),
                    ) is None,
                }
                &&& forall|p: Seq<u8>|
                    p.len() <= aes_gcm_max_plaintext() && data@.subrange(12, data@.len() as int)
                        == #[trigger] spec_aes256gcm_encrypt(
                        spec_message_key(old(self).chain()),
                        data@.subrange(0, 12),
                        p,
                    ) ==> (res matches Ok(v) && v@ == p)
            },
    {
        if data.len() < 12 {
            return Err("data too short".to_string());
        }
        let message_key = self.advance();
        let nonce: &[u8] = slice_subrange(data, 0, 12);
        let ciphertext: &[u8] = slice_subrange(data, 12, data.len());
        aes256gcm_decrypt(&message_key, nonce, ciphertext)
    }

    /// The chain key in lowercase hexadecimal, used as the stego password.
    pub fn stego_password(&self) -> (s: String)
        ensures
            s@ == spec_hex_encode(self.chain()),
    {
        hex_encode(self.chain_key.as_slice())
    }
}

} // verus!
