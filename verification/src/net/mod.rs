//! The peer link: Noise transport, length-prefixed frames and chunked
//! stego packets.
pub mod peer;
pub mod protocol;

use vstd::prelude::*;
use crate::crypto::noise::{NoiseInitiator, NoiseResponder, NOISE_MAX_MESSAGE, NOISE_TAG_LEN};

verus! {

/// An established Noise session, from either side of the handshake.
pub enum Transport {
    Initiator(NoiseInitiator),
    Responder(NoiseResponder),
}

impl Transport {
    /// Seals one message with the session's sending key.
    pub fn encrypt(&mut self, data: &[u8]) -> (res: Result<Vec<u8>, String>)
        requires
            data@.len() + 64 <= usize::MAX,
        ensures
            data@.len() + NOISE_TAG_LEN > NOISE_MAX_MESSAGE ==> res is Err,
            res matches Ok(c) ==> c@.len() == data@.len() + NOISE_TAG_LEN,
    {
        match self {
            Transport::Initiator(t) => t.encrypt(data),
            Transport::Responder(t) => t.encrypt(data),
        }
    }

    /// Opens one message with the session's receiving key.
    pub fn decrypt(&mut self, data: &[u8]) -> (res: Result<Vec<u8>, String>)
        ensures
            data@.len() < NOISE_TAG_LEN || data@.len() > NOISE_MAX_MESSAGE ==> res is Err,
            res matches Ok(p) ==> p@.len() + NOISE_TAG_LEN == data@.len(),
    {
        match self {
            Transport::Initiator(t) => t.decrypt(data),
            Transport::Responder(t) => t.decrypt(data),
        }
    }
}

} // verus!
