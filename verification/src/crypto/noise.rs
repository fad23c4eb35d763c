//! Noise XX sessions (X25519, ChaCha20-Poly1305, BLAKE2s) for the peer link.
use vstd::prelude::*;

verus! {

#[verifier::external_type_specification]
#[verifier::external_body]
pub struct ExHandshakeState(snow::HandshakeState);

#[verifier::external_type_specification]
#[verifier::external_body]
pub struct ExTransportState(snow::TransportState);

/// The handshake pattern and algorithms of every session.
pub const NOISE_PATTERN: &'static str = "Noise_XX_25519_ChaChaPoly_BLAKE2s";

/// The largest Noise message, in bytes.
pub const NOISE_MAX_MESSAGE: usize = 65535;

/// The authentication tag that every transport message carries, in bytes.
pub const NOISE_TAG_LEN: usize = 16;

/// `snow::Builder::new(pattern.parse()?)` with the local static key, then
/// `build_initiator`. For the session's pattern the name parses,
/// the default resolver supplies X25519, ChaCha20-Poly1305 and BLAKE2s, and
/// the XX pattern's only prerequisite, the local static key, is given, so
/// the builder succeeds. What state it holds is not stated.
#[verifier::external_body]
fn new_initiator_state(pattern: &str, local_key: &[u8; 32]) -> (res: Result<snow::HandshakeState, String>)
    requires
        pattern@ == NOISE_PATTERN@,
    ensures
        res is Ok,
{
    let params: snow::params::NoiseParams = pattern.parse().map_err(
        |e: snow::Error| e.to_string(),
    )?;
    snow::Builder::new(params).local_private_key(local_key).build_initiator().map_err(|e| e.to_string())
}

/// As `new_initiator_state`, with `build_responder`; it succeeds for the
/// same reasons.
#[verifier::external_body]
fn new_responder_state(pattern: &str, local_key: &[u8; 32]) -> (res: Result<snow::HandshakeState, String>)
    requires
        pattern@ == NOISE_PATTERN@,
    ensures
        res is Ok,
{
    let params: snow::params::NoiseParams = pattern.parse().map_err(
        |e: snow::Error| e.to_string(),
    )?;
    snow::Builder::new(params).local_private_key(local_key).build_responder().map_err(|e| e.to_string())
}

/// `snow::HandshakeState::write_message` into a buffer of the largest
/// message size, cut to the length written. It refuses a payload that with a
/// 16-byte tag would not fit the buffer, and a message it writes holds the
/// payload (sealed or not) after the pattern's key tokens. Whether it
/// succeeds otherwise depends on whose turn it is in the handshake, and
/// the bytes on the session's keys: neither is stated.
#[verifier::external_body]
fn handshake_write(state: &mut snow::HandshakeState, payload: &[u8]) -> (res: Result<Vec<u8>, String>)
    ensures
        payload@.len() + NOISE_TAG_LEN > NOISE_MAX_MESSAGE ==> res is Err,
        res matches Ok(m) ==> payload@.len() <= m@.len() <= NOISE_MAX_MESSAGE,
{
    let mut buf = vec![0u8; 65535];
    let len = state.write_message(payload, &mut buf).map_err(|e| e.to_string())?;
    buf.truncate(len);
    Ok(buf)
}

/// `snow::HandshakeState::read_message` into a buffer of the largest
/// message size, cut to the payload length. It refuses a message longer
/// than the largest message, and the payload it gives is the tail of the
/// message after the key tokens, opened. Whether it succeeds otherwise
/// depends on whose turn it is and on the peer's keys, and the payload's
/// bytes on the session's keys: neither is stated.
#[verifier::external_body]
fn handshake_read(state: &mut snow::HandshakeState, message: &[u8]) -> (res: Result<Vec<u8>, String>)
    ensures
        message@.len() > NOISE_MAX_MESSAGE ==> res is Err,
        res matches Ok(p) ==> p@.len() <= message@.len(),
{
    let mut buf = vec![0u8; 65535];
    let len = state.read_message(message, &mut buf).map_err(|e| e.to_string())?;
    buf.truncate(len);
    Ok(buf)
}

/// `snow::HandshakeState::is_handshake_finished`.
#[verifier::external_body]
fn handshake_finished(state: &snow::HandshakeState) -> (finished: bool) {
    state.is_handshake_finished()
}

/// `snow::HandshakeState::into_transport_mode`, which fails before the
/// handshake has finished.
#[verifier::external_body]
fn handshake_into_transport(state: snow::HandshakeState) -> (res: Result<snow::TransportState, String>) {
    state.into_transport_mode().map_err(|e| e.to_string())
}

/// `snow::TransportState::write_message` into a buffer 64 bytes longer
/// than the plaintext, cut to the length written. It refuses a payload that
/// with its 16-byte tag exceeds the largest message, and otherwise writes
/// the payload's length plus the tag (or fails when the nonces run out).
#[verifier::external_body]
fn transport_write(state: &mut snow::TransportState, plaintext: &[u8]) -> (res: Result<Vec<u8>, String>)
    requires
        plaintext@.len() + 64 <= usize::MAX,
    ensures
        plaintext@.len() + NOISE_TAG_LEN > NOISE_MAX_MESSAGE ==> res is Err,
        res matches Ok(c) ==> c@.len() == plaintext@.len() + NOISE_TAG_LEN,
{
    let mut buf = vec![0u8; plaintext.len() + 64];
    let len = state.write_message(plaintext, &mut buf).map_err(|e| e.to_string())?;
    buf.truncate(len);
    Ok(buf)
}

/// `snow::TransportState::read_message` into a buffer as long as the
/// ciphertext, cut to the payload length. A message shorter than its tag or
/// longer than the largest message is refused; an opened message is 16
/// bytes shorter than its ciphertext.
#[verifier::external_body]
fn transport_read(state: &mut snow::TransportState, ciphertext: &[u8]) -> (res: Result<Vec<u8>, String>)
    ensures
        ciphertext@.len() < NOISE_TAG_LEN || ciphertext@.len() > NOISE_MAX_MESSAGE ==> res is Err,
        res matches Ok(p) ==> p@.len() + NOISE_TAG_LEN == ciphertext@.len(),
{
    let mut buf = vec![0u8; ciphertext.len()];
    let len = state.read_message(ciphertext, &mut buf).map_err(|e| e.to_string())?;
    buf.truncate(len);
    Ok(buf)
}

/// The initiator side of a Noise XX handshake in progress.
pub struct NoiseHandshakeInitiator {
    state: snow::HandshakeState,
}

/// The responder side of a Noise XX handshake in progress.
pub struct NoiseHandshakeResponder {
    state: snow::HandshakeState,
}

/// The initiator's end of an established Noise session.
pub struct NoiseInitiator {
    state: snow::TransportState,
}

/// The responder's end of an established Noise session.
pub struct NoiseResponder {
    state: snow::TransportState,
}

/// Starts the initiator's handshake with its static key; the first value
/// is an empty prologue message.
pub fn build_initiator(local_key: &[u8; 32]) -> (res: Result<(Vec<u8>, NoiseHandshakeInitiator), String>)
    ensures
        res matches Ok((prologue, _)) && prologue@.len() == 0,
{
    let state = new_initiator_state(NOISE_PATTERN, local_key)?;
    Ok((Vec::new(), NoiseHandshakeInitiator { state }))
}

/// Starts the responder's handshake with its static key.
pub fn build_responder(local_key: &[u8; 32]) -> (res: Result<NoiseHandshakeResponder, String>)
    ensures
        res is Ok,
{
    let state = new_responder_state(NOISE_PATTERN, local_key)?;
    Ok(NoiseHandshakeResponder { state })
}

impl NoiseHandshakeInitiator {
    /// The next handshake message, carrying `payload`.
    pub fn write_message(&mut self, payload: &[u8]) -> (res: Result<Vec<u8>, String>)
        ensures
            payload@.len() + NOISE_TAG_LEN > NOISE_MAX_MESSAGE ==> res is Err,
            res matches Ok(m) ==> payload@.len() <= m@.len() <= NOISE_MAX_MESSAGE,
    {
        handshake_write(&mut self.state, payload)
    }

    /// Reads the peer's handshake message and gives its payload.
    pub fn read_message(&mut self, message: &[u8]) -> (res: Result<Vec<u8>, String>)
        ensures
            message@.len() > NOISE_MAX_MESSAGE ==> res is Err,
            res matches Ok(p) ==> p@.len() <= message@.len(),
    {
        handshake_read(&mut self.state, message)
    }

    /// Whether all handshake messages have been exchanged.
    pub fn is_handshake_finished(&self) -> (finished: bool) {
        handshake_finished(&self.state)
    }

    /// The established session.
    pub fn into_transport(self) -> (res: Result<NoiseInitiator, String>) {
        let state = handshake_into_transport(self.state)?;
        Ok(NoiseInitiator { state })
    }
}

impl NoiseHandshakeResponder {
    /// The next handshake message, carrying `payload`.
    pub fn write_message(&mut self, payload: &[u8]) -> (res: Result<Vec<u8>, String>)
        ensures
            payload@.len() + NOISE_TAG_LEN > NOISE_MAX_MESSAGE ==> res is Err,
            res matches Ok(m) ==> payload@.len() <= m@.len() <= NOISE_MAX_MESSAGE,
    {
        handshake_write(&mut self.state, payload)
    }

    /// Reads the peer's handshake message and gives its payload.
    pub fn read_message(&mut self, message: &[u8]) -> (res: Result<Vec<u8>, String>)
        ensures
            message@.len() > NOISE_MAX_MESSAGE ==> res is Err,
            res matches Ok(p) ==> p@.len() <= message@.len(),
    {
        handshake_read(&mut self.state, message)
    }

    /// Whether all handshake messages have been exchanged.
    pub fn is_handshake_finished(&self) -> (finished: bool) {
        handshake_finished(&self.state)
    }

    /// The established session.
    pub fn into_transport(self) -> (res: Result<NoiseResponder, String>) {
        let state = handshake_into_transport(self.state)?;
        Ok(NoiseResponder { state })
    }
}

impl NoiseInitiator {
    /// Seals one transport message: the plaintext and a 16-byte tag.
    pub fn encrypt(&mut self, plaintext: &[u8]) -> (res: Result<Vec<u8>, String>)
        requires
            plaintext@.len() + 64 <= usize::MAX,
        ensures
            plaintext@.len() + NOISE_TAG_LEN > NOISE_MAX_MESSAGE ==> res is Err,
            res matches Ok(c) ==> c@.len() == plaintext@.len() + NOISE_TAG_LEN,
    {
        transport_write(&mut self.state, plaintext)
    }

    /// Opens one transport message from the peer.
    pub fn decrypt(&mut self, ciphertext: &[u8]) -> (res: Result<Vec<u8>, String>)
        ensures
            ciphertext@.len() < NOISE_TAG_LEN || ciphertext@.len() > NOISE_MAX_MESSAGE ==> res is Err,
            res matches Ok(p) ==> p@.len() + NOISE_TAG_LEN == ciphertext@.len(),
    {
        transport_read(&mut self.state, ciphertext)
    }
}

impl NoiseResponder {
    /// Seals one transport message: the plaintext and a 16-byte tag.
    pub fn encrypt(&mut self, plaintext: &[u8]) -> (res: Result<Vec<u8>, String>)
        requires
            plaintext@.len() + 64 <= usize::MAX,
        ensures
            plaintext@.len() + NOISE_TAG_LEN > NOISE_MAX_MESSAGE ==> res is Err,
            res matches Ok(c) ==> c@.len() == plaintext@.len() + NOISE_TAG_LEN,
    {
        transport_write(&mut self.state, plaintext)
    }

    /// Opens one transport message from the peer.
    pub fn decrypt(&mut self, ciphertext: &[u8]) -> (res: Result<Vec<u8>, String>)
        ensures
            ciphertext@.len() < NOISE_TAG_LEN || ciphertext@.len() > NOISE_MAX_MESSAGE ==> res is Err,
            res matches Ok(p) ==> p@.len() + NOISE_TAG_LEN == ciphertext@.len(),
    {
        transport_read(&mut self.state, ciphertext)
    }
}

} // verus!
