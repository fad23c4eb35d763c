//! Steganographic chat library: the image-embedding pipeline, its ciphers,
//! the wire framing and the chat session state, with their contracts.
pub mod codec;
pub mod crypto;
pub mod net;
pub mod chat;
pub mod protocol;
pub mod stego;
pub mod text;
