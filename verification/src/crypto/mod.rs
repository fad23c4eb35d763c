pub mod aes;
pub mod keys;
pub mod primitives;
pub mod ratchet;
pub mod noise;
