//! X25519 identity key pairs.
use vstd::prelude::*;
use crate::crypto::primitives::{
    spec_x25519_public, spec_x25519_shared, x25519_public, x25519_random_secret, x25519_shared,
};

verus! {

/// A secret key with its public key.
pub struct KeyPair {
    secret: [u8; 32],
    public: [u8; 32],
}

impl KeyPair {
    pub closed spec fn secret_key(&self) -> Seq<u8> {
        self.secret@
    }

    pub closed spec fn public_key(&self) -> Seq<u8> {
        self.public@
    }

    /// The public key is the one that belongs to the secret key.
    pub closed spec fn wf(&self) -> bool {
        self.public@ == spec_x25519_public(self.secret@)
    }

    /// A key pair with a fresh random secret key.
    pub fn generate() -> (kp: Self)
        ensures
            kp.wf(),
            kp.public_key() == spec_x25519_public(kp.secret_key()),
            kp.public_key().len() == 32,
            kp.secret_key().len() == 32,
    {
        let secret = x25519_random_secret();
        let public = x25519_public(&secret);
        KeyPair { secret, public }
    }

    /// The key pair of a stored secret key.
    pub fn from_secret_bytes(secret: [u8; 32]) -> (kp: Self)
        ensures
            kp.wf(),
            kp.secret_key() == secret@,
            kp.public_key() == spec_x25519_public(secret@),
            kp.public_key().len() == 32,
    {
        let public = x25519_public(&secret);
        KeyPair { secret, public }
    }

    /// The secret key's bytes.
    pub fn to_secret_bytes(&self) -> (b: [u8; 32])
        ensures
            b@ == self.secret_key(),
    {
        self.secret
    }

    /// The public key's bytes.
    pub fn public_bytes(&self) -> (b: [u8; 32])
        ensures
            b@ == self.public_key(),
    {
        self.public
    }

    /// The X25519 shared secret with a peer's public key. Both sides of an
    /// exchange get the same secret: with the public key of a well-formed
    /// pair `other`, it equals `other`'s secret with this pair's public key.
    pub fn shared_secret(&self, their_public: &[u8; 32]) -> (s: [u8; 32])
        requires
            self.wf(),
        ensures
            s@ == spec_x25519_shared(self.secret_key(), their_public@),
            forall|other: KeyPair|
                other.wf() && #[trigger] other.public_key() == their_public@ ==> s@
                    == spec_x25519_shared(other.secret_key(), self.public_key()),
    {
        let s = x25519_shared(&self.secret, their_public);
        assert forall|other: KeyPair|
            other.wf() && #[trigger] other.public_key() == their_public@ implies s@
                == spec_x25519_shared(other.secret_key(), self.public_key()) by {
            assert(their_public@ == spec_x25519_public(other.secret_key()));
            assert(other.secret_key().len() == 32);
        }
        s
    }
}

} // verus!
