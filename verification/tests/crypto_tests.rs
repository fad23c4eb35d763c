use bubu2bubu::crypto::aes::{decrypt_aes, derive_keys, encrypt_aes, to_array32, xor_cipher};
use bubu2bubu::crypto::keys::KeyPair;
use bubu2bubu::crypto::noise::{build_initiator, build_responder, NoiseInitiator, NoiseResponder};
use bubu2bubu::crypto::ratchet::Ratchet;
use bubu2bubu::net::Transport;

#[test]
fn xor_cipher_uses_the_key_cyclically() {
    let mut key = [0u8; 32];
    key[0] = 0xFF;
    key[1] = 0x0F;
    let data: Vec<u8> = (0..34).collect();
    let out = xor_cipher(&data, &key);
    assert_eq!(out[0], 0xFF);
    assert_eq!(out[1], 1 ^ 0x0F);
    assert_eq!(out[2], 2);
    assert_eq!(out[32], 32 ^ 0xFF);
    assert_eq!(out[33], 33 ^ 0x0F);
    assert_eq!(xor_cipher(&out, &key), data);
}

#[test]
fn derive_keys_is_deterministic_and_separates_keys() {
    let (a1, x1, c1) = derive_keys("password", 100_000);
    let (a2, x2, c2) = derive_keys("password", 1);
    assert_eq!(a1, a2);
    assert_eq!(x1, x2);
    assert_eq!(c1, c2);
    assert_eq!(c1.len(), 16);
    assert_ne!(a1, x1);
    let (a3, _, _) = derive_keys("other", 100_000);
    assert_ne!(a1, a3);
}

#[test]
fn aes_roundtrip_and_layout() {
    let key = [7u8; 32];
    let (ct, salt, nonce, tag) = encrypt_aes(b"attack at dawn", &key).unwrap();
    assert!(salt.is_empty());
    assert_eq!(nonce.len(), 12);
    assert_eq!(ct.len(), 14 + 16);
    assert_eq!(tag, ct[ct.len() - 16..].to_vec());
    assert_eq!(decrypt_aes(&ct, &key, &salt, &nonce, &tag).unwrap(), b"attack at dawn".to_vec());
    let other = [8u8; 32];
    assert!(decrypt_aes(&ct, &other, &salt, &nonce, &tag).is_err());
}

#[test]
fn aes_of_empty_plaintext_is_its_tag() {
    let key = [1u8; 32];
    let (ct, _, nonce, tag) = encrypt_aes(&[], &key).unwrap();
    assert_eq!(ct.len(), 16);
    assert_eq!(tag, ct);
    assert_eq!(decrypt_aes(&ct, &key, &[], &nonce, &tag).unwrap(), Vec::<u8>::new());
}

#[test]
fn to_array32_copies() {
    let v: Vec<u8> = (0..32).collect();
    let a = to_array32(&v);
    assert_eq!(a.to_vec(), v);
}

#[test]
fn ratchets_with_one_secret_agree() {
    let secret = [9u8; 32];
    let mut alice = Ratchet::new(&secret);
    let mut bob = Ratchet::new(&secret);
    for text in [&b"one"[..], b"two", b""] {
        let sealed = alice.encrypt(text).unwrap();
        assert_eq!(sealed.len(), 12 + text.len() + 16);
        assert_eq!(bob.decrypt(&sealed).unwrap(), text.to_vec());
    }
    assert_eq!(alice.stego_password(), bob.stego_password());
}

#[test]
fn ratchet_starts_from_the_secret() {
    let secret = [0xABu8; 32];
    let r = Ratchet::new(&secret);
    assert_eq!(r.stego_password(), "ab".repeat(32));
}

#[test]
fn ratchet_refuses_short_input_without_moving() {
    let secret = [3u8; 32];
    let mut r = Ratchet::new(&secret);
    let before = r.stego_password();
    assert_eq!(r.decrypt(&[1, 2, 3]).unwrap_err(), "data too short");
    assert_eq!(r.stego_password(), before);
    assert!(r.decrypt(&[0u8; 40]).is_err());
    assert_ne!(r.stego_password(), before);
}

#[test]
fn ratchet_from_noise_session_is_deterministic() {
    let a = Ratchet::from_noise_session(b"session");
    let b = Ratchet::from_noise_session(b"session");
    let c = Ratchet::from_noise_session(b"other");
    assert_eq!(a.stego_password(), b.stego_password());
    assert_ne!(a.stego_password(), c.stego_password());
    assert_eq!(a.stego_password().len(), 64);
}

#[test]
fn key_agreement_is_symmetric() {
    let a = KeyPair::generate();
    let b = KeyPair::generate();
    assert_eq!(a.shared_secret(&b.public_bytes()), b.shared_secret(&a.public_bytes()));
    let again = KeyPair::from_secret_bytes(a.to_secret_bytes());
    assert_eq!(again.public_bytes(), a.public_bytes());
}

fn handshake() -> (NoiseInitiator, NoiseResponder) {
    let ik = KeyPair::generate().to_secret_bytes();
    let rk = KeyPair::generate().to_secret_bytes();
    let (prologue, mut initiator) = build_initiator(&ik).unwrap();
    assert!(prologue.is_empty());
    let mut responder = build_responder(&rk).unwrap();
    let m1 = initiator.write_message(&[]).unwrap();
    responder.read_message(&m1).unwrap();
    let m2 = responder.write_message(&[]).unwrap();
    initiator.read_message(&m2).unwrap();
    let m3 = initiator.write_message(&[]).unwrap();
    responder.read_message(&m3).unwrap();
    assert!(initiator.is_handshake_finished());
    assert!(responder.is_handshake_finished());
    (initiator.into_transport().unwrap(), responder.into_transport().unwrap())
}

#[test]
fn noise_transport_roundtrip() {
    let (mut i, mut r) = handshake();
    let c = i.encrypt(b"ping").unwrap();
    assert_eq!(c.len(), 4 + 16);
    assert_eq!(r.decrypt(&c).unwrap(), b"ping".to_vec());
    let d = r.encrypt(b"pong").unwrap();
    assert_eq!(i.decrypt(&d).unwrap(), b"pong".to_vec());
}

#[test]
fn noise_refuses_oversized_and_short_messages() {
    let (mut i, mut r) = handshake();
    assert!(i.encrypt(&vec![0u8; 65520]).is_err());
    assert!(r.decrypt(&[0u8; 10]).is_err());
}

#[test]
fn handshake_messages_bound_their_payloads() {
    let ik = KeyPair::generate().to_secret_bytes();
    let rk = KeyPair::generate().to_secret_bytes();
    let (_, mut initiator) = build_initiator(&ik).unwrap();
    let mut responder = build_responder(&rk).unwrap();
    assert!(initiator.write_message(&vec![0u8; 65520]).is_err());
    assert!(responder.read_message(&vec![0u8; 65536]).is_err());
    let m1 = initiator.write_message(b"hello").unwrap();
    assert_eq!(m1.len(), 32 + 5);
    assert_eq!(responder.read_message(&m1).unwrap(), b"hello".to_vec());
    let m2 = responder.write_message(b"again").unwrap();
    assert!(m2.len() >= 5);
    let p2 = initiator.read_message(&m2).unwrap();
    assert_eq!(p2, b"again".to_vec());
    assert!(p2.len() <= m2.len());
    assert!(!initiator.is_handshake_finished());
}

#[test]
fn transport_dispatches_to_either_side() {
    let (i, r) = handshake();
    let mut a = Transport::Initiator(i);
    let mut b = Transport::Responder(r);
    let c = a.encrypt(b"through the enum").unwrap();
    assert_eq!(b.decrypt(&c).unwrap(), b"through the enum".to_vec());
}

#[test]
fn derive_keys_is_hkdf_sha256_under_the_stego_salt() {
    let hk = hkdf::Hkdf::<sha2::Sha256>::new(Some(b"bubu2bubu-stego"), b"password");
    let mut aes = [0u8; 32];
    hk.expand(b"aes-key", &mut aes).unwrap();
    let mut xor = [0u8; 32];
    hk.expand(b"xor-key", &mut xor).unwrap();
    let mut seed = [0u8; 16];
    hk.expand(b"chaos-seed", &mut seed).unwrap();
    let (a, x, c) = derive_keys("password", 7);
    assert_eq!(a, aes);
    assert_eq!(x, xor);
    assert_eq!(c, seed.to_vec());
}

#[test]
fn ratchet_step_is_hkdf_of_the_chain() {
    let secret = [4u8; 32];
    let mut r = Ratchet::new(&secret);
    let _ = r.encrypt(b"x").unwrap();
    let hk = hkdf::Hkdf::<sha2::Sha256>::new(Some(&secret), b"ratchet-step");
    let mut next = [0u8; 32];
    hk.expand(b"chain-key", &mut next).unwrap();
    let expected: String = next.iter().map(|b| format!("{:02x}", b)).collect();
    assert_eq!(r.stego_password(), expected);
}
