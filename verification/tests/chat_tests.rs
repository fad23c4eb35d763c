use base64::Engine;
use bubu2bubu::chat::profile::{
    compute_key_tag, decode_secret_key, encode_secret_key, profile_dir, validate_avatar, PeerProfile,
};
use bubu2bubu::chat::session::{format_message_id, generate_id, now_secs, ChatMessage, ChatSession};
use bubu2bubu::crypto::aes::derive_keys;
use bubu2bubu::net::peer::{decode_stego_packet, prepare_stego_image};
use bubu2bubu::protocol::{ClientMsg, ServerMsg};
use bubu2bubu::stego::encoder::{ChaosInputs, NoiseWaves};

fn logistic(x: f64) -> f64 {
    3.9999 * x * (1.0 - x)
}

fn chaotic_sequence(seed: &[u8], length: usize) -> Vec<f64> {
    let seed_int = u32::from_be_bytes([
        seed.first().copied().unwrap_or(0),
        seed.get(1).copied().unwrap_or(0),
        seed.get(2).copied().unwrap_or(0),
        seed.get(3).copied().unwrap_or(0),
    ]);
    let mut x = (seed_int % 1_000_000) as f64 / 1_000_000.0;
    x = if x < 0.1 {
        x + 0.1
    } else if x > 0.9 {
        x - 0.1
    } else {
        x
    };
    for _ in 0..1000 {
        x = logistic(x);
    }
    (0..length)
        .map(|_| {
            x = logistic(x);
            x
        })
        .collect()
}

fn chaos_for(password: &str, payload_len: usize) -> ChaosInputs {
    let (_, _, seed) = derive_keys(password, 100_000);
    let nbits = 8 * payload_len;
    let planes = (0..nbits)
        .map(|i| {
            let mut e = seed.clone();
            e.extend_from_slice(&(i as u32).to_be_bytes());
            if chaotic_sequence(&e, 1)[0] < 0.85 {
                0
            } else {
                1
            }
        })
        .collect();
    let seed_int = u32::from_be_bytes([seed[0], seed[1], seed[2], seed[3]]);
    let mut x = (seed_int % 1000) as f64 / 1000.0 - 0.5;
    let mut y = ((seed_int >> 16) % 1000) as f64 / 1000.0 - 0.5;
    for _ in 0..500 {
        let (nx, ny) = (1.0 - 1.4 * x * x + y, 0.3 * x);
        x = nx;
        y = ny;
    }
    let mut orbit = Vec::new();
    for _ in 0..nbits * 100 {
        let (nx, ny) = (1.0 - 1.4 * x * x + y, 0.3 * x);
        x = nx;
        y = ny;
        orbit.push(((x.abs() * 1000.0) as usize, (y.abs() * 1000.0) as usize));
    }
    ChaosInputs {
        shuffle_keys: chaotic_sequence(&seed, payload_len).iter().map(|v| v.to_bits()).collect(),
        bit_planes: planes,
        henon_orbit: orbit,
    }
}

fn waves() -> NoiseWaves {
    NoiseWaves {
        red: (0..512).map(|x| (128.0 + 40.0 * (x as f64 / 50.0).sin()) as i16).collect(),
        green: (0..512).map(|y| (128.0 + 40.0 * (y as f64 / 50.0).sin()) as i16).collect(),
        blue: (0..1023).map(|s| (128.0 + 40.0 * (s as f64 / 70.0).sin()) as i16).collect(),
    }
}

fn no_chaos() -> ChaosInputs {
    ChaosInputs { shuffle_keys: vec![], bit_planes: vec![], henon_orbit: vec![] }
}

fn png_base64(width: u32, height: u32) -> String {
    let img = image::RgbImage::new(width, height);
    let mut buf = Vec::new();
    img.write_to(&mut std::io::Cursor::new(&mut buf), image::ImageFormat::Png).unwrap();
    base64::engine::general_purpose::STANDARD.encode(&buf)
}

fn connected(name: &str, room_key: &str) -> ChatSession {
    let mut s = ChatSession::new(None);
    s.set_username(name.to_string());
    let msg = s.finish_connect("127.0.0.1:9000", room_key.to_string());
    assert!(matches!(msg, ClientMsg::SetProfile { name: ref n, .. } if n == name));
    s
}

fn profile_update(key_tag: &str, name: &str, avatar: Option<&str>) -> Option<Result<ServerMsg, String>> {
    Some(Ok(ServerMsg::ProfileUpdate {
        key_tag: key_tag.to_string(),
        name: name.to_string(),
        avatar: avatar.map(|a| a.to_string()),
    }))
}

#[test]
fn key_tag_is_digest_prefix_in_hex() {
    assert_eq!(compute_key_tag(&[]), "e3b0c442");
    assert_eq!(compute_key_tag(&[0u8; 32]), "66687aad");
}

#[test]
fn profile_dir_joins_like_a_path() {
    assert_eq!(profile_dir("/data"), "/data/bubu2bubu");
    assert_eq!(profile_dir("/data/"), "/data/bubu2bubu");
    assert_eq!(profile_dir(""), "bubu2bubu");
}

#[test]
fn secret_key_hex_roundtrip() {
    let key = [0xABu8; 32];
    let hex = encode_secret_key(&key);
    assert_eq!(hex, "ab".repeat(32));
    assert_eq!(decode_secret_key(&hex), Some(key));
    assert_eq!(decode_secret_key("abcd"), None);
    assert_eq!(decode_secret_key("not hex"), None);
}

#[test]
fn validate_avatar_errors() {
    assert!(validate_avatar("!!!").unwrap_err().starts_with("invalid base64: "));
    let text = base64::engine::general_purpose::STANDARD.encode(b"hello world");
    assert_eq!(validate_avatar(&text).unwrap_err(), "only PNG and JPEG images are allowed");
    let fake_png = base64::engine::general_purpose::STANDARD.encode([0x89, 0x50, 0x4E, 0x47, 1, 2, 3]);
    assert!(validate_avatar(&fake_png).unwrap_err().starts_with("invalid image: "));
}

#[test]
fn validate_avatar_keeps_small_and_shrinks_large_images() {
    let small = validate_avatar(&png_base64(16, 8)).unwrap();
    let raw = base64::engine::general_purpose::STANDARD.decode(small).unwrap();
    let img = image::load_from_memory(&raw).unwrap();
    assert_eq!((img.width(), img.height()), (16, 8));
    let large = validate_avatar(&png_base64(256, 64)).unwrap();
    let raw = base64::engine::general_purpose::STANDARD.decode(large).unwrap();
    let img = image::load_from_memory(&raw).unwrap();
    assert_eq!((img.width(), img.height()), (128, 32));
}

#[test]
fn message_id_format() {
    assert_eq!(format_message_id(1700000000123, 0xab), "1700000000123-000000ab");
    assert_eq!(format_message_id(0, 0xFFFF_FFFF), "0-ffffffff");
    let id = generate_id();
    let (ms, hex) = id.split_once('-').unwrap();
    assert!(ms.chars().all(|c| c.is_ascii_digit()));
    assert_eq!(hex.len(), 8);
    assert!(now_secs() > 1_600_000_000);
}

#[test]
fn new_session_without_profile() {
    let s = ChatSession::new(None);
    assert_eq!(s.username(), "");
    assert_eq!(s.stego_key(), "");
    assert!(s.avatar().is_none());
    assert_eq!(s.key_tag().len(), 8);
    assert_eq!(s.public_key_hex().len(), 64);
    assert!(s.history().is_empty());
    assert!(s.online_users().is_empty());
    assert_eq!(s.begin_connect().unwrap_err(), "username not set");
    assert_eq!(s.begin_send().unwrap_err(), "not connected");
}

#[test]
fn new_session_from_stored_profile() {
    let secret = [5u8; 32];
    let s = ChatSession::new(Some(("carol".to_string(), Some("AAAA".to_string()), secret)));
    assert_eq!(s.username(), "carol");
    assert_eq!(s.avatar().as_deref(), Some("AAAA"));
    assert_eq!(s.secret_bytes(), secret);
    let again = ChatSession::new(Some(("x".to_string(), None, secret)));
    assert_eq!(again.key_tag(), s.key_tag());
    assert_eq!(again.public_key_hex(), s.public_key_hex());
}

#[test]
fn own_profile_is_listed() {
    let mut s = ChatSession::new(None);
    s.set_username("alice".to_string());
    let profiles = s.peer_profiles();
    assert_eq!(profiles.len(), 1);
    assert_eq!(profiles[0].name, "alice");
    assert_eq!(profiles[0].key_tag, s.key_tag());
    assert!(s.update_username("alicia".to_string()).is_none());
    let names: Vec<String> = s.peer_profiles().into_iter().map(|p: PeerProfile| p.name).collect();
    assert!(names.contains(&"alice".to_string()));
    assert!(names.contains(&"alicia".to_string()));
}

#[test]
fn connected_session_sends_profile_messages() {
    let mut s = connected("alice", "room");
    assert_eq!(s.stego_key(), "room");
    match s.update_username("al".to_string()) {
        Some(ClientMsg::SetProfile { key_tag, name, avatar }) => {
            assert_eq!(key_tag, s.key_tag());
            assert_eq!(name, "al");
            assert!(avatar.is_none());
        },
        _ => panic!("no profile message"),
    }
    match s.set_avatar_validated("QUJD".to_string()) {
        Some(ClientMsg::SetProfile { avatar, .. }) => assert_eq!(avatar.as_deref(), Some("QUJD")),
        _ => panic!("no profile message"),
    }
    s.set_encryption_key("other".to_string());
    assert_eq!(s.stego_key(), "other");
}

#[test]
fn recv_requires_a_connection_and_a_message() {
    let mut idle = ChatSession::new(None);
    assert_eq!(idle.recv(None, &no_chaos()).unwrap_err(), "not connected");
    let mut s = connected("alice", "room");
    assert_eq!(s.recv(None, &no_chaos()).unwrap_err(), "timeout");
    assert_eq!(s.recv(Some(Err("reset".to_string())), &no_chaos()).unwrap_err(), "reset");
    let welcome = Some(Ok(ServerMsg::Welcome { room_key: "k".to_string() }));
    assert_eq!(s.recv(welcome, &no_chaos()).unwrap_err(), "timeout");
    assert!(s.history().is_empty());
}

#[test]
fn recv_user_list_and_presence() {
    let mut s = connected("alice", "room");
    let users = Some(Ok(ServerMsg::UserList { users: vec!["alice".to_string(), "bob".to_string()] }));
    assert_eq!(s.recv(users, &no_chaos()).unwrap_err(), "timeout");
    assert_eq!(s.online_users().to_vec(), vec!["alice".to_string(), "bob".to_string()]);
    let joined = Some(Ok(ServerMsg::Joined { name: "bob".to_string(), online: 2 }));
    let m = s.recv(joined, &no_chaos()).unwrap();
    assert_eq!(m.sender, "system");
    assert_eq!(m.content, "bob joined (2 online)");
    assert!(!m.from_self);
    assert!(m.stego_image.is_none());
    let left = Some(Ok(ServerMsg::Left { name: "bob".to_string(), online: 1 }));
    assert_eq!(s.recv(left, &no_chaos()).unwrap().content, "bob left (1 online)");
    assert_eq!(s.history().len(), 2);
}

#[test]
fn recv_profile_updates_announce_changes() {
    let mut s = connected("alice", "room");
    assert_eq!(s.recv(profile_update("t1", "bob", None), &no_chaos()).unwrap_err(), "timeout");
    let m = s.recv(profile_update("t1", "bobby", None), &no_chaos()).unwrap();
    assert_eq!(m.content, "bob changed their name to bobby");
    let m = s.recv(profile_update("t1", "bobby", Some("QQ==")), &no_chaos()).unwrap();
    assert_eq!(m.content, "bobby updated their profile picture");
    let m = s.recv(profile_update("t1", "rob", Some("Qg==")), &no_chaos()).unwrap();
    assert_eq!(m.content, "bobby changed their name to rob and updated their profile picture");
    let own_tag = s.key_tag().to_string();
    assert_eq!(s.recv(profile_update(&own_tag, "alice", None), &no_chaos()).unwrap_err(), "timeout");
    assert_eq!(s.history().len(), 3);
    let names: Vec<String> = s.peer_profiles().into_iter().map(|p| p.name).collect();
    assert!(names.contains(&"rob".to_string()));
    assert!(names.contains(&"alice".to_string()));
}

#[test]
fn chat_message_roundtrip_between_sessions() {
    let sender = connected("alice", "room-key");
    let mut receiver = connected("bob", "room-key");
    let text = "hi bob";
    let chaos = chaos_for("room-key", text.len() + 16);
    let id = sender.begin_send().unwrap();
    let (msg, image) = sender.compose_chat(text, &id, Some("r1".to_string()), &chaos, &waves()).unwrap();
    let (metadata, sent_image) = match msg {
        ClientMsg::Chat { id: mid, reply_to, image, metadata } => {
            assert_eq!(mid, id);
            assert_eq!(reply_to.as_deref(), Some("r1"));
            (metadata, image)
        },
        _ => panic!("not a chat message"),
    };
    assert_eq!(sent_image, image);
    let incoming = Some(Ok(ServerMsg::Chat {
        sender: "alice".to_string(),
        id: id.clone(),
        reply_to: Some("r1".to_string()),
        image: image.clone(),
        metadata,
    }));
    let got = receiver.recv(incoming, &chaos).unwrap();
    assert_eq!(got.content, "hi bob");
    assert_eq!(got.sender, "alice");
    assert_eq!(got.id, id);
    assert_eq!(got.stego_image.as_deref(), Some(image.as_str()));
}

#[test]
fn chat_message_with_another_key_is_not_readable() {
    let sender = connected("alice", "key-one");
    let mut receiver = connected("bob", "key-two");
    let chaos = chaos_for("key-one", 3 + 16);
    let (msg, _) = sender.compose_chat("hey", "id1", None, &chaos, &waves()).unwrap();
    let (image, metadata) = match msg {
        ClientMsg::Chat { image, metadata, .. } => (image, metadata),
        _ => panic!("not a chat message"),
    };
    let other = chaos_for("key-two", 3 + 16);
    let incoming = Some(Ok(ServerMsg::Chat {
        sender: "alice".to_string(),
        id: "id1".to_string(),
        reply_to: None,
        image,
        metadata,
    }));
    assert_eq!(receiver.recv(incoming, &other).unwrap().content, "[could not decrypt]");
}

#[test]
fn sent_messages_are_recorded() {
    let mut s = connected("alice", "room");
    let m: ChatMessage = s.record_sent("id9".to_string(), "hello", None, "IMG".to_string());
    assert!(m.from_self);
    assert_eq!(m.sender, "alice");
    assert_eq!(m.content, "hello");
    assert_eq!(m.stego_image.as_deref(), Some("IMG"));
    assert_eq!(s.history().len(), 1);
    assert_eq!(s.history()[0].id, "id9");
}

#[test]
fn reconnect_needs_an_address_and_a_name() {
    let mut fresh = ChatSession::new(None);
    assert_eq!(fresh.begin_reconnect().unwrap_err(), "no server address stored");
    let mut s = connected("alice", "room");
    assert_eq!(s.begin_reconnect().unwrap(), "127.0.0.1:9000");
    assert_eq!(s.begin_send().unwrap_err(), "not connected");
    let msg = s.finish_reconnect();
    assert!(matches!(msg, ClientMsg::SetProfile { .. }));
    assert!(s.begin_send().is_ok());
}

#[test]
fn link_packet_roundtrip() {
    let text = b"over the peer link";
    let chaos = chaos_for("bubu2bubu-stego", text.len() + 16);
    let (image, metadata) = prepare_stego_image(text, &chaos, &waves()).unwrap();
    assert_eq!(decode_stego_packet(&image, &metadata, &chaos).unwrap(), text.to_vec());
    assert!(decode_stego_packet("***", &metadata, &chaos).is_err());
}
