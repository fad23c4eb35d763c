//! Messages between a chat client and the room server.
use vstd::prelude::*;
use crate::stego::encoder::StegoMetadata;

verus! {

/// What a client sends to the server.
#[derive(Debug)]
pub enum ClientMsg {
    Join { name: String },
    Chat { id: String, reply_to: Option<String>, image: String, metadata: StegoMetadata },
    SetProfile { key_tag: String, name: String, avatar: Option<String> },
}

/// What the server sends to a client.
#[derive(Debug)]
pub enum ServerMsg {
    Welcome { room_key: String },
    Joined { name: String, online: usize },
    Left { name: String, online: usize },
    Chat { sender: String, id: String, reply_to: Option<String>, image: String, metadata: StegoMetadata },
    UserList { users: Vec<String> },
    ProfileUpdate { key_tag: String, name: String, avatar: Option<String> },
}

} // verus!
