//! The state of a chat session: identity, room key, history, online users
//! and the profiles of peers, and how server messages change it.
use vstd::prelude::*;
use vstd::string::*;
use vstd::utf8::{decode_utf8, encode_utf8, encode_utf8_decode_utf8, encode_utf8_valid_utf8, valid_utf8};
use crate::chat::profile::{clone_opt_string, compute_key_tag, opt_view, spec_key_tag, PeerProfile};
use crate::codec::{hex_digit, hex_encode, spec_hex_encode};
use crate::crypto::keys::KeyPair;
use crate::crypto::primitives::spec_x25519_public;
use crate::protocol::{ClientMsg, ServerMsg};
use crate::stego::encoder::StegoMetadata;
use crate::crypto::primitives::random_u32;
use crate::net::peer::{decode_stego, encode_stego_image, image_outcome, stego_decode_result};
use crate::stego::embed::fib_table_fits;
use crate::stego::encoder::{carrier_bits, chaos_covers, waves_valid, NoiseWaves};
use crate::stego::decoder::{decode_supported, schedule_complete};
use crate::crypto::primitives::aes_gcm_max_plaintext;
use crate::net::peer::lemma_image_message_roundtrip;
use crate::stego::encoder::ChaosInputs;
use crate::text::{push_decimal, spec_decimal, str_equals, utf8_decode};

verus! {

/// The text of a profile: key tag, name and avatar.
pub type ProfileParts = (Seq<char>, Seq<char>, Option<Seq<char>>);

/// A profile filed under a name.
pub type ProfileEntry = (Seq<char>, ProfileParts);

/// The text of a chat message: id, sender, content, whether it is one's
/// own, timestamp, the id it replies to and its image.
pub type MessageParts = (Seq<char>, Seq<char>, Seq<char>, bool, u64, Option<Seq<char>>, Option<Seq<char>>);

/// A message of the chat history.
#[derive(Debug)]
pub struct ChatMessage {
    pub id: String,
    pub sender: String,
    pub content: String,
    pub from_self: bool,
    pub timestamp: u64,
    pub reply_to: Option<String>,
    pub stego_image: Option<String>,
}

impl ChatMessage {
    /// The message's text and flags.
    pub open spec fn view_parts(self) -> MessageParts {
        (
            self.id@,
            self.sender@,
            self.content@,
            self.from_self,
            self.timestamp,
            opt_view(self.reply_to),
            opt_view(self.stego_image),
        )
    }

    /// A copy with the same text and flags.
    pub fn duplicate(&self) -> (m: ChatMessage)
        ensures
            m.view_parts() == self.view_parts(),
    {
        ChatMessage {
            id: self.id.clone(),
            sender: self.sender.clone(),
            content: self.content.clone(),
            from_self: self.from_self,
            timestamp: self.timestamp,
            reply_to: clone_opt_string(&self.reply_to),
            stego_image: clone_opt_string(&self.stego_image),
        }
    }
}

/// The text of a list of messages.
pub open spec fn messages_view(v: Seq<ChatMessage>) -> Seq<MessageParts> {
    Seq::new(v.len(), |i: int| v[i].view_parts())
}

/// The text of a list of strings.
pub open spec fn strings_view(v: Seq<String>) -> Seq<Seq<char>> {
    Seq::new(v.len(), |i: int| v[i]@)
}

/// The text of a list of filed profiles.
pub open spec fn entries_view(v: Seq<(String, PeerProfile)>) -> Seq<ProfileEntry> {
    Seq::new(v.len(), |i: int| (v[i].0@, v[i].1.view_parts()))
}

/// The first entry at or after `i` filed under `key`.
pub open spec fn find_key_from(ps: Seq<ProfileEntry>, key: Seq<char>, i: int) -> Option<int>
    decreases ps.len() - i,
{
    if i < 0 || i >= ps.len() {
        None
    } else if ps[i].0 == key {
        Some(i)
    } else {
        find_key_from(ps, key, i + 1)
    }
}

/// Files a profile under a name, replacing the one filed there.
pub open spec fn profiles_insert(ps: Seq<ProfileEntry>, key: Seq<char>, p: ProfileParts) -> Seq<ProfileEntry> {
    match find_key_from(ps, key, 0) {
        Some(k) => ps.update(k, (key, p)),
        None => ps.push((key, p)),
    }
}

/// No two profiles are filed under one name.
pub open spec fn keys_distinct(ps: Seq<ProfileEntry>) -> bool {
    forall|i: int, j: int| 0 <= i < j < ps.len() ==> ps[i].0 != ps[j].0
}

/// The profiles filed, as a map from name to profile.
pub open spec fn profile_map(ps: Seq<ProfileEntry>) -> Map<Seq<char>, ProfileParts> {
    Map::new(|k: Seq<char>| exists|i: int| 0 <= i < ps.len() && ps[i].0 == k, |k: Seq<char>| ps[find_key_from(ps, k, 0)->0].1)
}

proof fn lemma_find_key(ps: Seq<ProfileEntry>, key: Seq<char>, i: int)
    requires
        0 <= i <= ps.len(),
    ensures
        match find_key_from(ps, key, i) {
            Some(k) => i <= k < ps.len() && ps[k].0 == key && forall|j: int| i <= j < k ==> ps[j].0 != key,
            None => forall|j: int| i <= j < ps.len() ==> ps[j].0 != key,
        },
    decreases ps.len() - i,
{
    if i < ps.len() && ps[i].0 != key {
        lemma_find_key(ps, key, i + 1);
    }
}

/// Filing a profile keeps names distinct and files exactly that profile
/// under the name, leaving the others as they were.
pub proof fn lemma_profiles_insert(ps: Seq<ProfileEntry>, key: Seq<char>, p: ProfileParts)
    requires
        keys_distinct(ps),
    ensures
        keys_distinct(profiles_insert(ps, key, p)),
        profile_map(profiles_insert(ps, key, p)) == profile_map(ps).insert(key, p),
{
    lemma_find_key(ps, key, 0);
    let qs = profiles_insert(ps, key, p);
    assert forall|k: Seq<char>| #[trigger] profile_map(qs).dom().contains(k) == profile_map(ps).insert(key, p).dom().contains(k) by {
        if k != key {
            if exists|i: int| 0 <= i < ps.len() && ps[i].0 == k {
                let i = choose|i: int| 0 <= i < ps.len() && ps[i].0 == k;
                assert(qs[i].0 == k);
            }
            if exists|i: int| 0 <= i < qs.len() && qs[i].0 == k {
                let i = choose|i: int| 0 <= i < qs.len() && qs[i].0 == k;
                assert(ps[i].0 == k);
            }
        } else {
            match find_key_from(ps, key, 0) {
                Some(j) => assert(qs[j].0 == k),
                None => assert(qs[ps.len() as int].0 == k),
            }
        }
    }
    assert forall|k: Seq<char>| #[trigger] profile_map(qs).dom().contains(k) implies profile_map(qs)[k] == profile_map(ps).insert(key, p)[k] by {
        lemma_find_key(qs, k, 0);
        lemma_find_key(ps, k, 0);
        if k != key {
            let i = find_key_from(qs, k, 0)->0;
            let j = find_key_from(ps, k, 0)->0;
            assert(ps[i].0 == k);
            if i != j {
                if i < j {
                    assert(ps[i].0 != k);
                } else {
                    assert(qs[j].0 == k);
                }
            }
        } else {
            let i = find_key_from(qs, k, 0)->0;
            match find_key_from(ps, key, 0) {
                Some(j) => {
                    if i != j {
                        assert(qs[i].0 != key || i == j);
                    }
                },
                None => {
                    assert(qs[i].0 == key);
                },
            }
        }
    }
    assert(profile_map(qs) =~= profile_map(ps).insert(key, p));
}

/// Files a profile under a name, replacing the one filed there.
fn insert_profile(profiles: &mut Vec<(String, PeerProfile)>, key: String, p: PeerProfile)
    requires
        keys_distinct(entries_view(old(profiles)@)),
    ensures
        entries_view(final(profiles)@) == profiles_insert(entries_view(old(profiles)@), key@, p.view_parts()),
        keys_distinct(entries_view(final(profiles)@)),
{
    let ghost ps = entries_view(profiles@);
    proof {
        lemma_profiles_insert(ps, key@, p.view_parts());
        lemma_find_key(ps, key@, 0);
    }
    let mut i: usize = 0;
    while i < profiles.len()
        invariant
            ps == entries_view(profiles@),
            ps == entries_view(old(profiles)@),
            keys_distinct(ps),
            keys_distinct(profiles_insert(ps, key@, p.view_parts())),
            i <= profiles@.len(),
            forall|j: int| 0 <= j < i ==> ps[j].0 != key@,
        decreases profiles@.len() - i,
    {
        if str_equals(profiles[i].0.as_str(), key.as_str()) {
            proof {
                lemma_find_key(ps, key@, i as int);
                assert(find_key_from(ps, key@, 0) == Some(i as int)) by {
                    lemma_find_key(ps, key@, 0);
                    match find_key_from(ps, key@, 0) {
                        Some(k) => {
                            if k != i {
                                assert(ps[i as int].0 == key@);
                            }
                        },
                        None => {
                            assert(ps[i as int].0 == key@);
                        },
                    }
                }
            }
            let ghost kv = key@;
            let ghost pv = p.view_parts();
            profiles.set(i, (key, p));
            assert(entries_view(profiles@) =~= ps.update(i as int, (kv, pv)));
            return;
        }
        i = i + 1;
    }
    let ghost kv = key@;
    let ghost pv = p.view_parts();
    profiles.push((key, p));
    assert(entries_view(profiles@) =~= ps.push((kv, pv)));
}

/// Filing the same profile twice changes nothing the second time.
proof fn lemma_insert_twice(ps: Seq<ProfileEntry>, key: Seq<char>, p: ProfileParts)
    requires
        keys_distinct(ps),
    ensures
        profiles_insert(profiles_insert(ps, key, p), key, p) == profiles_insert(ps, key, p),
{
    lemma_profiles_insert(ps, key, p);
    let qs = profiles_insert(ps, key, p);
    lemma_find_key(ps, key, 0);
    lemma_find_key(qs, key, 0);
    let j = match find_key_from(ps, key, 0) {
        Some(k) => k,
        None => ps.len() as int,
    };
    assert(qs[j] == (key, p));
    match find_key_from(qs, key, 0) {
        Some(i) => {
            if i != j {
                assert(qs[i].0 == key && qs[j].0 == key);
            }
            assert(qs.update(i, (key, p)) =~= qs);
        },
        None => {
            assert(qs[j].0 == key);
        },
    }
}

/// `SystemTime::now().duration_since(UNIX_EPOCH)` in whole seconds, or
/// `None` when the machine's clock is set before the epoch. Nothing is
/// stated of the value: it is the machine's clock.
#[verifier::external_body]
fn clock_secs() -> (secs: Option<u64>) {
    match std::time::SystemTime::now().duration_since(std::time::UNIX_EPOCH) {
        Ok(d) => Some(d.as_secs()),
        Err(_) => None,
    }
}

/// `SystemTime::now().duration_since(UNIX_EPOCH)` in milliseconds, or
/// `None` when the machine's clock is set before the epoch. Nothing is
/// stated of the value.
#[verifier::external_body]
fn clock_millis() -> (millis: Option<u128>) {
    match std::time::SystemTime::now().duration_since(std::time::UNIX_EPOCH) {
        Ok(d) => Some(d.as_millis()),
        Err(_) => None,
    }
}

/// The current time in whole seconds since the Unix epoch; 0 when the clock
/// is set before the epoch.
pub fn now_secs() -> (secs: u64) {
    match clock_secs() {
        Some(s) => s,
        None => 0,
    }
}

/// The current time in milliseconds since the Unix epoch; 0 when the clock
/// is set before the epoch.
fn now_millis() -> (millis: u128) {
    match clock_millis() {
        Some(m) => m,
        None => 0,
    }
}

/// The lowest `digits` hexadecimal digits of `n`, lowercase, zero-padded.
pub open spec fn spec_hex_pad(n: nat, digits: nat) -> Seq<char>
    decreases digits,
{
    if digits == 0 {
        Seq::empty()
    } else {
        spec_hex_pad(n / 16, (digits - 1) as nat).push(hex_digit((n % 16) as u8))
    }
}

fn hex_digit_str(d: u32) -> (s: &'static str)
    requires
        d < 16,
    ensures
        s@ == seq![hex_digit(d as u8)],
{
    proof {
        reveal_strlit("0");
        reveal_strlit("1");
        reveal_strlit("2");
        reveal_strlit("3");
        reveal_strlit("4");
        reveal_strlit("5");
        reveal_strlit("6");
        reveal_strlit("7");
        reveal_strlit("8");
        reveal_strlit("9");
        reveal_strlit("a");
        reveal_strlit("b");
        reveal_strlit("c");
        reveal_strlit("d");
        reveal_strlit("e");
        reveal_strlit("f");
    }
    if d == 0 {
        "0"
    } else if d == 1 {
        "1"
    } else if d == 2 {
        "2"
    } else if d == 3 {
        "3"
    } else if d == 4 {
        "4"
    } else if d == 5 {
        "5"
    } else if d == 6 {
        "6"
    } else if d == 7 {
        "7"
    } else if d == 8 {
        "8"
    } else if d == 9 {
        "9"
    } else if d == 10 {
        "a"
    } else if d == 11 {
        "b"
    } else if d == 12 {
        "c"
    } else if d == 13 {
        "d"
    } else if d == 14 {
        "e"
    } else {
        "f"
    }
}

fn push_hex_pad(s: &mut String, n: u32, digits: u32)
    ensures
        final(s)@ == old(s)@ + spec_hex_pad(n as nat, digits as nat),
    decreases digits,
{
    if digits > 0 {
        push_hex_pad(s, n / 16, digits - 1);
        s.append(hex_digit_str(n % 16));
        assert(final(s)@ =~= old(s)@ + spec_hex_pad(n as nat, digits as nat));
    } else {
        assert(final(s)@ =~= old(s)@ + spec_hex_pad(n as nat, digits as nat));
    }
}

/// A message id: the time in milliseconds, a dash and eight hexadecimal
/// digits of a random number.
pub open spec fn spec_message_id(millis: nat, r: u32) -> Seq<char> {
    spec_decimal(millis) + "-"@ + spec_hex_pad(r as nat, 8)
}

/// The id of a message from the time in milliseconds and a random number.
pub fn format_message_id(millis: u128, r: u32) -> (id: String)
    ensures
        id@ == spec_message_id(millis as nat, r),
{
    let mut id: String = String::new();
    push_decimal(&mut id, millis);
    id.append("-");
    push_hex_pad(&mut id, r, 8);
    assert(id@ =~= spec_message_id(millis as nat, r));
    id
}

/// A fresh message id from the clock and the thread-local generator.
pub fn generate_id() -> (id: String)
    ensures
        exists|millis: u128, r: u32| id@ == spec_message_id(millis as nat, r),
{
    let millis: u128 = now_millis();
    let r: u32 = random_u32();
    format_message_id(millis, r)
}

/// What a chat session holds, as text.
pub struct SessionView {
    pub user: Seq<char>,
    pub avatar: Option<Seq<char>>,
    pub tag: Seq<char>,
    pub room_key: Seq<char>,
    pub server: Seq<char>,
    pub connected: bool,
    pub history: Seq<MessageParts>,
    pub users: Seq<Seq<char>>,
    pub profiles: Seq<ProfileEntry>,
    pub secret: Seq<u8>,
    pub public: Seq<u8>,
}

/// The profile of the session's own user.
pub open spec fn own_profile(v: SessionView) -> ProfileParts {
    (v.tag, v.user, v.avatar)
}

/// The profile message for the server: the own key tag, name and avatar.
pub open spec fn is_profile_msg(msg: ClientMsg, v: SessionView) -> bool {
    msg matches ClientMsg::SetProfile { key_tag, name, avatar } && key_tag@ == v.tag && name@ == v.user
        && opt_view(avatar) == v.avatar
}

/// The placeholder for a chat message that does not open.
pub open spec fn undecryptable() -> Seq<char> {
    "[could not decrypt]"@
}

/// The content of a chat message from what decoding gave: the text when
/// the payload opened and is UTF-8, else the placeholder.
pub open spec fn chat_text(r: Result<Vec<u8>, String>) -> Seq<char> {
    match r {
        Ok(p) => if valid_utf8(p@) {
            decode_utf8(p@)
        } else {
            undecryptable()
        },
        Err(_) => undecryptable(),
    }
}

/// A chat message that arrives can be decoded with the chaos inputs.
pub open spec fn incoming_supported(incoming: Option<Result<ServerMsg, String>>, chaos: ChaosInputs) -> bool {
    incoming matches Some(Ok(ServerMsg::Chat { metadata, .. })) ==> decode_supported(metadata, chaos)
}

/// The first profile at or after `i` that carries key tag `tag`.
pub open spec fn find_tag_from(ps: Seq<ProfileEntry>, tag: Seq<char>, i: int) -> Option<int>
    decreases ps.len() - i,
{
    if i < 0 || i >= ps.len() {
        None
    } else if ps[i].1.0 == tag {
        Some(i)
    } else {
        find_tag_from(ps, tag, i + 1)
    }
}

/// The note that a peer took a new name.
pub open spec fn name_change_note(name: Seq<char>) -> Seq<char> {
    "changed their name to "@ + name
}

/// The note that a peer changed their avatar.
pub open spec fn avatar_change_note() -> Seq<char> {
    "updated their profile picture"@
}

/// What a profile update changes of the known profile with its key tag.
pub open spec fn profile_changes(
    ps: Seq<ProfileEntry>,
    tag: Seq<char>,
    name: Seq<char>,
    avatar: Option<Seq<char>>,
) -> Seq<Seq<char>> {
    match find_tag_from(ps, tag, 0) {
        Some(i) => (if ps[i].1.1 != name {
            seq![name_change_note(name)]
        } else {
            Seq::empty()
        }) + (if ps[i].1.2 != avatar {
            seq![avatar_change_note()]
        } else {
            Seq::empty()
        }),
        None => Seq::empty(),
    }
}

/// The name under which a profile update is announced: the known
/// profile's name, or the new one for an unknown key tag.
pub open spec fn profile_display(ps: Seq<ProfileEntry>, tag: Seq<char>, name: Seq<char>) -> Seq<char> {
    match find_tag_from(ps, tag, 0) {
        Some(i) => ps[i].1.1,
        None => name,
    }
}

/// The profiles after an update: the new profile is filed under the new
/// name and, when the known profile had another name, under that name too.
pub open spec fn profiles_after_update(
    ps: Seq<ProfileEntry>,
    tag: Seq<char>,
    name: Seq<char>,
    avatar: Option<Seq<char>>,
) -> Seq<ProfileEntry> {
    let p = (tag, name, avatar);
    let first = match find_tag_from(ps, tag, 0) {
        Some(i) => if ps[i].1.1 != name {
            profiles_insert(ps, ps[i].1.1, p)
        } else {
            ps
        },
        None => ps,
    };
    profiles_insert(first, name, p)
}

/// The announcement of profile changes: the name, then the changes joined
/// with " and ".
pub open spec fn update_text(display: Seq<char>, changes: Seq<Seq<char>>) -> Seq<char> {
    if changes.len() == 1 {
        display + " "@ + changes[0]
    } else {
        display + " "@ + changes[0] + " and "@ + changes[1]
    }
}

/// A message of the system: fresh id, sender "system", the text, no reply
/// and no image.
pub open spec fn is_system_msg(m: ChatMessage, text: Seq<char>) -> bool {
    &&& m.sender@ == "system"@
    &&& m.content@ == text
    &&& !m.from_self
    &&& m.reply_to is None
    &&& m.stego_image is None
    &&& exists|millis: u128, r: u32| m.id@ == spec_message_id(millis as nat, r)
}

/// A message that joins the history.
pub open spec fn recorded(res: Result<ChatMessage, String>, before: SessionView, after: SessionView) -> bool {
    res matches Ok(m) && after == (SessionView { history: before.history.push(m.view_parts()), ..before })
}

/// The announcement that a user joined or left.
pub open spec fn presence_text(name: Seq<char>, verb: Seq<char>, online: nat) -> Seq<char> {
    name + " "@ + verb + " ("@ + spec_decimal(online) + " online)"@
}

/// What a server message does to a connected session and what `recv` gives.
/// A chat message is opened with the room key; when it is the image message
/// that hiding some text under the same key gave, the text is what is shown.
pub open spec fn recv_outcome(
    msg: ServerMsg,
    before: SessionView,
    after: SessionView,
    res: Result<ChatMessage, String>,
    chaos: ChaosInputs,
) -> bool {
    match msg {
        ServerMsg::Welcome { .. } => (res matches Err(e) && e@ == "timeout"@) && after == before,
        ServerMsg::UserList { users } => (res matches Err(e) && e@ == "timeout"@) && after == (SessionView {
            users: strings_view(users@),
            ..before
        }),
        ServerMsg::ProfileUpdate { key_tag, name, avatar } => if key_tag@ == before.tag && name@ == before.user {
            (res matches Err(e) && e@ == "timeout"@) && after == before
        } else {
            let changes = profile_changes(before.profiles, key_tag@, name@, opt_view(avatar));
            let mid = SessionView {
                profiles: profiles_after_update(before.profiles, key_tag@, name@, opt_view(avatar)),
                ..before
            };
            if changes.len() == 0 {
                (res matches Err(e) && e@ == "timeout"@) && after == mid
            } else {
                recorded(res, mid, after) && (res matches Ok(m) && is_system_msg(
                    m,
                    update_text(profile_display(before.profiles, key_tag@, name@), changes),
                ))
            }
        },
        ServerMsg::Chat { sender, id, reply_to, image, metadata } => recorded(res, before, after) && (res matches Ok(
            m,
        ) && m.id@ == id@ && m.sender@ == sender@ && !m.from_self && opt_view(m.reply_to) == opt_view(
            reply_to,
        ) && opt_view(m.stego_image) == Some(image@) && (exists|r: Result<Vec<u8>, String>|
            stego_decode_result(r, image@, metadata, encode_utf8(before.room_key), chaos) && m.content@
                == #[trigger] chat_text(r)) && forall|
            text: Seq<char>,
            sent: Result<(String, StegoMetadata), String>,
            waves: NoiseWaves,
        |
            #[trigger] image_outcome(sent, encode_utf8(text), encode_utf8(before.room_key), chaos, waves)
                && sent == Ok::<(String, StegoMetadata), String>((image, metadata)) && encode_utf8(text).len()
                <= aes_gcm_max_plaintext() && schedule_complete(encode_utf8(before.room_key), metadata, chaos)
                ==> m.content@ == text),
        ServerMsg::Joined { name, online } => recorded(res, before, after) && (res matches Ok(m) && is_system_msg(
            m,
            presence_text(name@, "joined"@, online as nat),
        )),
        ServerMsg::Left { name, online } => recorded(res, before, after) && (res matches Ok(m) && is_system_msg(
            m,
            presence_text(name@, "left"@, online as nat),
        )),
    }
}

proof fn lemma_find_tag(ps: Seq<ProfileEntry>, tag: Seq<char>, i: int)
    requires
        0 <= i <= ps.len(),
    ensures
        match find_tag_from(ps, tag, i) {
            Some(k) => i <= k < ps.len() && ps[k].1.0 == tag && forall|j: int| i <= j < k ==> ps[j].1.0 != tag,
            None => forall|j: int| i <= j < ps.len() ==> ps[j].1.0 != tag,
        },
    decreases ps.len() - i,
{
    if i < ps.len() && ps[i].1.0 != tag {
        lemma_find_tag(ps, tag, i + 1);
    }
}

fn opt_string_equals(a: &Option<String>, b: &Option<String>) -> (r: bool)
    ensures
        r == (opt_view(*a) == opt_view(*b)),
{
    match (a, b) {
        (Some(x), Some(y)) => str_equals(x.as_str(), y.as_str()),
        (None, None) => true,
        _ => false,
    }
}

fn system_message(content: String) -> (m: ChatMessage)
    ensures
        is_system_msg(m, content@),
{
    proof {
        reveal_strlit("system");
    }
    ChatMessage {
        id: generate_id(),
        sender: "system".to_owned(),
        content,
        from_self: false,
        timestamp: now_secs(),
        reply_to: None,
        stego_image: None,
    }
}

fn presence_message(name: &str, verb: &str, online: usize) -> (text: String)
    ensures
        text@ == presence_text(name@, verb@, online as nat),
{
    let mut text: String = name.to_owned();
    text.append(" ");
    text.append(verb);
    text.append(" (");
    push_decimal(&mut text, online as u128);
    text.append(" online)");
    assert(text@ =~= presence_text(name@, verb@, online as nat));
    text
}

/// A user's chat session with the room server.
pub struct ChatSession {
    keypair: KeyPair,
    username: String,
    avatar: Option<String>,
    key_tag: String,
    stego_key: String,
    server_addr: String,
    connected: bool,
    messages: Vec<ChatMessage>,
    online_users: Vec<String>,
    peer_profiles: Vec<(String, PeerProfile)>,
}

impl View for ChatSession {
    type V = SessionView;

    closed spec fn view(&self) -> SessionView {
        SessionView {
            user: self.username@,
            avatar: opt_view(self.avatar),
            tag: self.key_tag@,
            room_key: self.stego_key@,
            server: self.server_addr@,
            connected: self.connected,
            history: messages_view(self.messages@),
            users: strings_view(self.online_users@),
            profiles: entries_view(self.peer_profiles@),
            secret: self.keypair.secret_key(),
            public: self.keypair.public_key(),
        }
    }
}

impl ChatSession {
    /// The session's invariant: names of profiles are distinct, the key
    /// pair is consistent and the key tag is that of the public key.
    pub closed spec fn wf(&self) -> bool {
        &&& keys_distinct(entries_view(self.peer_profiles@))
        &&& self.keypair.wf()
        &&& self.keypair.public_key() == spec_x25519_public(self.keypair.secret_key())
        &&& self.key_tag@ == spec_key_tag(self.keypair.public_key())
    }

    /// A session for a stored profile (name, avatar and secret key) or, with
    /// none, for a fresh key pair and no name. It is not connected and holds
    /// no history, users or profiles.
    pub fn new(loaded: Option<(String, Option<String>, [u8; 32])>) -> (s: Self)
        ensures
            s.wf(),
            s@.public == spec_x25519_public(s@.secret),
            s@.public.len() == 32,
            s@.secret.len() == 32,
            s@.tag == spec_key_tag(s@.public),
            match loaded {
                Some((name, avatar, secret)) => s@.user == name@ && s@.avatar == opt_view(avatar) && s@.secret
                    == secret@,
                None => s@.user.len() == 0 && s@.avatar is None,
            },
            s@.room_key.len() == 0,
            s@.server.len() == 0,
            !s@.connected,
            s@.history.len() == 0,
            s@.users.len() == 0,
            s@.profiles.len() == 0,
    {
        let (keypair, username, avatar) = match loaded {
            Some((name, avatar, secret)) => (KeyPair::from_secret_bytes(secret), name, avatar),
            None => (KeyPair::generate(), String::new(), None),
        };
        let public = keypair.public_bytes();
        let key_tag = compute_key_tag(&public);
        let s = ChatSession {
            keypair,
            username,
            avatar,
            key_tag,
            stego_key: String::new(),
            server_addr: String::new(),
            connected: false,
            messages: Vec::new(),
            online_users: Vec::new(),
            peer_profiles: Vec::new(),
        };
        assert(messages_view(s.messages@) =~= Seq::<MessageParts>::empty());
        assert(strings_view(s.online_users@) =~= Seq::<Seq<char>>::empty());
        assert(entries_view(s.peer_profiles@) =~= Seq::<ProfileEntry>::empty());
        s
    }

    fn update_own_peer_profile(&mut self)
        requires
            old(self).wf(),
        ensures
            final(self).wf(),
            final(self)@ == (SessionView {
                profiles: profiles_insert(old(self)@.profiles, old(self)@.user, own_profile(old(self)@)),
                ..old(self)@
            }),
    {
        let own = PeerProfile {
            key_tag: self.key_tag.clone(),
            name: self.username.clone(),
            avatar: clone_opt_string(&self.avatar),
        };
        insert_profile(&mut self.peer_profiles, self.username.clone(), own);
    }

    fn profile_message(&mut self) -> (msg: ClientMsg)
        requires
            old(self).wf(),
        ensures
            final(self).wf(),
            final(self)@ == (SessionView {
                profiles: profiles_insert(old(self)@.profiles, old(self)@.user, own_profile(old(self)@)),
                ..old(self)@
            }),
            is_profile_msg(msg, old(self)@),
    {
        self.update_own_peer_profile();
        ClientMsg::SetProfile {
            key_tag: self.key_tag.clone(),
            name: self.username.clone(),
            avatar: clone_opt_string(&self.avatar),
        }
    }

    /// Sets the user's name and files the own profile under it.
    pub fn set_username(&mut self, name: String)
        requires
            old(self).wf(),
        ensures
            final(self).wf(),
            final(self)@ == (SessionView {
                user: name@,
                profiles: profiles_insert(
                    old(self)@.profiles,
                    name@,
                    (old(self)@.tag, name@, old(self)@.avatar),
                ),
                ..old(self)@
            }),
    {
        self.username = name;
        self.update_own_peer_profile();
    }

    /// As `set_username`; while connected, the profile message for the
    /// server is the result.
    pub fn update_username(&mut self, name: String) -> (msg: Option<ClientMsg>)
        requires
            old(self).wf(),
        ensures
            final(self).wf(),
            final(self)@ == (SessionView {
                user: name@,
                profiles: profiles_insert(
                    old(self)@.profiles,
                    name@,
                    (old(self)@.tag, name@, old(self)@.avatar),
                ),
                ..old(self)@
            }),
            old(self)@.connected ==> (msg matches Some(m) && is_profile_msg(m, final(self)@)),
            !old(self)@.connected ==> msg is None,
    {
        self.username = name;
        self.update_own_peer_profile();
        if self.connected {
            proof {
                lemma_insert_twice(
                    entries_view(old(self).peer_profiles@),
                    self.username@,
                    own_profile(self@),
                );
            }
            Some(self.profile_message())
        } else {
            None
        }
    }

    /// The user's name.
    pub fn username(&self) -> (name: &str)
        ensures
            name@ == self@.user,
    {
        self.username.as_str()
    }

    /// The key that hides chat messages.
    pub fn stego_key(&self) -> (key: &str)
        ensures
            key@ == self@.room_key,
    {
        self.stego_key.as_str()
    }

    /// Replaces the key that hides chat messages.
    pub fn set_encryption_key(&mut self, key: String)
        requires
            old(self).wf(),
        ensures
            final(self).wf(),
            final(self)@ == (SessionView { room_key: key@, ..old(self)@ }),
    {
        self.stego_key = key;
    }

    /// The public key in hexadecimal.
    pub fn public_key_hex(&self) -> (hex: String)
        ensures
            hex@ == spec_hex_encode(self@.public),
            hex@.len() == 64,
    {
        hex_encode(&self.keypair.public_bytes())
    }

    /// The tag of the public key.
    pub fn key_tag(&self) -> (tag: &str)
        ensures
            tag@ == self@.tag,
    {
        self.key_tag.as_str()
    }

    /// The user's avatar.
    pub fn avatar(&self) -> (avatar: &Option<String>)
        ensures
            opt_view(*avatar) == self@.avatar,
    {
        &self.avatar
    }

    /// The secret key, as a stored profile keeps it.
    pub fn secret_bytes(&self) -> (secret: [u8; 32])
        ensures
            secret@ == self@.secret,
    {
        self.keypair.to_secret_bytes()
    }

    /// Sets a checked avatar and files the own profile; while connected, the
    /// profile message for the server is the result.
    pub fn set_avatar_validated(&mut self, sanitized: String) -> (msg: Option<ClientMsg>)
        requires
            old(self).wf(),
        ensures
            final(self).wf(),
            final(self)@ == (SessionView {
                avatar: Some(sanitized@),
                profiles: profiles_insert(
                    old(self)@.profiles,
                    old(self)@.user,
                    (old(self)@.tag, old(self)@.user, Some(sanitized@)),
                ),
                ..old(self)@
            }),
            old(self)@.connected ==> (msg matches Some(m) && is_profile_msg(m, final(self)@)),
            !old(self)@.connected ==> msg is None,
    {
        self.avatar = Some(sanitized);
        self.update_own_peer_profile();
        if self.connected {
            proof {
                lemma_insert_twice(
                    entries_view(old(self).peer_profiles@),
                    self.username@,
                    own_profile(self@),
                );
            }
            Some(self.profile_message())
        } else {
            None
        }
    }

    /// The users online, as the server last listed them.
    pub fn online_users(&self) -> (users: &[String])
        ensures
            strings_view(users@) == self@.users,
    {
        self.online_users.as_slice()
    }

    /// The profiles of the room, the own one filed under the own name.
    pub fn peer_profiles(&self) -> (profiles: Vec<PeerProfile>)
        requires
            self.wf(),
        ensures
            ({
                let all = profiles_insert(self@.profiles, self@.user, own_profile(self@));
                &&& profiles@.len() == all.len()
                &&& forall|i: int| 0 <= i < all.len() ==> (#[trigger] profiles@[i]).view_parts() == all[i].1
            }),
    {
        let mut copy: Vec<(String, PeerProfile)> = Vec::new();
        let mut i: usize = 0;
        while i < self.peer_profiles.len()
            invariant
                i <= self.peer_profiles@.len(),
                entries_view(copy@) == entries_view(self.peer_profiles@).take(i as int),
            decreases self.peer_profiles@.len() - i,
        {
            let key: String = self.peer_profiles[i].0.clone();
            let p: PeerProfile = self.peer_profiles[i].1.duplicate();
            let ghost entry = (key@, p.view_parts());
            assert(entry == entries_view(self.peer_profiles@)[i as int]);
            let ghost before = entries_view(copy@);
            copy.push((key, p));
            assert(entries_view(copy@) =~= before.push(entry));
            assert(entries_view(copy@) =~= entries_view(self.peer_profiles@).take(i + 1));
            i = i + 1;
        }
        assert(entries_view(self.peer_profiles@).take(i as int) =~= entries_view(self.peer_profiles@));
        let own = PeerProfile {
            key_tag: self.key_tag.clone(),
            name: self.username.clone(),
            avatar: clone_opt_string(&self.avatar),
        };
        insert_profile(&mut copy, self.username.clone(), own);
        let ghost all = entries_view(copy@);
        let mut result: Vec<PeerProfile> = Vec::new();
        let mut k: usize = 0;
        while k < copy.len()
            invariant
                k <= copy@.len(),
                all == entries_view(copy@),
                result@.len() == k,
                forall|j: int| 0 <= j < k ==> (#[trigger] result@[j]).view_parts() == all[j].1,
            decreases copy@.len() - k,
        {
            result.push(copy[k].1.duplicate());
            k = k + 1;
        }
        result
    }

    /// The chat history.
    pub fn history(&self) -> (messages: &[ChatMessage])
        ensures
            messages_view(messages@) == self@.history,
    {
        self.messages.as_slice()
    }

    /// Whether the session can connect: it needs a user name.
    pub fn begin_connect(&self) -> (res: Result<(), String>)
        ensures
            self@.user.len() == 0 ==> (res matches Err(e) && e@ == "username not set"@),
            self@.user.len() > 0 ==> res is Ok,
    {
        if self.username.as_str().unicode_len() == 0 {
            return Err("username not set".to_owned());
        }
        Ok(())
    }

    /// Takes a new server connection: the address and the room key it gave
    /// are kept, the lists are emptied and the own profile is filed; the
    /// profile message for the server is the result.
    pub fn finish_connect(&mut self, addr: &str, room_key: String) -> (msg: ClientMsg)
        requires
            old(self).wf(),
        ensures
            final(self).wf(),
            final(self)@ == (SessionView {
                server: addr@,
                room_key: room_key@,
                connected: true,
                users: Seq::empty(),
                profiles: seq![(old(self)@.user, own_profile(old(self)@))],
                ..old(self)@
            }),
            is_profile_msg(msg, final(self)@),
    {
        self.server_addr = addr.to_owned();
        self.stego_key = room_key;
        self.connected = true;
        self.online_users = Vec::new();
        self.peer_profiles = Vec::new();
        assert(entries_view(self.peer_profiles@) =~= Seq::<ProfileEntry>::empty());
        let msg = self.profile_message();
        assert(profiles_insert(Seq::<ProfileEntry>::empty(), self@.user, own_profile(self@)) =~= seq![(self@.user, own_profile(self@))]);
        assert(strings_view(self.online_users@) =~= Seq::<Seq<char>>::empty());
        msg
    }

    /// Prepares a reconnection to the stored server: it needs an address
    /// and a user name; the connection is dropped and the lists emptied, and
    /// the address is the result.
    pub fn begin_reconnect(&mut self) -> (res: Result<String, String>)
        requires
            old(self).wf(),
        ensures
            final(self).wf(),
            old(self)@.server.len() == 0 ==> (res matches Err(e) && e@ == "no server address stored"@)
                && final(self)@ == old(self)@,
            old(self)@.server.len() > 0 && old(self)@.user.len() == 0 ==> (res matches Err(e) && e@
                == "username not set"@) && final(self)@ == old(self)@,
            old(self)@.server.len() > 0 && old(self)@.user.len() > 0 ==> (res matches Ok(a) && a@
                == old(self)@.server) && final(self)@ == (SessionView {
                connected: false,
                users: Seq::empty(),
                profiles: Seq::empty(),
                ..old(self)@
            }),
    {
        if self.server_addr.as_str().unicode_len() == 0 {
            return Err("no server address stored".to_owned());
        }
        if self.username.as_str().unicode_len() == 0 {
            return Err("username not set".to_owned());
        }
        self.connected = false;
        self.online_users = Vec::new();
        self.peer_profiles = Vec::new();
        assert(entries_view(self.peer_profiles@) =~= Seq::<ProfileEntry>::empty());
        assert(strings_view(self.online_users@) =~= Seq::<Seq<char>>::empty());
        Ok(self.server_addr.clone())
    }

    /// Takes the renewed connection: the own profile is filed and the
    /// profile message for the server is the result.
    pub fn finish_reconnect(&mut self) -> (msg: ClientMsg)
        requires
            old(self).wf(),
        ensures
            final(self).wf(),
            final(self)@ == (SessionView {
                connected: true,
                profiles: profiles_insert(old(self)@.profiles, old(self)@.user, own_profile(old(self)@)),
                ..old(self)@
            }),
            is_profile_msg(msg, final(self)@),
    {
        self.connected = true;
        self.profile_message()
    }

    /// Whether a message can be sent: the session must be connected; the
    /// result is the new message's id.
    pub fn begin_send(&self) -> (res: Result<String, String>)
        ensures
            !self@.connected ==> (res matches Err(e) && e@ == "not connected"@),
            self@.connected ==> (res matches Ok(id) && exists|millis: u128, r: u32| id@ == spec_message_id(millis as nat, r)),
    {
        if !self.connected {
            return Err("not connected".to_owned());
        }
        Ok(generate_id())
    }

    /// The chat message for the server that carries `text`, hidden under
    /// the room key, and its image: `encode_stego_image` of the text.
    pub fn compose_chat(
        &self,
        text: &str,
        id: &str,
        reply_to: Option<String>,
        chaos: &ChaosInputs,
        waves: &NoiseWaves,
    ) -> (res: Result<(ClientMsg, String), String>)
        requires
            8 * (text.spec_bytes().len() + 16) <= carrier_bits() ==> fib_table_fits(),
            waves_valid(*waves),
            8 * (text.spec_bytes().len() + 16) <= usize::MAX,
            8 * (text.spec_bytes().len() + 16) <= carrier_bits() ==> chaos_covers(
                *chaos,
                8 * (text.spec_bytes().len() + 16),
            ),
        ensures
            exists|image: Result<(String, StegoMetadata), String>|
                #[trigger] image_outcome(image, text.spec_bytes(), encode_utf8(self@.room_key), *chaos, *waves)
                    && match image {
                    Ok((img, meta)) => res matches Ok((msg, shown)) && shown@ == img@ && (msg matches ClientMsg::Chat {
                        id: mid,
                        reply_to: r,
                        image: mimg,
                        metadata: m,
                    } && mid@ == id@ && opt_view(r) == opt_view(reply_to) && mimg@ == img@ && m == meta),
                    Err(e) => res matches Err(e2) && e2@ == e@,
                },
    {
        let bytes: &[u8] = text.as_bytes();
        let key: &str = self.stego_key.as_str();
        assert(key.spec_bytes() == encode_utf8(self@.room_key));
        let image = encode_stego_image(bytes, key, chaos, waves);
        let ghost image_g = image;
        assert(image_outcome(image_g, text.spec_bytes(), encode_utf8(self@.room_key), *chaos, *waves));
        match image {
            Ok((img, meta)) => {
                let shown: String = img.clone();
                Ok((ClientMsg::Chat { id: id.to_owned(), reply_to, image: img, metadata: meta }, shown))
            },
            Err(e) => Err(e),
        }
    }

    /// Records a sent message in the history: own, from the user, with its
    /// image; the recorded message is the result.
    pub fn record_sent(&mut self, id: String, text: &str, reply_to: Option<String>, stego_image: String) -> (msg: ChatMessage)
        requires
            old(self).wf(),
        ensures
            final(self).wf(),
            msg.id@ == id@,
            msg.sender@ == old(self)@.user,
            msg.content@ == text@,
            msg.from_self,
            opt_view(msg.reply_to) == opt_view(reply_to),
            opt_view(msg.stego_image) == Some(stego_image@),
            final(self)@ == (SessionView { history: old(self)@.history.push(msg.view_parts()), ..old(self)@ }),
    {
        let msg = ChatMessage {
            id,
            sender: self.username.clone(),
            content: text.to_owned(),
            from_self: true,
            timestamp: now_secs(),
            reply_to,
            stego_image: Some(stego_image),
        };
        self.messages.push(msg.duplicate());
        assert(messages_view(self.messages@) =~= old(self)@.history.push(msg.view_parts()));
        msg
    }
    /// Applies a profile update from a peer: files the new profile (also
    /// under the known name when the name changed) and gives the
    /// announcement of what changed, if anything did.
    fn apply_profile_update(&mut self, key_tag: String, name: String, avatar: Option<String>) -> (text: Option<String>)
        requires
            old(self).wf(),
        ensures
            final(self).wf(),
            final(self)@ == (SessionView {
                profiles: profiles_after_update(old(self)@.profiles, key_tag@, name@, opt_view(avatar)),
                ..old(self)@
            }),
            ({
                let changes = profile_changes(old(self)@.profiles, key_tag@, name@, opt_view(avatar));
                if changes.len() == 0 {
                    text is None
                } else {
                    text matches Some(t) && t@ == update_text(
                        profile_display(old(self)@.profiles, key_tag@, name@),
                        changes,
                    )
                }
            }),
    {
        let ghost ps = entries_view(self.peer_profiles@);
        let ghost p = (key_tag@, name@, opt_view(avatar));
        proof {
            lemma_find_tag(ps, key_tag@, 0);
        }
        let mut found: Option<usize> = None;
        let mut i: usize = 0;
        while i < self.peer_profiles.len()
            invariant_except_break
                found is None,
            invariant
                ps == entries_view(self.peer_profiles@),
                i <= self.peer_profiles@.len(),
                forall|j: int| 0 <= j < i ==> ps[j].1.0 != key_tag@,
            ensures
                ps == entries_view(self.peer_profiles@),
                match found {
                    Some(k) => k < ps.len() && ps[k as int].1.0 == key_tag@ && forall|j: int|
                        0 <= j < k ==> ps[j].1.0 != key_tag@,
                    None => forall|j: int| 0 <= j < ps.len() ==> ps[j].1.0 != key_tag@,
                },
            decreases self.peer_profiles@.len() - i,
        {
            if str_equals(self.peer_profiles[i].1.key_tag.as_str(), key_tag.as_str()) {
                found = Some(i);
                break;
            }
            i = i + 1;
        }
        proof {
            match found {
                Some(k) => {
                    lemma_find_tag(ps, key_tag@, 0);
                    match find_tag_from(ps, key_tag@, 0) {
                        Some(f) => {
                            if f != k {
                                assert(ps[k as int].1.0 == key_tag@);
                            }
                        },
                        None => {
                            assert(ps[k as int].1.0 == key_tag@);
                        },
                    }
                },
                None => {},
            }
        }
        let mut name_note: Option<String> = None;
        let mut avatar_note: bool = false;
        let mut display: String = name.clone();
        match found {
            Some(k) => {
                let existing_name: String = self.peer_profiles[k].1.name.clone();
                let name_changed: bool = !str_equals(existing_name.as_str(), name.as_str());
                avatar_note = !opt_string_equals(&self.peer_profiles[k].1.avatar, &avatar);
                if name_changed {
                    let mut note: String = "changed their name to ".to_owned();
                    note.append(name.as_str());
                    name_note = Some(note);
                    let moved = PeerProfile {
                        key_tag: key_tag.clone(),
                        name: name.clone(),
                        avatar: clone_opt_string(&avatar),
                    };
                    insert_profile(&mut self.peer_profiles, existing_name.clone(), moved);
                }
                display = existing_name;
            },
            None => {},
        }
        let ghost first = entries_view(self.peer_profiles@);
        proof {
            lemma_profiles_insert(ps, p.1, p);
            match found {
                Some(k) => {
                    lemma_profiles_insert(ps, ps[k as int].1.1, p);
                },
                None => {},
            }
        }
        let newest = PeerProfile { key_tag, name: name.clone(), avatar };
        insert_profile(&mut self.peer_profiles, name, newest);
        let ghost changes = profile_changes(ps, p.0, p.1, p.2);
        match name_note {
            Some(note) => {
                let mut text: String = display;
                text.append(" ");
                text.append(note.as_str());
                if avatar_note {
                    text.append(" and ");
                    text.append("updated their profile picture");
                }
                proof {
                    reveal_strlit("updated their profile picture");
                }
                assert(text@ =~= update_text(profile_display(ps, p.0, p.1), changes));
                Some(text)
            },
            None => {
                if avatar_note {
                    let mut text: String = display;
                    text.append(" ");
                    text.append("updated their profile picture");
                    assert(changes =~= seq![avatar_change_note()]);
                    assert(text@ =~= update_text(profile_display(ps, p.0, p.1), changes));
                    Some(text)
                } else {
                    assert(changes =~= Seq::<Seq<char>>::empty());
                    None
                }
            },
        }
    }

    /// Takes what arrived from the server (nothing, an error or a message)
    /// and updates the session as `recv_outcome` says: the user list is
    /// replaced, profile updates are filed and announced when something
    /// changed, chat messages are opened with the room key, and presence is
    /// announced. A new history message is the result; nothing to show is
    /// "timeout".
    pub fn recv(&mut self, incoming: Option<Result<ServerMsg, String>>, chaos: &ChaosInputs) -> (res: Result<
        ChatMessage,
        String,
    >)
        requires
            old(self).wf(),
            incoming_supported(incoming, *chaos),
        ensures
            final(self).wf(),
            !old(self)@.connected ==> (res matches Err(e) && e@ == "not connected"@) && final(self)@ == old(
                self,
            )@,
            old(self)@.connected ==> match incoming {
                None => (res matches Err(e) && e@ == "timeout"@) && final(self)@ == old(self)@,
                Some(Err(e)) => (res matches Err(r) && r@ == e@) && final(self)@ == old(self)@,
                Some(Ok(msg)) => recv_outcome(msg, old(self)@, final(self)@, res, *chaos),
            },
            res matches Ok(m) ==> final(self)@.history == old(self)@.history.push(m.view_parts()),
            res is Err ==> final(self)@.history == old(self)@.history,
            incoming matches Some(Ok(ServerMsg::ProfileUpdate { key_tag, name, avatar })) ==> (old(self)@.connected
                && key_tag@ != old(self)@.tag ==> profile_map(final(self)@.profiles).contains_key(name@)
                && profile_map(final(self)@.profiles)[name@] == (key_tag@, name@, opt_view(avatar))),
    {
        let ghost inc = incoming;
        let ghost before = self@;
        let res = self.handle_incoming(incoming, chaos);
        proof {
            match inc {
                Some(Ok(ServerMsg::ProfileUpdate { key_tag, name, avatar })) => {
                    if before.connected && key_tag@ != before.tag {
                        lemma_peer_profile_update_filed(before, self@, res, *chaos, key_tag, name, avatar);
                    }
                },
                _ => {},
            }
        }
        res
    }

    fn handle_incoming(&mut self, incoming: Option<Result<ServerMsg, String>>, chaos: &ChaosInputs) -> (res: Result<
        ChatMessage,
        String,
    >)
        requires
            old(self).wf(),
            incoming_supported(incoming, *chaos),
        ensures
            final(self).wf(),
            !old(self)@.connected ==> (res matches Err(e) && e@ == "not connected"@) && final(self)@ == old(
                self,
            )@,
            old(self)@.connected ==> match incoming {
                None => (res matches Err(e) && e@ == "timeout"@) && final(self)@ == old(self)@,
                Some(Err(e)) => (res matches Err(r) && r@ == e@) && final(self)@ == old(self)@,
                Some(Ok(msg)) => recv_outcome(msg, old(self)@, final(self)@, res, *chaos),
            },
            res matches Ok(m) ==> final(self)@.history == old(self)@.history.push(m.view_parts()),
            res is Err ==> final(self)@.history == old(self)@.history,
    {
        if !self.connected {
            return Err("not connected".to_owned());
        }
        let server_msg = match incoming {
            None => {
                return Err("timeout".to_owned());
            },
            Some(Err(e)) => {
                return Err(e);
            },
            Some(Ok(m)) => m,
        };
        let ghost before = self@;
        let msg = match server_msg {
            ServerMsg::Welcome { .. } => {
                return Err("timeout".to_owned());
            },
            ServerMsg::UserList { users } => {
                self.online_users = users;
                return Err("timeout".to_owned());
            },
            ServerMsg::ProfileUpdate { key_tag, name, avatar } => {
                if str_equals(key_tag.as_str(), self.key_tag.as_str()) && str_equals(
                    name.as_str(),
                    self.username.as_str(),
                ) {
                    return Err("timeout".to_owned());
                }
                match self.apply_profile_update(key_tag, name, avatar) {
                    Some(text) => system_message(text),
                    None => {
                        return Err("timeout".to_owned());
                    },
                }
            },
            ServerMsg::Chat { sender, id, reply_to, image, metadata } => {
                let ghost key = encode_utf8(self@.room_key);
                let decoded = decode_stego(image.as_str(), &metadata, self.stego_key.as_str(), chaos);
                let ghost r = decoded;
                proof {
                    reveal_strlit("[could not decrypt]");
                }
                let content: String = match decoded {
                    Ok(plaintext) => {
                        let ghost pt = plaintext@;
                        match utf8_decode(plaintext) {
                            Some(text) => {
                                assert forall|t: Seq<char>| (r matches Ok(v) && v@ == #[trigger] encode_utf8(t)) implies text@
                                    == t by {
                                    assert(pt == encode_utf8(t));
                                    encode_utf8_decode_utf8(t);
                                }
                                text
                            },
                            None => {
                                assert forall|t: Seq<char>| !(r matches Ok(v) && v@ == #[trigger] encode_utf8(t)) by {
                                    encode_utf8_valid_utf8(t);
                                    assert(pt != encode_utf8(t));
                                }
                                "[could not decrypt]".to_owned()
                            },
                        }
                    },
                    Err(_) => "[could not decrypt]".to_owned(),
                };
                assert(content@ == chat_text(r));
                assert(forall|t: Seq<char>| (r matches Ok(v) && v@ == #[trigger] encode_utf8(t)) ==> content@ == t);
                proof {
                    assert forall|text: Seq<char>, sent: Result<(String, StegoMetadata), String>, waves: NoiseWaves|
                        #[trigger] image_outcome(sent, encode_utf8(text), key, *chaos, waves) && sent == Ok::<
                            (String, StegoMetadata),
                            String,
                        >((image, metadata)) && encode_utf8(text).len() <= aes_gcm_max_plaintext()
                            && schedule_complete(key, metadata, *chaos) implies content@ == text by {
                        lemma_image_message_roundtrip(sent, r, encode_utf8(text), key, *chaos, waves);
                    }
                }
                ChatMessage {
                    id,
                    sender,
                    content,
                    from_self: false,
                    timestamp: now_secs(),
                    reply_to,
                    stego_image: Some(image),
                }
            },
            ServerMsg::Joined { name, online } => system_message(presence_message(name.as_str(), "joined", online)),
            ServerMsg::Left { name, online } => system_message(presence_message(name.as_str(), "left", online)),
        };
        let ghost mid = self@;
        self.messages.push(msg.duplicate());
        assert(messages_view(self.messages@) =~= mid.history.push(msg.view_parts()));
        Ok(msg)
    }
}


/// A profile update from another user (a key tag other than the session's
/// own) is always filed, whatever name it carries: afterwards the profile
/// filed under the update's name is the update's key tag, name and avatar.
/// When the first known profile with that key tag had another name, the
/// change is announced.
pub proof fn lemma_peer_profile_update_filed(
    before: SessionView,
    after: SessionView,
    res: Result<ChatMessage, String>,
    chaos: ChaosInputs,
    key_tag: String,
    name: String,
    avatar: Option<String>,
)
    requires
        keys_distinct(before.profiles),
        key_tag@ != before.tag,
        recv_outcome(ServerMsg::ProfileUpdate { key_tag, name, avatar }, before, after, res, chaos),
    ensures
        profile_map(after.profiles).contains_key(name@),
        profile_map(after.profiles)[name@] == (key_tag@, name@, opt_view(avatar)),
        forall|i: int|
            0 <= i < before.profiles.len() && (#[trigger] before.profiles[i]).1.0 == key_tag@ && before.profiles[i].1.1
                != name@ && (forall|j: int| 0 <= j < i ==> before.profiles[j].1.0 != key_tag@) ==> res is Ok,
{
    let ps = before.profiles;
    let tag = key_tag@;
    let p = (tag, name@, opt_view(avatar));
    lemma_find_tag(ps, tag, 0);
    let first = match find_tag_from(ps, tag, 0) {
        Some(i) => if ps[i].1.1 != name@ {
            profiles_insert(ps, ps[i].1.1, p)
        } else {
            ps
        },
        None => ps,
    };
    match find_tag_from(ps, tag, 0) {
        Some(i) => {
            if ps[i].1.1 != name@ {
                lemma_profiles_insert(ps, ps[i].1.1, p);
            }
        },
        None => {},
    }
    lemma_profiles_insert(first, name@, p);
    assert(profiles_after_update(ps, tag, name@, opt_view(avatar)) == profiles_insert(first, name@, p));
    assert(after.profiles == profiles_after_update(ps, tag, name@, opt_view(avatar)));
    assert forall|i: int|
        0 <= i < ps.len() && (#[trigger] ps[i]).1.0 == tag && ps[i].1.1 != name@ && (forall|j: int|
            0 <= j < i ==> ps[j].1.0 != tag) implies res is Ok by {
        match find_tag_from(ps, tag, 0) {
            Some(k) => {
                if k < i {
                    assert(ps[k].1.0 == tag);
                } else if k > i {
                    assert(ps[i].1.0 != tag);
                }
                assert(profile_changes(ps, tag, name@, opt_view(avatar)).len() > 0);
            },
            None => {
                assert(ps[i].1.0 != tag);
            },
        }
    }
}

/// An update of one's own profile (the session's key tag and name) shows
/// nothing and changes nothing.
pub proof fn lemma_own_profile_update_skipped(
    before: SessionView,
    after: SessionView,
    res: Result<ChatMessage, String>,
    chaos: ChaosInputs,
    key_tag: String,
    name: String,
    avatar: Option<String>,
)
    requires
        key_tag@ == before.tag,
        name@ == before.user,
        recv_outcome(ServerMsg::ProfileUpdate { key_tag, name, avatar }, before, after, res, chaos),
    ensures
        after == before,
        res matches Err(e) && e@ == "timeout"@,
{
}

} // verus!
