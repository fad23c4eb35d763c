//! Chunked stego packets over the peer link.
use vstd::prelude::*;
use vstd::string::*;
use crate::codec::{base64_decode, base64_encode, spec_base64_decode, spec_base64_encode};
use crate::net::protocol::{be_to_u32, be_u32, u32_to_be};
use crate::stego::decoder::{decode, decode_result, decode_supported, lemma_stego_roundtrip, schedule_complete};
use crate::stego::embed::fib_table_fits;
use crate::stego::encoder::{
    carrier_bits, chaos_covers, encode, stego_outcome, waves_valid, ChaosInputs, NoiseWaves, StegoConfig,
    StegoMetadata,
};
use crate::crypto::primitives::aes_gcm_max_plaintext;

verus! {

/// What a peer link reports to its owner.
#[derive(Debug)]
pub enum PeerEvent {
    Connected,
    Message(Vec<u8>),
    Disconnected,
}

/// The largest chunk of a packet sealed in one Noise message.
pub const MAX_NOISE_PAYLOAD: usize = 65000;

/// The password of the stego layer on the peer link.
pub open spec fn link_password() -> Seq<u8> {
    "bubu2bubu-stego".spec_bytes()
}

/// The number of chunks of a packet of `len` bytes.
pub open spec fn chunk_count(len: nat) -> nat {
    ((len + MAX_NOISE_PAYLOAD - 1) / (MAX_NOISE_PAYLOAD as int)) as nat
}

/// Chunk `i` of a packet: bytes `65000 * i` up to the next 65000 or the end.
pub open spec fn chunk_at(packed: Seq<u8>, i: int) -> Seq<u8> {
    let start = MAX_NOISE_PAYLOAD * i;
    let end = if start + MAX_NOISE_PAYLOAD <= packed.len() {
        start + MAX_NOISE_PAYLOAD
    } else {
        packed.len() as int
    };
    packed.subrange(start, end)
}

/// A packet cut into chunks of 65000 bytes, the last one shorter.
pub open spec fn spec_chunks(packed: Seq<u8>) -> Seq<Seq<u8>> {
    Seq::new(chunk_count(packed.len()), |i: int| chunk_at(packed, i))
}

/// The header of a chunked packet announces the number of chunks, cut to
/// 32 bits, in big-endian order; the chunks follow.
pub fn split_packet(packed: &[u8]) -> (parts: ([u8; 4], Vec<Vec<u8>>))
    requires
        packed@.len() + MAX_NOISE_PAYLOAD <= usize::MAX,
    ensures
        be_u32(parts.0@) == chunk_count(packed@.len()) % 0x1_0000_0000,
        parts.1@.len() == chunk_count(packed@.len()),
        forall|i: int| 0 <= i < parts.1@.len() ==> (#[trigger] parts.1@[i])@ == chunk_at(packed@, i),
{
    let len: usize = packed.len();
    let count: usize = (len + MAX_NOISE_PAYLOAD - 1) / MAX_NOISE_PAYLOAD;
    let header: [u8; 4] = u32_to_be((count as u64 % 0x1_0000_0000u64) as u32);
    let mut chunks: Vec<Vec<u8>> = Vec::new();
    let mut i: usize = 0;
    while i < count
        invariant
            len == packed@.len(),
            len + MAX_NOISE_PAYLOAD <= usize::MAX,
            count == chunk_count(len as nat),
            i <= count,
            chunks@.len() == i,
            forall|k: int| 0 <= k < i ==> (#[trigger] chunks@[k])@ == chunk_at(packed@, k),
        decreases count - i,
    {
        assert(MAX_NOISE_PAYLOAD * i < len) by (nonlinear_arith)
            requires
                i < count,
                count == (len + MAX_NOISE_PAYLOAD - 1) / (MAX_NOISE_PAYLOAD as int),
        ;
        let start: usize = MAX_NOISE_PAYLOAD * i;
        let end: usize = if start + MAX_NOISE_PAYLOAD <= len {
            start + MAX_NOISE_PAYLOAD
        } else {
            len
        };
        let chunk: Vec<u8> = vstd::slice::slice_to_vec(vstd::slice::slice_subrange(packed, start, end));
        chunks.push(chunk);
        i = i + 1;
    }
    (header, chunks)
}

/// Cutting a packet into chunks loses nothing: each chunk holds 1 to 65000
/// bytes (so it fits one Noise message) and the chunks in order make up the
/// packet.
pub proof fn lemma_chunks_reassemble(packed: Seq<u8>)
    ensures
        spec_chunks(packed).flatten() == packed,
        forall|i: int|
            0 <= i < spec_chunks(packed).len() ==> 0 < (#[trigger] spec_chunks(packed)[i]).len()
                <= MAX_NOISE_PAYLOAD,
    decreases packed.len(),
{
    let chunks = spec_chunks(packed);
    if packed.len() == 0 {
        assert(chunks.len() == 0);
        assert(chunks.flatten() =~= Seq::<u8>::empty());
    } else if packed.len() <= MAX_NOISE_PAYLOAD {
        assert(chunks.len() == 1);
        assert(chunks[0] =~= packed);
        assert(chunks =~= seq![packed]);
        seq![packed].lemma_flatten_one_element();
    } else {
        let rest = packed.subrange(MAX_NOISE_PAYLOAD as int, packed.len() as int);
        lemma_chunks_reassemble(rest);
        let rc = spec_chunks(rest);
        assert(chunk_count(packed.len()) == chunk_count(rest.len()) + 1) by (nonlinear_arith)
            requires
                rest.len() + MAX_NOISE_PAYLOAD == packed.len(),
        ;
        assert(chunks.drop_first() =~= rc) by {
            assert forall|i: int| 0 <= i < rc.len() implies chunks.drop_first()[i] == rc[i] by {
                assert(chunks.drop_first()[i] =~= rc[i]);
            }
        }
        assert(chunks[0] =~= packed.subrange(0, MAX_NOISE_PAYLOAD as int));
        assert(chunks.flatten() == chunks[0] + chunks.drop_first().flatten());
        assert(packed =~= packed.subrange(0, MAX_NOISE_PAYLOAD as int) + rest);
        assert forall|i: int| 0 <= i < chunks.len() implies 0 < (#[trigger] chunks[i]).len()
            <= MAX_NOISE_PAYLOAD by {
            if i > 0 {
                assert(chunks[i] == rc[i - 1]);
            }
        }
    }
}

/// What reassembly hands on from a stream of opened messages, starting with
/// `remaining` chunks expected and `collected` bytes gathered: with no chunk
/// expected a message is a header (one shorter than four bytes ends the
/// stream), otherwise it is the next chunk; each finished packet is handed
/// on in turn.
pub open spec fn assembled(remaining: nat, collected: Seq<u8>, frames: Seq<Seq<u8>>) -> Seq<Seq<u8>>
    decreases frames.len(),
{
    if frames.len() == 0 {
        Seq::empty()
    } else {
        let f = frames[0];
        let rest = frames.drop_first();
        if remaining == 0 {
            if f.len() < 4 {
                Seq::empty()
            } else if be_u32(f) == 0 {
                seq![Seq::<u8>::empty()] + assembled(0, Seq::empty(), rest)
            } else {
                assembled(be_u32(f), Seq::empty(), rest)
            }
        } else if remaining == 1 {
            seq![collected + f] + assembled(0, Seq::empty(), rest)
        } else {
            assembled((remaining - 1) as nat, collected + f, rest)
        }
    }
}

/// The packet that a step hands on, if any.
pub open spec fn handed_on(step: Assembly) -> Seq<Seq<u8>> {
    match step {
        Assembly::Complete(p) => seq![p@],
        _ => Seq::empty(),
    }
}

/// One step of reassembly.
#[derive(Debug)]
pub enum Assembly {
    /// More chunks are expected.
    Pending,
    /// The packet is complete.
    Complete(Vec<u8>),
    /// The link failed; the receiver stops.
    Failed(String),
}

/// Reassembles packets from opened header and chunk messages.
pub struct PacketAssembler {
    remaining: u32,
    packed: Vec<u8>,
}

impl PacketAssembler {
    /// The chunks still expected for the current packet.
    pub closed spec fn remaining(&self) -> nat {
        self.remaining as nat
    }

    /// The bytes collected for the current packet.
    pub closed spec fn collected(&self) -> Seq<u8> {
        self.packed@
    }

    /// An assembler waiting for a header.
    pub fn new() -> (a: Self)
        ensures
            a.remaining() == 0,
            a.collected() == Seq::<u8>::empty(),
    {
        PacketAssembler { remaining: 0, packed: Vec::new() }
    }

    /// Takes the opened header of a packet: its first four bytes announce
    /// the number of chunks. A header that failed to open, or is shorter
    /// than four bytes, ends the link; a packet of no chunks is complete
    /// (and empty) at once.
    pub fn on_header(&mut self, header: Result<Vec<u8>, String>) -> (step: Assembly)
        ensures
            match header {
                Err(e) => (step matches Assembly::Failed(m) && m@ == "noise header: "@ + e@)
                    && final(self).remaining() == old(self).remaining()
                    && final(self).collected() == old(self).collected(),
                Ok(h) => if h@.len() < 4 {
                    (step matches Assembly::Failed(m) && m@ == "bad header"@)
                        && final(self).remaining() == old(self).remaining()
                        && final(self).collected() == old(self).collected()
                } else if be_u32(h@) == 0 {
                    (step matches Assembly::Complete(p) && p@.len() == 0) && final(self).remaining() == 0
                        && final(self).collected() == Seq::<u8>::empty()
                } else {
                    step is Pending && final(self).remaining() == be_u32(h@) && final(self).collected()
                        == Seq::<u8>::empty()
                },
            },
            header matches Ok(h) ==> (old(self).remaining() == 0 && h@.len() >= 4 ==> forall|
                rest: Seq<Seq<u8>>,
            |
                #[trigger] assembled(0, old(self).collected(), seq![h@] + rest) == handed_on(step) + assembled(
                    final(self).remaining(),
                    final(self).collected(),
                    rest,
                )),
    {
        proof {
            match &header {
                Ok(h) => {
                    assert forall|rest: Seq<Seq<u8>>| #[trigger] (seq![h@] + rest).drop_first() == rest by {
                        assert((seq![h@] + rest).drop_first() =~= rest);
                    }
                },
                Err(_) => {},
            }
        }
        match header {
            Err(e) => {
                let mut m: String = "noise header: ".to_owned();
                m.append(e.as_str());
                Assembly::Failed(m)
            },
            Ok(h) => {
                if h.len() < 4 {
                    return Assembly::Failed("bad header".to_owned());
                }
                let n: u32 = be_to_u32(h.as_slice());
                self.remaining = n;
                self.packed = Vec::new();
                if n == 0 {
                    Assembly::Complete(Vec::new())
                } else {
                    Assembly::Pending
                }
            },
        }
    }

    /// Takes the next opened chunk: its bytes join the packet, which is
    /// complete after the last announced chunk. A chunk that failed to open
    /// ends the link.
    pub fn on_chunk(&mut self, chunk: Result<Vec<u8>, String>) -> (step: Assembly)
        requires
            old(self).remaining() > 0,
        ensures
            match chunk {
                Err(e) => (step matches Assembly::Failed(m) && m@ == "noise chunk: "@ + e@)
                    && final(self).remaining() == old(self).remaining()
                    && final(self).collected() == old(self).collected(),
                Ok(c) => if old(self).remaining() == 1 {
                    (step matches Assembly::Complete(p) && p@ == old(self).collected() + c@)
                        && final(self).remaining() == 0 && final(self).collected() == Seq::<u8>::empty()
                } else {
                    step is Pending && final(self).remaining() == old(self).remaining() - 1
                        && final(self).collected() == old(self).collected() + c@
                },
            },
            chunk matches Ok(c) ==> forall|rest: Seq<Seq<u8>>|
                #[trigger] assembled(old(self).remaining(), old(self).collected(), seq![c@] + rest) == handed_on(
                    step,
                ) + assembled(final(self).remaining(), final(self).collected(), rest),
    {
        proof {
            match &chunk {
                Ok(c) => {
                    assert forall|rest: Seq<Seq<u8>>| #[trigger] (seq![c@] + rest).drop_first() == rest by {
                        assert((seq![c@] + rest).drop_first() =~= rest);
                    }
                },
                Err(_) => {},
            }
        }
        match chunk {
            Err(e) => {
                let mut m: String = "noise chunk: ".to_owned();
                m.append(e.as_str());
                Assembly::Failed(m)
            },
            Ok(mut c) => {
                self.packed.append(&mut c);
                self.remaining = self.remaining - 1;
                if self.remaining == 0 {
                    let mut done: Vec<u8> = Vec::new();
                    std::mem::swap(&mut done, &mut self.packed);
                    Assembly::Complete(done)
                } else {
                    Assembly::Pending
                }
            },
        }
    }
}

/// The default configuration of the stego layer.
pub open spec fn is_default_config(c: StegoConfig) -> bool {
    &&& c.aes_iterations == 100_000
    &&& c.xor_iterations == 50_000
    &&& c.chaos_iterations == 25_000
    &&& c.chaos_type@ == "logistic"@
    &&& c.position_method@ == "henon"@
    &&& c.channel_pattern@ == "fibonacci"@
    &&& c.bit_plane_ratio == 0x3FEB_3333_3333_3333
    &&& c.use_xor
    &&& c.use_shuffle
}

/// How the link's image message follows from the outcome of `encode`: the
/// PNG file in base64 with its metadata, or the same error.
pub open spec fn image_message(res: Result<(String, StegoMetadata), String>, inner: Result<(Vec<u8>, StegoMetadata), String>) -> bool {
    match inner {
        Ok((png, meta)) => res matches Ok((image, m)) && image@ == spec_base64_encode(png@) && m == meta,
        Err(e) => res matches Err(e2) && e2@ == e@,
    }
}

/// What hiding a message as an image message gives: `encode` under the
/// password with the default configuration, the PNG file in base64.
pub open spec fn image_outcome(
    res: Result<(String, StegoMetadata), String>,
    plaintext: Seq<u8>,
    password: Seq<u8>,
    chaos: ChaosInputs,
    waves: NoiseWaves,
) -> bool {
    exists|config: StegoConfig, inner: Result<(Vec<u8>, StegoMetadata), String>|
        #![trigger is_default_config(config), image_message(res, inner)]
        is_default_config(config) && image_message(res, inner) && (plaintext.len()
            <= aes_gcm_max_plaintext() ==> exists|nonce: Seq<u8>, noise_seed: u64|
            nonce.len() == 12 && #[trigger] stego_outcome(
                inner,
                plaintext,
                password,
                config,
                chaos,
                waves,
                nonce,
                noise_seed,
            )) && (plaintext.len() > aes_gcm_max_plaintext() ==> inner is Err)
}

/// Hides a message under a password: `encode` with the default
/// configuration, the PNG file in base64.
pub fn encode_stego_image(plaintext: &[u8], password: &str, chaos: &ChaosInputs, waves: &NoiseWaves) -> (res: Result<
    (String, StegoMetadata),
    String,
>)
    requires
        8 * (plaintext@.len() + 16) <= carrier_bits() ==> fib_table_fits(),
        waves_valid(*waves),
        8 * (plaintext@.len() + 16) <= usize::MAX,
        8 * (plaintext@.len() + 16) <= carrier_bits() ==> chaos_covers(*chaos, 8 * (plaintext@.len() + 16)),
    ensures
        image_outcome(res, plaintext@, password.spec_bytes(), *chaos, *waves),
{
    let config = StegoConfig::default();
    let inner = encode(plaintext, password, &config, chaos, waves);
    let ghost inner_g = inner;
    let res = match inner {
        Ok((png, meta)) => Ok((base64_encode(png.as_slice()), meta)),
        Err(e) => Err(e),
    };
    assert(is_default_config(config));
    assert(image_message(res, inner_g));
    assert(plaintext@.len() > aes_gcm_max_plaintext() ==> inner_g is Err);
    res
}

/// Hides a message for the peer link: `encode_stego_image` under the link
/// password.
pub fn prepare_stego_image(plaintext: &[u8], chaos: &ChaosInputs, waves: &NoiseWaves) -> (res: Result<
    (String, StegoMetadata),
    String,
>)
    requires
        8 * (plaintext@.len() + 16) <= carrier_bits() ==> fib_table_fits(),
        waves_valid(*waves),
        8 * (plaintext@.len() + 16) <= usize::MAX,
        8 * (plaintext@.len() + 16) <= carrier_bits() ==> chaos_covers(*chaos, 8 * (plaintext@.len() + 16)),
    ensures
        image_outcome(res, plaintext@, link_password(), *chaos, *waves),
{
    proof {
        reveal_strlit("bubu2bubu-stego");
    }
    encode_stego_image(plaintext, "bubu2bubu-stego", chaos, waves)
}

/// What recovering a message from its image in base64 gives: nothing when
/// the base64 does not decode, otherwise what `decode` gives for the file;
/// base64 of a PNG file gives exactly what `decode` gives for that file.
pub open spec fn stego_decode_result(
    res: Result<Vec<u8>, String>,
    image: Seq<char>,
    meta: StegoMetadata,
    password: Seq<u8>,
    chaos: ChaosInputs,
) -> bool {
    &&& match spec_base64_decode(image) {
        None => res is Err,
        Some(png) => decode_result(res, png, password, meta, chaos),
    }
    &&& forall|png: Seq<u8>|
        image == #[trigger] spec_base64_encode(png) ==> decode_result(res, png, password, meta, chaos)
}

/// Recovers a message from its image in base64 and its metadata under a
/// password: base64 decoding, then `decode`.
pub fn decode_stego(image: &str, metadata: &StegoMetadata, password: &str, chaos: &ChaosInputs) -> (res: Result<
    Vec<u8>,
    String,
>)
    requires
        decode_supported(*metadata, *chaos),
    ensures
        stego_decode_result(res, image@, *metadata, password.spec_bytes(), *chaos),
{
    let png = match base64_decode(image) {
        Ok(v) => v,
        Err(e) => {
            return Err(e);
        },
    };
    decode(png.as_slice(), password, metadata, chaos)
}

/// Recovers a message of the peer link: `decode_stego` under the link
/// password.
pub fn decode_stego_packet(image: &str, metadata: &StegoMetadata, chaos: &ChaosInputs) -> (res: Result<
    Vec<u8>,
    String,
>)
    requires
        decode_supported(*metadata, *chaos),
    ensures
        stego_decode_result(res, image@, *metadata, link_password(), *chaos),
{
    proof {
        reveal_strlit("bubu2bubu-stego");
    }
    decode_stego(image, metadata, "bubu2bubu-stego", chaos)
}

/// An image message read back gives the message: for what
/// `encode_stego_image` gave for `data` under a password and what
/// `decode_stego` gives for that image and metadata under the same password
/// and chaos inputs, the result is `data`, whenever the position method finds
/// a cell for every bit.
pub proof fn lemma_image_message_roundtrip(
    res: Result<(String, StegoMetadata), String>,
    dec: Result<Vec<u8>, String>,
    data: Seq<u8>,
    password: Seq<u8>,
    chaos: ChaosInputs,
    waves: NoiseWaves,
)
    requires
        image_outcome(res, data, password, chaos, waves),
        data.len() <= aes_gcm_max_plaintext(),
        res is Ok,
        stego_decode_result(dec, res->Ok_0.0@, res->Ok_0.1, password, chaos),
        schedule_complete(password, res->Ok_0.1, chaos),
    ensures
        dec matches Ok(v) && v@ == data,
{
    let (config, inner) = choose|config: StegoConfig, inner: Result<(Vec<u8>, StegoMetadata), String>|
        #![trigger is_default_config(config), image_message(res, inner)]
        is_default_config(config) && image_message(res, inner) && (data.len() <= aes_gcm_max_plaintext()
            ==> exists|nonce: Seq<u8>, noise_seed: u64|
            nonce.len() == 12 && #[trigger] stego_outcome(
                inner,
                data,
                password,
                config,
                chaos,
                waves,
                nonce,
                noise_seed,
            )) && (data.len() > aes_gcm_max_plaintext() ==> inner is Err);
    let (nonce, noise_seed) = choose|nonce: Seq<u8>, noise_seed: u64|
        nonce.len() == 12 && #[trigger] stego_outcome(inner, data, password, config, chaos, waves, nonce, noise_seed);
    assert(inner is Ok);
    let png = inner->Ok_0.0@;
    assert(res->Ok_0.0@ == spec_base64_encode(png));
    assert(decode_result(dec, png, password, res->Ok_0.1, chaos));
    lemma_stego_roundtrip(inner, dec, data, password, config, chaos, waves, nonce, noise_seed);
}


/// The opened messages that sending packets gives, in order: for each, its
/// header and then its chunks.
pub open spec fn sent_frames(headers: Seq<Seq<u8>>, packets: Seq<Seq<u8>>) -> Seq<Seq<u8>>
    decreases packets.len(),
{
    if packets.len() == 0 || headers.len() == 0 {
        Seq::empty()
    } else {
        seq![headers[0]] + spec_chunks(packets[0]) + sent_frames(headers.drop_first(), packets.drop_first())
    }
}

/// Feeding all the chunks that a packet still expects completes it with the
/// bytes gathered so far and every chunk's bytes.
proof fn lemma_assemble_chunks(chunks: Seq<Seq<u8>>, collected: Seq<u8>, rest: Seq<Seq<u8>>)
    requires
        chunks.len() >= 1,
    ensures
        assembled(chunks.len(), collected, chunks + rest) == seq![collected + chunks.flatten()] + assembled(
            0,
            Seq::empty(),
            rest,
        ),
    decreases chunks.len(),
{
    let all = chunks + rest;
    assert(all[0] == chunks[0]);
    assert(all.drop_first() =~= chunks.drop_first() + rest);
    if chunks.len() == 1 {
        assert(chunks.drop_first() =~= Seq::<Seq<u8>>::empty());
        assert(chunks.drop_first().flatten() =~= Seq::<u8>::empty());
        assert(chunks.flatten() =~= chunks[0]);
        assert(all.drop_first() =~= rest);
    } else {
        lemma_assemble_chunks(chunks.drop_first(), collected + chunks[0], rest);
        assert(collected + chunks[0] + chunks.drop_first().flatten() =~= collected + chunks.flatten());
    }
}

/// A header announcing a packet's chunks, followed by the chunks, hands on
/// exactly that packet.
proof fn lemma_assemble_packet(header: Seq<u8>, packed: Seq<u8>, collected: Seq<u8>, rest: Seq<Seq<u8>>)
    requires
        header.len() == 4,
        be_u32(header) == chunk_count(packed.len()),
    ensures
        assembled(0, collected, seq![header] + spec_chunks(packed) + rest) == seq![packed] + assembled(
            0,
            Seq::empty(),
            rest,
        ),
{
    let chunks = spec_chunks(packed);
    let all = seq![header] + chunks + rest;
    assert(all[0] == header);
    assert(all.drop_first() =~= chunks + rest);
    lemma_chunks_reassemble(packed);
    if be_u32(header) == 0 {
        assert(packed.len() == 0) by {
            if packed.len() > 0 {
                assert(chunk_count(packed.len()) >= 1) by (nonlinear_arith)
                    requires
                        packed.len() > 0,
                ;
            }
        }
        assert(chunks.len() == 0);
        assert(chunks + rest =~= rest);
        assert(packed =~= Seq::<u8>::empty());
    } else {
        lemma_assemble_chunks(chunks, Seq::empty(), rest);
        assert(Seq::<u8>::empty() + chunks.flatten() =~= packed);
    }
}

/// The link delivers packets in the order they were sent, each exactly once:
/// reassembling the headers and chunks of packets sent one after another
/// hands on those packets, in order.
pub proof fn lemma_packets_in_order(headers: Seq<Seq<u8>>, packets: Seq<Seq<u8>>)
    requires
        headers.len() == packets.len(),
        forall|i: int|
            0 <= i < packets.len() ==> (#[trigger] headers[i]).len() == 4 && be_u32(headers[i]) == chunk_count(
                packets[i].len(),
            ),
    ensures
        assembled(0, Seq::empty(), sent_frames(headers, packets)) == packets,
    decreases packets.len(),
{
    if packets.len() == 0 {
        assert(packets =~= Seq::<Seq<u8>>::empty());
    } else {
        let hs = headers.drop_first();
        let ps = packets.drop_first();
        assert forall|i: int| 0 <= i < ps.len() implies (#[trigger] hs[i]).len() == 4 && be_u32(hs[i])
            == chunk_count(ps[i].len()) by {
            assert(hs[i] == headers[i + 1]);
            assert(ps[i] == packets[i + 1]);
        }
        lemma_packets_in_order(hs, ps);
        assert(headers[0].len() == 4 && be_u32(headers[0]) == chunk_count(packets[0].len()));
        lemma_assemble_packet(headers[0], packets[0], Seq::empty(), sent_frames(hs, ps));
        assert(seq![packets[0]] + ps =~= packets);
    }
}

} // verus!
