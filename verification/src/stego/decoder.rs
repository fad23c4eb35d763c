//! Recovering a hidden payload from a carrier image.
use vstd::prelude::*;
use vstd::string::*;
use crate::codec::{hex_decode, lemma_hex_roundtrip, spec_hex_decode};
use crate::crypto::aes::{
    decrypt_aes, derive_keys, lemma_xor_involution, spec_derive_keys, spec_xor_cipher, xor_cipher,
};
use crate::crypto::primitives::{aes_gcm_max_plaintext, spec_aes256gcm_decrypt, spec_aes256gcm_encrypt};
use crate::stego::bits::{
    bits_to_bytes, lemma_bits_are_bits, lemma_bits_roundtrip, packed_len, spec_bits_to_bytes, spec_bytes_to_bits,
};
use crate::stego::chaos::{chaotic_shuffle, lemma_shuffle_roundtrip, spec_chaotic_shuffle};
use crate::stego::embed::{extract_bit, fib_table_fits, fib_table_fits_check, get_channel};
use crate::stego::encoder::{
    bit_sample, carrier_bits, chaos_covers, extract_prefix, lemma_embed_prefix_len, lemma_extract_after_embed,
    meta_matches, min_nat, spec_noise_pixels, spec_scramble, stego_outcome, stego_pixels, stego_positions,
    ChaosInputs, NoiseWaves, StegoConfig, StegoMetadata, NOISE_SIDE,
};
use crate::stego::png::{decode_png, spec_png_decode, spec_png_encode};
use crate::stego::positions::{
    generate_requires, generate_requires_check, lemma_generated_cells, lemma_generated_cells_weak,
    PositionGenerator,
};
use crate::text::prefixed;

verus! {

/// The inverse steps of `spec_scramble`: unshuffle with the leading sort
/// keys, then xor, each as the configuration says.
pub open spec fn spec_unscramble(bytes: Seq<u8>, xor_key: Seq<u8>, config: StegoConfig, keys: Seq<u64>) -> Seq<u8> {
    let a = if config.use_shuffle {
        spec_chaotic_shuffle(bytes, keys.take(bytes.len() as int), true)
    } else {
        bytes
    };
    if config.use_xor {
        spec_xor_cipher(a, xor_key)
    } else {
        a
    }
}

/// The payload read back from decoded samples along the schedule that the
/// metadata describes.
pub open spec fn recovered_payload(
    pixels: Seq<u8>,
    xor_key: Seq<u8>,
    chaos_seed: Seq<u8>,
    meta: StegoMetadata,
    chaos: ChaosInputs,
) -> Seq<u8> {
    let width = meta.image_dimensions.0 as nat;
    let height = meta.image_dimensions.1 as nat;
    let positions = stego_positions(width, height, chaos_seed, meta.config, chaos, meta.total_bits as nat);
    let bits = extract_prefix(
        pixels,
        positions,
        chaos.bit_planes@,
        meta.config.channel_pattern@,
        width,
        min_nat(positions.len(), meta.total_bits as nat),
    );
    spec_unscramble(spec_bits_to_bytes(bits), xor_key, meta.config, chaos.shuffle_keys@)
}

/// What `decode` needs of its metadata and chaos inputs: the schedule can
/// be computed and indexed, the chaos inputs cover it, and a nonce that
/// decodes has the 12 bytes AES-GCM takes.
pub open spec fn decode_supported(meta: StegoMetadata, chaos: ChaosInputs) -> bool {
    let width = meta.image_dimensions.0 as nat;
    let height = meta.image_dimensions.1 as nat;
    &&& fib_table_fits()
    &&& generate_requires(width, height, meta.total_bits as nat, meta.config.position_method@)
    &&& 3 * (width + 1) * (height + 1) <= usize::MAX
    &&& chaos_covers(chaos, meta.total_bits as nat)
    &&& (spec_hex_decode(meta.salt@) is Some && spec_hex_decode(meta.tag@) is Some
        && spec_hex_decode(meta.nonce@) is Some) ==> spec_hex_decode(meta.nonce@)->0.len() == 12
}

/// What `decode` gives for the samples of the decoded image.
pub open spec fn decode_from_pixels(
    res: Result<Vec<u8>, String>,
    pixels: Seq<u8>,
    password: Seq<u8>,
    meta: StegoMetadata,
    chaos: ChaosInputs,
) -> bool {
    let keys = spec_derive_keys(password);
    let payload = recovered_payload(pixels, keys.1, keys.2, meta, chaos);
    if spec_hex_decode(meta.salt@) is None {
        res matches Err(e) && e@ == "invalid salt hex"@
    } else if spec_hex_decode(meta.nonce@) is None {
        res matches Err(e) && e@ == "invalid nonce hex"@
    } else if spec_hex_decode(meta.tag@) is None {
        res matches Err(e) && e@ == "invalid tag hex"@
    } else {
        match spec_aes256gcm_decrypt(keys.0, spec_hex_decode(meta.nonce@)->0, payload) {
            Some(p) => res matches Ok(v) && v@ == p,
            None => res matches Err(e) && prefixed(e@, "aes decrypt failed: "@),
        }
    }
}

/// A PNG file and metadata are what hiding `data` under a password gave
/// for a nonce and noise seed.
pub open spec fn stego_encoded(
    png: Seq<u8>,
    meta: StegoMetadata,
    data: Seq<u8>,
    password: Seq<u8>,
    chaos: ChaosInputs,
    waves: NoiseWaves,
    nonce: Seq<u8>,
    noise_seed: u64,
) -> bool {
    let keys = spec_derive_keys(password);
    let sealed = spec_aes256gcm_encrypt(keys.0, nonce, data);
    &&& data.len() <= aes_gcm_max_plaintext()
    &&& 8 * sealed.len() <= carrier_bits()
    &&& spec_png_encode(
        stego_pixels(sealed, keys.1, keys.2, meta.config, chaos, waves, noise_seed),
        NOISE_SIDE as nat,
        NOISE_SIDE as nat,
    ) == Some(png)
    &&& meta_matches(
        meta,
        Seq::empty(),
        nonce,
        sealed.subrange(sealed.len() - 16, sealed.len() as int),
        8 * sealed.len(),
        meta.config,
    )
}

/// The schedule of the metadata reaches every hidden bit: the position
/// method finds a cell for each.
pub open spec fn schedule_complete(password: Seq<u8>, meta: StegoMetadata, chaos: ChaosInputs) -> bool {
    stego_positions(
        meta.image_dimensions.0 as nat,
        meta.image_dimensions.1 as nat,
        spec_derive_keys(password).2,
        meta.config,
        chaos,
        meta.total_bits as nat,
    ).len() == meta.total_bits
}

/// Scrambling keeps the length.
proof fn lemma_scramble_len(sealed: Seq<u8>, xor_key: Seq<u8>, config: StegoConfig, keys: Seq<u64>)
    requires
        keys.len() >= sealed.len(),
    ensures
        spec_scramble(sealed, xor_key, config, keys).len() == sealed.len(),
{
}

/// Unscrambling undoes scrambling when there are sort keys for every byte.
proof fn lemma_unscramble_scramble(sealed: Seq<u8>, xor_key: Seq<u8>, config: StegoConfig, keys: Seq<u64>)
    requires
        keys.len() >= sealed.len(),
        sealed.len() <= usize::MAX,
        xor_key.len() == 32,
    ensures
        spec_unscramble(spec_scramble(sealed, xor_key, config, keys), xor_key, config, keys) == sealed,
{
    let a = if config.use_xor {
        spec_xor_cipher(sealed, xor_key)
    } else {
        sealed
    };
    let k = keys.take(a.len() as int);
    if config.use_shuffle {
        lemma_shuffle_roundtrip(a, k);
    }
    if config.use_xor {
        lemma_xor_involution(sealed, xor_key);
    }
}

/// Reading the carrier back along the same schedule recovers the sealed
/// payload: the carrier path loses nothing when the position method finds a
/// cell for every bit (its cells are always distinct).
pub proof fn lemma_recover_sealed(
    sealed: Seq<u8>,
    xor_key: Seq<u8>,
    chaos_seed: Seq<u8>,
    meta: StegoMetadata,
    chaos: ChaosInputs,
    waves: NoiseWaves,
    noise_seed: u64,
)
    requires
        xor_key.len() == 32,
        8 * sealed.len() <= carrier_bits(),
        meta.image_dimensions == (NOISE_SIDE, NOISE_SIDE),
        meta.total_bits == 8 * sealed.len(),
        decode_supported(meta, chaos),
        stego_positions(512, 512, chaos_seed, meta.config, chaos, meta.total_bits as nat).len()
            == meta.total_bits,
    ensures
        recovered_payload(
            stego_pixels(sealed, xor_key, chaos_seed, meta.config, chaos, waves, noise_seed),
            xor_key,
            chaos_seed,
            meta,
            chaos,
        ) == sealed,
{
    let config = meta.config;
    let tb = meta.total_bits as nat;
    let keys = chaos.shuffle_keys@;
    assert(packed_len(tb) == sealed.len()) by (nonlinear_arith)
        requires
            tb == 8 * sealed.len(),
    ;
    lemma_scramble_len(sealed, xor_key, config, keys);
    let scrambled = spec_scramble(sealed, xor_key, config, keys);
    let bits = spec_bytes_to_bits(scrambled);
    assert(bits.len() == tb);
    let positions = stego_positions(512, 512, chaos_seed, config, chaos, tb);
    let planes = chaos.bit_planes@;
    let pattern = config.channel_pattern@;
    let noise = spec_noise_pixels(noise_seed, waves);
    lemma_generated_cells(512, 512, chaos_seed, tb, config.position_method@, chaos.henon_orbit@);
    assert forall|j: int| 0 <= j < tb implies #[trigger] bits[j] <= 1 by {
        lemma_bits_are_bits(scrambled, j);
    }
    assert(noise.len() == 3 * 512 * 512);
    lemma_extract_after_embed(noise, bits, positions, planes, pattern, 512, 512, tb);
    assert(bits.take(tb as int) =~= bits);
    lemma_bits_roundtrip(scrambled);
    lemma_unscramble_scramble(sealed, xor_key, config, keys);
}

/// What `decode` gives for a PNG file: exactly `decode_from_pixels` of its
/// samples (or the decoding error), and, for a file and metadata that
/// `encode` produced for `data` under the same password and chaos inputs,
/// `data` itself whenever the position method finds a cell for every bit.
pub open spec fn decode_result(
    res: Result<Vec<u8>, String>,
    png: Seq<u8>,
    password: Seq<u8>,
    meta: StegoMetadata,
    chaos: ChaosInputs,
) -> bool {
    &&& match spec_png_decode(png) {
        None => res matches Err(e) && prefixed(e@, "png decode failed: "@),
        Some(pixels) => decode_from_pixels(res, pixels, password, meta, chaos),
    }
    &&& forall|data: Seq<u8>, nonce: Seq<u8>, noise_seed: u64, waves: NoiseWaves|
        #[trigger] stego_encoded(png, meta, data, password, chaos, waves, nonce, noise_seed) && nonce.len()
            == 12 && schedule_complete(password, meta, chaos) ==> (res matches Ok(v) && v@ == data)
}

/// `packed_len` grows with its argument.
proof fn lemma_packed_len_monotone(a: nat, b: nat)
    requires
        a <= b,
    ensures
        packed_len(a) <= packed_len(b),
{
    assert(a / 8 <= b / 8) by (nonlinear_arith)
        requires
            a <= b,
    ;
    if a % 8 != 0 && b % 8 == 0 {
        assert(a / 8 < b / 8) by (nonlinear_arith)
            requires
                a <= b,
                a % 8 != 0,
                b % 8 == 0,
        ;
    }
}

/// What an encoded image and its metadata give to the receiver: the image
/// decodes to the carrier samples, the hex fields decode, and reading the
/// carrier back recovers the sealed payload.
proof fn lemma_encoded_facts(
    png: Seq<u8>,
    meta: StegoMetadata,
    data: Seq<u8>,
    password: Seq<u8>,
    chaos: ChaosInputs,
    waves: NoiseWaves,
    nonce: Seq<u8>,
    noise_seed: u64,
)
    requires
        stego_encoded(png, meta, data, password, chaos, waves, nonce, noise_seed),
        nonce.len() == 12,
        schedule_complete(password, meta, chaos),
        decode_supported(meta, chaos),
        spec_derive_keys(password).1.len() == 32,
    ensures
        ({
            let keys = spec_derive_keys(password);
            let sealed = spec_aes256gcm_encrypt(keys.0, nonce, data);
            let q = stego_pixels(sealed, keys.1, keys.2, meta.config, chaos, waves, noise_seed);
            &&& q.len() == 3 * 512 * 512
            &&& spec_png_encode(q, 512, 512) == Some(png)
            &&& recovered_payload(q, keys.1, keys.2, meta, chaos) == sealed
            &&& spec_hex_decode(meta.salt@) == Some(Seq::<u8>::empty())
            &&& spec_hex_decode(meta.nonce@) == Some(nonce)
            &&& spec_hex_decode(meta.tag@) is Some
        }),
{
    let keys = spec_derive_keys(password);
    let sealed = spec_aes256gcm_encrypt(keys.0, nonce, data);
    let tb = 8 * sealed.len();
    let bits = spec_bytes_to_bits(spec_scramble(sealed, keys.1, meta.config, chaos.shuffle_keys@));
    assert(packed_len(tb) == sealed.len()) by (nonlinear_arith)
        requires
            tb == 8 * sealed.len(),
    ;
    lemma_scramble_len(sealed, keys.1, meta.config, chaos.shuffle_keys@);
    lemma_embed_prefix_len(
        spec_noise_pixels(noise_seed, waves),
        bits,
        stego_positions(512, 512, keys.2, meta.config, chaos, bits.len()),
        chaos.bit_planes@,
        meta.config.channel_pattern@,
        512,
        min_nat(stego_positions(512, 512, keys.2, meta.config, chaos, bits.len()).len(), bits.len()),
    );
    lemma_recover_sealed(sealed, keys.1, keys.2, meta, chaos, waves, noise_seed);
    lemma_hex_roundtrip(Seq::<u8>::empty());
    lemma_hex_roundtrip(nonce);
    lemma_hex_roundtrip(sealed.subrange(sealed.len() - 16, sealed.len() as int));
}

/// Recovers a payload hidden by `encode`: keys from the password, the
/// image's samples, the bits along the schedule that the metadata
/// describes, unscrambled, and opened with AES-GCM. The result is exactly
/// `decode_from_pixels` of the decoded samples; and an image and metadata
/// that `encode` produced for `data` under the same password and chaos
/// inputs give back `data` whenever the position method finds a cell for
/// every bit.
pub fn decode(png_bytes: &[u8], password: &str, metadata: &StegoMetadata, chaos: &ChaosInputs) -> (res:
    Result<Vec<u8>, String>)
    requires
        decode_supported(*metadata, *chaos),
    ensures
        decode_result(res, png_bytes@, password.spec_bytes(), *metadata, *chaos),
{
    let ghost pw = password.spec_bytes();
    let (aes_key, xor_key, chaos_seed) = derive_keys(password, metadata.config.aes_iterations);
    let pixels = match decode_png(png_bytes) {
        Ok(p) => p,
        Err(e) => {
            let mut m: String = "png decode failed: ".to_owned();
            m.append(e.as_str());
            assert(m@ == "png decode failed: "@ + e@);
            proof {
                assert forall|data: Seq<u8>, nonce: Seq<u8>, noise_seed: u64, waves: NoiseWaves|
                    #[trigger] stego_encoded(
                        png_bytes@,
                        *metadata,
                        data,
                        pw,
                        *chaos,
                        waves,
                        nonce,
                        noise_seed,
                    ) && nonce.len() == 12 && schedule_complete(pw, *metadata, *chaos) implies false by {
                    lemma_encoded_facts(png_bytes@, *metadata, data, pw, *chaos, waves, nonce, noise_seed);
                }
            }
            return Err(m);
        },
    };
    let ghost img = pixels@;
    let (w, h) = metadata.image_dimensions;
    let total_bits: usize = metadata.total_bits;
    let ghost pattern = metadata.config.channel_pattern@;
    let ghost planes = chaos.bit_planes@;
    let generator = PositionGenerator::new(w, h, chaos_seed.as_slice());
    let positions = generator.generate(
        total_bits,
        metadata.config.position_method.as_str(),
        chaos.henon_orbit.as_slice(),
    );
    proof {
        lemma_generated_cells_weak(
            w as nat,
            h as nat,
            chaos_seed@,
            total_bits as nat,
            metadata.config.position_method@,
            chaos.henon_orbit@,
        );
    }
    let n: usize = if positions.len() < total_bits {
        positions.len()
    } else {
        total_bits
    };
    let mut bits: Vec<u8> = Vec::new();
    let mut i: usize = 0;
    while i < n
        invariant
            fib_table_fits(),
            n <= positions@.len(),
            n <= total_bits,
            chaos_covers(*chaos, total_bits as nat),
            planes == chaos.bit_planes@,
            pattern == metadata.config.channel_pattern@,
            3 * (w + 1) * (h + 1) <= usize::MAX,
            forall|j: int|
                0 <= j < positions@.len() ==> {
                    let p = #[trigger] positions@[j];
                    p.0 <= w && p.1 <= h
                },
            pixels@ == img,
            bits@ == extract_prefix(img, positions@, planes, pattern, w as nat, i as nat),
            bits@.len() <= i,
            i <= n,
        decreases n - i,
    {
        let (px, py) = positions[i];
        assert(px <= w && py <= h) by {
            let p = positions@[i as int];
        }
        let channel: usize = get_channel(i, metadata.config.channel_pattern.as_str());
        let plane: u8 = chaos.bit_planes[i];
        assert((py * w + px) * 3 + channel < 3 * (w + 1) * (h + 1)) by (nonlinear_arith)
            requires
                px <= w,
                py <= h,
                channel < 3,
        ;
        let idx: usize = (py * w + px) * 3 + channel;
        assert(idx == bit_sample(positions@, pattern, w as nat, i as int));
        if idx < pixels.len() {
            bits.push(extract_bit(pixels[idx], plane));
        }
        i = i + 1;
    }
    let mut processed: Vec<u8> = bits_to_bytes(bits.as_slice());
    if metadata.config.use_shuffle {
        proof {
            lemma_packed_len_monotone(bits@.len(), total_bits as nat);
        }
        let keys: &[u64] = vstd::slice::slice_subrange(chaos.shuffle_keys.as_slice(), 0, processed.len());
        processed = chaotic_shuffle(processed.as_slice(), keys, true);
    }
    if metadata.config.use_xor {
        processed = xor_cipher(processed.as_slice(), &xor_key);
    }
    assert(processed@ == recovered_payload(img, xor_key@, chaos_seed@, *metadata, *chaos));
    let salt = match hex_decode(metadata.salt.as_str()) {
        Ok(v) => v,
        Err(_) => {
            proof {
                assert forall|data: Seq<u8>, nonce: Seq<u8>, noise_seed: u64, waves: NoiseWaves|
                    #[trigger] stego_encoded(
                        png_bytes@,
                        *metadata,
                        data,
                        pw,
                        *chaos,
                        waves,
                        nonce,
                        noise_seed,
                    ) && nonce.len() == 12 && schedule_complete(pw, *metadata, *chaos) implies false by {
                    lemma_encoded_facts(png_bytes@, *metadata, data, pw, *chaos, waves, nonce, noise_seed);
                }
            }
            return Err("invalid salt hex".to_owned());
        },
    };
    let nonce = match hex_decode(metadata.nonce.as_str()) {
        Ok(v) => v,
        Err(_) => {
            proof {
                assert forall|data: Seq<u8>, nonce: Seq<u8>, noise_seed: u64, waves: NoiseWaves|
                    #[trigger] stego_encoded(
                        png_bytes@,
                        *metadata,
                        data,
                        pw,
                        *chaos,
                        waves,
                        nonce,
                        noise_seed,
                    ) && nonce.len() == 12 && schedule_complete(pw, *metadata, *chaos) implies false by {
                    lemma_encoded_facts(png_bytes@, *metadata, data, pw, *chaos, waves, nonce, noise_seed);
                }
            }
            return Err("invalid nonce hex".to_owned());
        },
    };
    let tag = match hex_decode(metadata.tag.as_str()) {
        Ok(v) => v,
        Err(_) => {
            proof {
                assert forall|data: Seq<u8>, nonce: Seq<u8>, noise_seed: u64, waves: NoiseWaves|
                    #[trigger] stego_encoded(
                        png_bytes@,
                        *metadata,
                        data,
                        pw,
                        *chaos,
                        waves,
                        nonce,
                        noise_seed,
                    ) && nonce.len() == 12 && schedule_complete(pw, *metadata, *chaos) implies false by {
                    lemma_encoded_facts(png_bytes@, *metadata, data, pw, *chaos, waves, nonce, noise_seed);
                }
            }
            return Err("invalid tag hex".to_owned());
        },
    };
    let res = match decrypt_aes(processed.as_slice(), &aes_key, salt.as_slice(), nonce.as_slice(), tag.as_slice()) {
        Ok(p) => Ok(p),
        Err(e) => {
            let mut m: String = "aes decrypt failed: ".to_owned();
            m.append(e.as_str());
            assert(m@ == "aes decrypt failed: "@ + e@);
            Err(m)
        },
    };
    proof {
        assert forall|data: Seq<u8>, nonce_s: Seq<u8>, noise_seed: u64, waves: NoiseWaves|
            #[trigger] stego_encoded(
                png_bytes@,
                *metadata,
                data,
                pw,
                *chaos,
                waves,
                nonce_s,
                noise_seed,
            ) && nonce_s.len() == 12 && schedule_complete(pw, *metadata, *chaos) implies (res matches Ok(v)
            && v@ == data) by {
            lemma_encoded_facts(png_bytes@, *metadata, data, pw, *chaos, waves, nonce_s, noise_seed);
        }
    }
    res
}

/// Whether `decode` can run on the metadata and chaos inputs.
pub fn decode_supported_check(metadata: &StegoMetadata, chaos: &ChaosInputs) -> (ok: bool)
    ensures
        ok == decode_supported(*metadata, *chaos),
{
    let (w, h) = metadata.image_dimensions;
    let total_bits: usize = metadata.total_bits;
    if !fib_table_fits_check() {
        return false;
    }
    if !generate_requires_check(w, h, total_bits, metadata.config.position_method.as_str()) {
        return false;
    }
    if w as u64 >= 0x8000_0000_0000_0000u64 || h as u64 >= 0x8000_0000_0000_0000u64 {
        assert(3 * (w + 1) * (h + 1) > usize::MAX) by (nonlinear_arith)
            requires
                w >= 0x8000_0000_0000_0000 || h >= 0x8000_0000_0000_0000,
                usize::MAX <= 0xffff_ffff_ffff_ffff,
        ;
        return false;
    }
    let w1: u128 = w as u128 + 1;
    let h1: u128 = h as u128 + 1;
    assert(3 * w1 * h1 <= u128::MAX) by (nonlinear_arith)
        requires
            w1 <= 0x8000_0000_0000_0000,
            h1 <= 0x8000_0000_0000_0000,
    ;
    if 3 * w1 * h1 > usize::MAX as u128 {
        return false;
    }
    let needed_keys: usize = if total_bits % 8 == 0 {
        total_bits / 8
    } else {
        total_bits / 8 + 1
    };
    if chaos.shuffle_keys.len() < needed_keys || chaos.bit_planes.len() < total_bits {
        return false;
    }
    let mut i: usize = 0;
    while i < total_bits
        invariant
            i <= total_bits,
            total_bits == metadata.total_bits,
            total_bits <= chaos.bit_planes@.len(),
            forall|j: int| 0 <= j < i ==> #[trigger] chaos.bit_planes@[j] < 8,
        decreases total_bits - i,
    {
        if chaos.bit_planes[i] >= 8 {
            assert(!chaos_covers(*chaos, total_bits as nat)) by {
                assert(chaos.bit_planes@[i as int] >= 8);
            }
            return false;
        }
        i = i + 1;
    }
    let salt_ok: bool = hex_decode(metadata.salt.as_str()).is_ok();
    let tag_ok: bool = hex_decode(metadata.tag.as_str()).is_ok();
    match hex_decode(metadata.nonce.as_str()) {
        Ok(nonce) => !(salt_ok && tag_ok) || nonce.len() == 12,
        Err(_) => true,
    }
}

/// What `encode` gives when it succeeds is an encoded image and metadata
/// in the sense of `stego_encoded`.
pub proof fn lemma_outcome_encoded(
    enc: Result<(Vec<u8>, StegoMetadata), String>,
    data: Seq<u8>,
    password: Seq<u8>,
    config: StegoConfig,
    chaos: ChaosInputs,
    waves: NoiseWaves,
    nonce: Seq<u8>,
    noise_seed: u64,
)
    requires
        stego_outcome(enc, data, password, config, chaos, waves, nonce, noise_seed),
        data.len() <= aes_gcm_max_plaintext(),
        enc is Ok,
    ensures
        stego_encoded(enc->Ok_0.0@, enc->Ok_0.1, data, password, chaos, waves, nonce, noise_seed),
{
    let meta = enc->Ok_0.1;
    let keys = spec_derive_keys(password);
    let sealed = spec_aes256gcm_encrypt(keys.0, nonce, data);
    assert(stego_pixels(sealed, keys.1, keys.2, config, chaos, waves, noise_seed) == stego_pixels(
        sealed,
        keys.1,
        keys.2,
        meta.config,
        chaos,
        waves,
        noise_seed,
    ));
}

/// Decoding gives back what encoding hid: for the result of `encode` of
/// `data` under a password and the result of `decode` of that image and
/// metadata under the same password and chaos inputs, the decoded payload
/// is `data`, whenever the position method finds a cell for every bit.
pub proof fn lemma_stego_roundtrip(
    enc: Result<(Vec<u8>, StegoMetadata), String>,
    dec: Result<Vec<u8>, String>,
    data: Seq<u8>,
    password: Seq<u8>,
    config: StegoConfig,
    chaos: ChaosInputs,
    waves: NoiseWaves,
    nonce: Seq<u8>,
    noise_seed: u64,
)
    requires
        stego_outcome(enc, data, password, config, chaos, waves, nonce, noise_seed),
        data.len() <= aes_gcm_max_plaintext(),
        nonce.len() == 12,
        enc is Ok,
        decode_result(dec, enc->Ok_0.0@, password, enc->Ok_0.1, chaos),
        schedule_complete(password, enc->Ok_0.1, chaos),
    ensures
        dec matches Ok(v) && v@ == data,
{
    lemma_outcome_encoded(enc, data, password, config, chaos, waves, nonce, noise_seed);
}

} // verus!
