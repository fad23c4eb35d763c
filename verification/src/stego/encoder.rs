//! Hiding an encrypted payload in the bit planes of a generated noise image.
use vstd::prelude::*;
use vstd::string::*;
use crate::codec::{hex_encode, spec_hex_encode};
use crate::crypto::aes::{derive_keys, encrypt_aes, spec_derive_keys, spec_xor_cipher, xor_cipher};
use crate::crypto::primitives::{aes_gcm_max_plaintext, random_u64, spec_aes256gcm_encrypt};
use crate::stego::bits::{bytes_to_bits, packed_len, spec_bytes_to_bits};
use crate::stego::chaos::{chaotic_shuffle, spec_chaotic_shuffle};
use crate::stego::embed::{
    embed_bit, fib_table_fits, get_channel, lemma_extract_embed, spec_embed_bit, spec_extract_bit,
    spec_get_channel,
};
use crate::stego::png::{encode_png, spec_png_encode};
use crate::stego::positions::{
    cell_key, in_bounds, lemma_generated_cells, lemma_key_roundtrip, spec_generate,
    spiral_cap, PositionGenerator,
};
use crate::text::{push_decimal, spec_decimal};

verus! {

/// The side of the generated carrier image, in pixels.
pub const NOISE_SIDE: usize = 512;

/// How a payload is hidden: the key-derivation parameters, the chaotic map
/// ("logistic", "tent" or "combined"), the position method, the channel
/// pattern, the bit-plane ratio and which scrambling steps run.
#[derive(Debug)]
pub struct StegoConfig {
    pub aes_iterations: u32,
    pub xor_iterations: u32,
    pub chaos_iterations: u32,
    pub chaos_type: String,
    pub position_method: String,
    pub channel_pattern: String,
    /// The IEEE-754 bit pattern of the (double precision) ratio below which
    /// a chaotic value selects bit plane 0.
    pub bit_plane_ratio: u64,
    pub use_xor: bool,
    pub use_shuffle: bool,
}

impl StegoConfig {
    /// Two configurations agree field by field (strings by their text).
    pub open spec fn same_as(self, other: StegoConfig) -> bool {
        &&& self.aes_iterations == other.aes_iterations
        &&& self.xor_iterations == other.xor_iterations
        &&& self.chaos_iterations == other.chaos_iterations
        &&& self.chaos_type@ == other.chaos_type@
        &&& self.position_method@ == other.position_method@
        &&& self.channel_pattern@ == other.channel_pattern@
        &&& self.bit_plane_ratio == other.bit_plane_ratio
        &&& self.use_xor == other.use_xor
        &&& self.use_shuffle == other.use_shuffle
    }

    /// A field-by-field copy.
    pub fn duplicate(&self) -> (c: StegoConfig)
        ensures
            c.same_as(*self),
    {
        StegoConfig {
            aes_iterations: self.aes_iterations,
            xor_iterations: self.xor_iterations,
            chaos_iterations: self.chaos_iterations,
            chaos_type: self.chaos_type.clone(),
            position_method: self.position_method.clone(),
            channel_pattern: self.channel_pattern.clone(),
            bit_plane_ratio: self.bit_plane_ratio,
            use_xor: self.use_xor,
            use_shuffle: self.use_shuffle,
        }
    }
}

impl Default for StegoConfig {
    /// 100000 / 50000 / 25000 iterations, the logistic map, Henon positions,
    /// the Fibonacci channel pattern, ratio 0.85, xor and shuffle on.
    fn default() -> (c: Self)
        ensures
            c.aes_iterations == 100_000,
            c.xor_iterations == 50_000,
            c.chaos_iterations == 25_000,
            c.chaos_type@ == "logistic"@,
            c.position_method@ == "henon"@,
            c.channel_pattern@ == "fibonacci"@,
            c.bit_plane_ratio == 0x3FEB_3333_3333_3333,
            c.use_xor,
            c.use_shuffle,
    {
        StegoConfig {
            aes_iterations: 100_000,
            xor_iterations: 50_000,
            chaos_iterations: 25_000,
            chaos_type: "logistic".to_owned(),
            position_method: "henon".to_owned(),
            channel_pattern: "fibonacci".to_owned(),
            bit_plane_ratio: 0x3FEB_3333_3333_3333,
            use_xor: true,
            use_shuffle: true,
        }
    }
}

/// What a receiver needs besides the image and the password: the salt,
/// nonce and tag in hexadecimal, the number of hidden bits, the image size
/// and the configuration.
#[derive(Debug)]
pub struct StegoMetadata {
    pub salt: String,
    pub nonce: String,
    pub tag: String,
    pub total_bits: usize,
    pub image_dimensions: (usize, usize),
    pub config: StegoConfig,
}

/// The values that the chaotic maps give for a chaos seed, computed outside
/// the library: the sort keys of the shuffle (the bit patterns of the
/// chaotic sequence, whose order is the order of the values), the bit plane
/// of each payload bit, and the scaled points of the Henon orbit.
#[derive(Debug)]
pub struct ChaosInputs {
    pub shuffle_keys: Vec<u64>,
    pub bit_planes: Vec<u8>,
    pub henon_orbit: Vec<(usize, usize)>,
}

/// The smooth base colour of the noise image: red by column, green by row,
/// blue by column plus row.
#[derive(Debug)]
pub struct NoiseWaves {
    pub red: Vec<i16>,
    pub green: Vec<i16>,
    pub blue: Vec<i16>,
}

/// A base value to which noise in `-20 ..= 20` can be added.
pub open spec fn wave_value_ok(v: i16) -> bool {
    -32748 <= v <= 32747
}

/// The waves cover the image and leave room for the noise.
pub open spec fn waves_valid(waves: NoiseWaves) -> bool {
    &&& waves.red@.len() == NOISE_SIDE
    &&& waves.green@.len() == NOISE_SIDE
    &&& waves.blue@.len() == 2 * NOISE_SIDE - 1
    &&& forall|i: int| 0 <= i < waves.red@.len() ==> wave_value_ok(#[trigger] waves.red@[i])
    &&& forall|i: int| 0 <= i < waves.green@.len() ==> wave_value_ok(#[trigger] waves.green@[i])
    &&& forall|i: int| 0 <= i < waves.blue@.len() ==> wave_value_ok(#[trigger] waves.blue@[i])
}

/// One step of the xorshift generator (shifts 13, 7, 17).
pub open spec fn xorshift(s: u64) -> u64 {
    let a = s ^ (s << 13u64);
    let b = a ^ (a >> 7u64);
    b ^ (b << 17u64)
}

/// The generator state after `n` steps from `seed`.
pub open spec fn xorshift_n(seed: u64, n: nat) -> u64
    decreases n,
{
    if n == 0 {
        seed
    } else {
        xorshift(xorshift_n(seed, (n - 1) as nat))
    }
}

/// A value clamped into a colour sample.
pub open spec fn clamp_sample(v: int) -> u8 {
    if v < 0 {
        0
    } else if v > 255 {
        255
    } else {
        v as u8
    }
}

/// Sample `i` of the noise image: pixel `k = i / 3` in row-major order gets
/// the noise of the generator's state after `k + 1` steps, `state % 41 - 20`,
/// added to the wave of its channel.
pub open spec fn noise_sample(seed: u64, waves: NoiseWaves, i: int) -> u8 {
    let k = i / 3;
    let x = k % (NOISE_SIDE as int);
    let y = k / (NOISE_SIDE as int);
    let noise = (xorshift_n(seed, (k + 1) as nat) % 41) as int - 20;
    let base = if i % 3 == 0 {
        waves.red@[x] as int
    } else if i % 3 == 1 {
        waves.green@[y] as int
    } else {
        waves.blue@[x + y] as int
    };
    clamp_sample(base + noise)
}

/// The samples of the noise image.
pub open spec fn spec_noise_pixels(seed: u64, waves: NoiseWaves) -> Seq<u8> {
    Seq::new((3 * NOISE_SIDE * NOISE_SIDE) as nat, |i: int| noise_sample(seed, waves, i))
}

fn clamp_to_sample(v: i16) -> (s: u8)
    ensures
        s == clamp_sample(v as int),
{
    if v < 0 {
        0
    } else if v > 255 {
        255
    } else {
        v as u8
    }
}

/// A 512 by 512 RGB noise image: smooth waves plus xorshift noise seeded by
/// `seed`; the result is the samples, the width and the height.
pub fn generate_noise_image(seed: u64, waves: &NoiseWaves) -> (image: (Vec<u8>, usize, usize))
    requires
        waves_valid(*waves),
    ensures
        image.0@ == spec_noise_pixels(seed, *waves),
        image.1 == NOISE_SIDE,
        image.2 == NOISE_SIDE,
{
    let w: usize = NOISE_SIDE;
    let h: usize = NOISE_SIDE;
    let mut pixels: Vec<u8> = vec![0u8; w * h * 3];
    let mut state: u64 = seed;
    let mut y: usize = 0;
    while y < h
        invariant
            w == NOISE_SIDE,
            h == NOISE_SIDE,
            waves_valid(*waves),
            y <= h,
            pixels@.len() == 3 * w * h,
            state == xorshift_n(seed, (y * w) as nat),
            forall|j: int| 0 <= j < 3 * y * w ==> pixels@[j] == noise_sample(seed, *waves, j),
        decreases h - y,
    {
        let mut x: usize = 0;
        while x < w
            invariant
                w == NOISE_SIDE,
                h == NOISE_SIDE,
                waves_valid(*waves),
                y < h,
                x <= w,
                pixels@.len() == 3 * w * h,
                state == xorshift_n(seed, (y * w + x) as nat),
                forall|j: int| 0 <= j < 3 * (y * w + x) ==> pixels@[j] == noise_sample(seed, *waves, j),
            decreases w - x,
        {
            let k: usize = y * w + x;
            let idx: usize = k * 3;
            state = state ^ (state << 13u64);
            state = state ^ (state >> 7u64);
            state = state ^ (state << 17u64);
            let noise: i16 = (state % 41) as i16 - 20;
            let r: u8 = clamp_to_sample(waves.red[x] + noise);
            let g: u8 = clamp_to_sample(waves.green[y] + noise);
            let b: u8 = clamp_to_sample(waves.blue[x + y] + noise);
            let ghost before = pixels@;
            pixels.set(idx, r);
            pixels.set(idx + 1, g);
            pixels.set(idx + 2, b);
            proof {
                assert(idx / 3 == k && (idx + 1) / 3 == k && (idx + 2) / 3 == k);
                assert((k as int) % (w as int) == x && (k as int) / (w as int) == y) by {
                    vstd::arithmetic::div_mod::lemma_fundamental_div_mod_converse(
                        k as int,
                        w as int,
                        y as int,
                        x as int,
                    );
                }
                assert forall|j: int| 0 <= j < 3 * (y * w + x + 1) implies pixels@[j] == noise_sample(
                    seed,
                    *waves,
                    j,
                ) by {
                    if j < idx {
                        assert(pixels@[j] == before[j]);
                    }
                }
            }
            x = x + 1;
        }
        y = y + 1;
    }
    assert(pixels@ =~= spec_noise_pixels(seed, *waves));
    (pixels, w, h)
}

/// The sample that payload bit `i` goes to: channel `spec_get_channel(i)` of
/// the cell `positions[i]`.
pub open spec fn bit_sample(positions: Seq<(usize, usize)>, pattern: Seq<char>, width: nat, i: int) -> int {
    3 * cell_key(positions[i], width) + spec_get_channel(i as nat, pattern)
}

/// The samples after bits `0 .. k` are written, each into bit plane
/// `planes[i]` of its sample; a sample past the end is skipped.
pub open spec fn embed_prefix(
    pixels: Seq<u8>,
    bits: Seq<u8>,
    positions: Seq<(usize, usize)>,
    planes: Seq<u8>,
    pattern: Seq<char>,
    width: nat,
    k: nat,
) -> Seq<u8>
    decreases k,
{
    if k == 0 {
        pixels
    } else {
        let prev = embed_prefix(pixels, bits, positions, planes, pattern, width, (k - 1) as nat);
        let idx = bit_sample(positions, pattern, width, k - 1);
        if idx < prev.len() {
            prev.update(idx, spec_embed_bit(prev[idx], bits[k - 1], planes[k - 1]))
        } else {
            prev
        }
    }
}

/// The bits read back from samples `0 .. k` of the schedule; a sample past
/// the end is skipped.
pub open spec fn extract_prefix(
    pixels: Seq<u8>,
    positions: Seq<(usize, usize)>,
    planes: Seq<u8>,
    pattern: Seq<char>,
    width: nat,
    k: nat,
) -> Seq<u8>
    decreases k,
{
    if k == 0 {
        Seq::empty()
    } else {
        let prev = extract_prefix(pixels, positions, planes, pattern, width, (k - 1) as nat);
        let idx = bit_sample(positions, pattern, width, k - 1);
        if idx < pixels.len() {
            prev.push(spec_extract_bit(pixels[idx], planes[k - 1]))
        } else {
            prev
        }
    }
}

/// A schedule that can carry `n` bits in a `width` by `height` image:
/// distinct cells inside the image, bits of 0 or 1 and planes below 8.
pub open spec fn schedule_fits(
    bits: Seq<u8>,
    positions: Seq<(usize, usize)>,
    planes: Seq<u8>,
    width: nat,
    height: nat,
    n: nat,
) -> bool {
    &&& n <= positions.len()
    &&& n <= bits.len()
    &&& n <= planes.len()
    &&& 0 < width <= u64::MAX
    &&& positions.no_duplicates()
    &&& forall|j: int| 0 <= j < n ==> in_bounds(#[trigger] positions[j], width, height)
    &&& forall|j: int| 0 <= j < n ==> #[trigger] bits[j] <= 1
    &&& forall|j: int| 0 <= j < n ==> #[trigger] planes[j] < 8
}

/// Distinct scheduled bits go to distinct samples inside the image.
proof fn lemma_bit_samples(
    positions: Seq<(usize, usize)>,
    pattern: Seq<char>,
    width: nat,
    height: nat,
    i: int,
    j: int,
)
    requires
        0 < width <= u64::MAX,
        0 <= i < positions.len(),
        0 <= j < positions.len(),
        positions.no_duplicates(),
        in_bounds(positions[i], width, height),
        in_bounds(positions[j], width, height),
    ensures
        0 <= bit_sample(positions, pattern, width, i) < 3 * width * height,
        i != j ==> bit_sample(positions, pattern, width, i) != bit_sample(positions, pattern, width, j),
{
    lemma_key_roundtrip(positions[i], width, height);
    lemma_key_roundtrip(positions[j], width, height);
    let ci = spec_get_channel(i as nat, pattern);
    let cj = spec_get_channel(j as nat, pattern);
    assert(ci < 3 && cj < 3) by {
        reveal_strlit("sequential");
        reveal_strlit("reverse");
        reveal_strlit("random");
    }
    assert(3 * cell_key(positions[i], width) + ci < 3 * width * height) by (nonlinear_arith)
        requires
            cell_key(positions[i], width) < width * height,
            ci < 3,
    ;
    if i != j {
        assert(positions[i] != positions[j]);
        assert(cell_key(positions[i], width) != cell_key(positions[j], width));
    }
}

/// After bits `0 .. k` are written, sample `bit_sample(i)` for `i < k` holds
/// bit `i`, and every other sample is untouched.
proof fn lemma_embed_prefix(
    pixels: Seq<u8>,
    bits: Seq<u8>,
    positions: Seq<(usize, usize)>,
    planes: Seq<u8>,
    pattern: Seq<char>,
    width: nat,
    height: nat,
    n: nat,
    k: nat,
)
    requires
        k <= n,
        pixels.len() == 3 * width * height,
        schedule_fits(bits, positions, planes, width, height, n),
    ensures
        embed_prefix(pixels, bits, positions, planes, pattern, width, k).len() == pixels.len(),
        forall|i: int|
            0 <= i < k ==> #[trigger] embed_prefix(pixels, bits, positions, planes, pattern, width, k)[bit_sample(
                positions,
                pattern,
                width,
                i,
            )] == spec_embed_bit(
                pixels[bit_sample(positions, pattern, width, i)],
                bits[i],
                planes[i],
            ),
        forall|t: int|
            0 <= t < pixels.len() && (forall|i: int| 0 <= i < k ==> bit_sample(positions, pattern, width, i) != t)
                ==> #[trigger] embed_prefix(pixels, bits, positions, planes, pattern, width, k)[t] == pixels[t],
    decreases k,
{
    if k > 0 {
        lemma_embed_prefix(pixels, bits, positions, planes, pattern, width, height, n, (k - 1) as nat);
        let prev = embed_prefix(pixels, bits, positions, planes, pattern, width, (k - 1) as nat);
        let cur = embed_prefix(pixels, bits, positions, planes, pattern, width, k);
        let m = k - 1;
        let idx = bit_sample(positions, pattern, width, m);
        lemma_bit_samples(positions, pattern, width, height, m, m);
        assert(cur == prev.update(idx, spec_embed_bit(prev[idx], bits[m], planes[m])));
        assert forall|i: int| 0 <= i < m implies bit_sample(positions, pattern, width, i) != idx by {
            lemma_bit_samples(positions, pattern, width, height, i, m);
        }
        assert(prev[idx] == pixels[idx]);
        assert forall|i: int| 0 <= i < k implies #[trigger] cur[bit_sample(positions, pattern, width, i)]
            == spec_embed_bit(
            pixels[bit_sample(positions, pattern, width, i)],
            bits[i],
            planes[i],
        ) by {
            if i < m {
                lemma_bit_samples(positions, pattern, width, height, i, m);
                assert(prev[bit_sample(positions, pattern, width, i)] == spec_embed_bit(
                    pixels[bit_sample(positions, pattern, width, i)],
                    bits[i],
                    planes[i],
                ));
            }
        }
        assert forall|t: int|
            0 <= t < pixels.len() && (forall|i: int| 0 <= i < k ==> bit_sample(positions, pattern, width, i) != t)
            implies #[trigger] cur[t] == pixels[t] by {
            assert(bit_sample(positions, pattern, width, m) != t);
            assert(forall|i: int| 0 <= i < m ==> bit_sample(positions, pattern, width, i) != t);
        }
    }
}

/// Reading a schedule back from the image it was written into gives the
/// bits written, when the cells are distinct and inside the image.
pub proof fn lemma_extract_after_embed(
    pixels: Seq<u8>,
    bits: Seq<u8>,
    positions: Seq<(usize, usize)>,
    planes: Seq<u8>,
    pattern: Seq<char>,
    width: nat,
    height: nat,
    n: nat,
)
    requires
        pixels.len() == 3 * width * height,
        schedule_fits(bits, positions, planes, width, height, n),
    ensures
        extract_prefix(
            embed_prefix(pixels, bits, positions, planes, pattern, width, n),
            positions,
            planes,
            pattern,
            width,
            n,
        ) == bits.take(n as int),
{
    lemma_embed_prefix(pixels, bits, positions, planes, pattern, width, height, n, n);
    lemma_extract_prefix(pixels, bits, positions, planes, pattern, width, height, n, n);
}

proof fn lemma_extract_prefix(
    pixels: Seq<u8>,
    bits: Seq<u8>,
    positions: Seq<(usize, usize)>,
    planes: Seq<u8>,
    pattern: Seq<char>,
    width: nat,
    height: nat,
    n: nat,
    k: nat,
)
    requires
        k <= n,
        pixels.len() == 3 * width * height,
        schedule_fits(bits, positions, planes, width, height, n),
        embed_prefix(pixels, bits, positions, planes, pattern, width, n).len() == pixels.len(),
        forall|i: int|
            0 <= i < n ==> #[trigger] embed_prefix(pixels, bits, positions, planes, pattern, width, n)[bit_sample(
                positions,
                pattern,
                width,
                i,
            )] == spec_embed_bit(
                pixels[bit_sample(positions, pattern, width, i)],
                bits[i],
                planes[i],
            ),
    ensures
        extract_prefix(
            embed_prefix(pixels, bits, positions, planes, pattern, width, n),
            positions,
            planes,
            pattern,
            width,
            k,
        ) == bits.take(k as int),
    decreases k,
{
    let img = embed_prefix(pixels, bits, positions, planes, pattern, width, n);
    if k > 0 {
        lemma_extract_prefix(pixels, bits, positions, planes, pattern, width, height, n, (k - 1) as nat);
        let m = k - 1;
        let idx = bit_sample(positions, pattern, width, m);
        lemma_bit_samples(positions, pattern, width, height, m, m);
        lemma_extract_embed(pixels[idx], bits[m], planes[m], planes[m]);
        assert(img[idx] == spec_embed_bit(pixels[idx], bits[m], planes[m]));
        assert(bits.take(k as int) =~= bits.take(m).push(bits[m]));
    } else {
        assert(bits.take(0) =~= Seq::<u8>::empty());
    }
}

/// The number of bits the carrier image holds: one per pixel.
pub open spec fn carrier_bits() -> nat {
    (NOISE_SIDE * NOISE_SIDE) as nat
}

/// The chaos inputs serve a payload of `nbits` bits: enough sort keys for
/// its bytes and a plane below 8 for each bit.
pub open spec fn chaos_covers(chaos: ChaosInputs, nbits: nat) -> bool {
    &&& chaos.shuffle_keys@.len() >= packed_len(nbits)
    &&& chaos.bit_planes@.len() >= nbits
    &&& forall|i: int| 0 <= i < nbits ==> #[trigger] chaos.bit_planes@[i] < 8
}

/// The sealed payload xor-ed with the xor key and shuffled with the leading
/// sort keys, each as the configuration says.
pub open spec fn spec_scramble(sealed: Seq<u8>, xor_key: Seq<u8>, config: StegoConfig, keys: Seq<u64>) -> Seq<u8> {
    let a = if config.use_xor {
        spec_xor_cipher(sealed, xor_key)
    } else {
        sealed
    };
    if config.use_shuffle {
        spec_chaotic_shuffle(a, keys.take(a.len() as int), false)
    } else {
        a
    }
}

/// The cells that carry `nbits` bits in an image of the given size.
pub open spec fn stego_positions(
    width: nat,
    height: nat,
    chaos_seed: Seq<u8>,
    config: StegoConfig,
    chaos: ChaosInputs,
    nbits: nat,
) -> Seq<(usize, usize)> {
    spec_generate(width, height, chaos_seed, nbits, config.position_method@, chaos.henon_orbit@)
}

/// The smaller of two numbers.
pub open spec fn min_nat(a: nat, b: nat) -> nat {
    if a < b {
        a
    } else {
        b
    }
}

/// The carrier samples with the scrambled sealed payload written in.
pub open spec fn stego_pixels(
    sealed: Seq<u8>,
    xor_key: Seq<u8>,
    chaos_seed: Seq<u8>,
    config: StegoConfig,
    chaos: ChaosInputs,
    waves: NoiseWaves,
    noise_seed: u64,
) -> Seq<u8> {
    let bits = spec_bytes_to_bits(spec_scramble(sealed, xor_key, config, chaos.shuffle_keys@));
    let positions = stego_positions(
        NOISE_SIDE as nat,
        NOISE_SIDE as nat,
        chaos_seed,
        config,
        chaos,
        bits.len(),
    );
    embed_prefix(
        spec_noise_pixels(noise_seed, waves),
        bits,
        positions,
        chaos.bit_planes@,
        config.channel_pattern@,
        NOISE_SIDE as nat,
        min_nat(positions.len(), bits.len()),
    )
}

/// The metadata that goes with a hidden payload.
pub open spec fn meta_matches(
    meta: StegoMetadata,
    salt: Seq<u8>,
    nonce: Seq<u8>,
    tag: Seq<u8>,
    nbits: nat,
    config: StegoConfig,
) -> bool {
    &&& meta.salt@ == spec_hex_encode(salt)
    &&& meta.nonce@ == spec_hex_encode(nonce)
    &&& meta.tag@ == spec_hex_encode(tag)
    &&& meta.total_bits == nbits
    &&& meta.image_dimensions == (NOISE_SIDE, NOISE_SIDE)
    &&& meta.config.same_as(config)
}

/// The refusal of a payload over the carrier's capacity.
pub open spec fn capacity_message(nbits: nat, capacity: nat) -> Seq<char> {
    "data too large: "@ + spec_decimal(nbits) + " bits, capacity: "@ + spec_decimal(capacity)
}

/// What hiding a sealed payload gives: the capacity refusal when its bits
/// exceed the carrier, otherwise the PNG file of the carrier with the bits
/// written in and the metadata, or an error when PNG encoding fails.
pub open spec fn sealed_outcome(
    res: Result<(Vec<u8>, StegoMetadata), String>,
    sealed: Seq<u8>,
    salt: Seq<u8>,
    nonce: Seq<u8>,
    tag: Seq<u8>,
    xor_key: Seq<u8>,
    chaos_seed: Seq<u8>,
    config: StegoConfig,
    chaos: ChaosInputs,
    waves: NoiseWaves,
    noise_seed: u64,
) -> bool {
    if 8 * sealed.len() > carrier_bits() {
        res matches Err(e) && e@ == capacity_message(8 * sealed.len(), carrier_bits())
    } else {
        match spec_png_encode(
            stego_pixels(sealed, xor_key, chaos_seed, config, chaos, waves, noise_seed),
            NOISE_SIDE as nat,
            NOISE_SIDE as nat,
        ) {
            Some(png) => res matches Ok((p, meta)) && p@ == png && meta_matches(
                meta,
                salt,
                nonce,
                tag,
                8 * sealed.len(),
                config,
            ),
            None => res is Err,
        }
    }
}

fn capacity_error(nbits: usize, capacity: usize) -> (s: String)
    ensures
        s@ == capacity_message(nbits as nat, capacity as nat),
{
    let mut s: String = "data too large: ".to_owned();
    push_decimal(&mut s, nbits as u128);
    s.append(" bits, capacity: ");
    push_decimal(&mut s, capacity as u128);
    s
}

/// Hides a sealed payload (with its salt, nonce and tag) in the noise image
/// of `noise_seed`: xor and shuffle as configured, one bit per scheduled
/// cell, then PNG.
pub fn embed_sealed(
    sealed: &[u8],
    salt: &[u8],
    nonce: &[u8],
    tag: &[u8],
    xor_key: &[u8; 32],
    chaos_seed: &[u8],
    config: &StegoConfig,
    chaos: &ChaosInputs,
    waves: &NoiseWaves,
    noise_seed: u64,
) -> (res: Result<(Vec<u8>, StegoMetadata), String>)
    requires
        8 * sealed@.len() <= carrier_bits() ==> fib_table_fits(),
        waves_valid(*waves),
        8 * sealed@.len() <= usize::MAX,
        8 * sealed@.len() <= carrier_bits() ==> chaos_covers(*chaos, 8 * sealed@.len()),
    ensures
        sealed_outcome(
            res,
            sealed@,
            salt@,
            nonce@,
            tag@,
            xor_key@,
            chaos_seed@,
            *config,
            *chaos,
            *waves,
            noise_seed,
        ),
{
    let capacity: usize = NOISE_SIDE * NOISE_SIDE;
    if sealed.len() > capacity / 8 {
        return Err(capacity_error(8 * sealed.len(), capacity));
    }
    let mut processed: Vec<u8> = vstd::slice::slice_to_vec(sealed);
    if config.use_xor {
        processed = xor_cipher(processed.as_slice(), xor_key);
    }
    if config.use_shuffle {
        let keys: &[u64] = vstd::slice::slice_subrange(chaos.shuffle_keys.as_slice(), 0, processed.len());
        processed = chaotic_shuffle(processed.as_slice(), keys, false);
    }
    assert(processed@ == spec_scramble(sealed@, xor_key@, *config, chaos.shuffle_keys@));
    let bits: Vec<u8> = bytes_to_bits(processed.as_slice());
    let total_bits: usize = bits.len();
    let (mut pixels, w, h) = generate_noise_image(noise_seed, waves);
    let ghost pattern = config.channel_pattern@;
    let ghost planes = chaos.bit_planes@;
    let generator = PositionGenerator::new(w, h, chaos_seed);
    proof {
        assert(spiral_cap(512, 512) == 2049 * 2049);
        assert(2049 * 2049 == 4198401) by (nonlinear_arith);
    }
    let positions = generator.generate(
        total_bits,
        config.position_method.as_str(),
        chaos.henon_orbit.as_slice(),
    );
    proof {
        lemma_generated_cells(
            512,
            512,
            chaos_seed@,
            total_bits as nat,
            config.position_method@,
            chaos.henon_orbit@,
        );
    }
    let n: usize = if positions.len() < total_bits {
        positions.len()
    } else {
        total_bits
    };
    let ghost noise = pixels@;
    let mut i: usize = 0;
    while i < n
        invariant
            fib_table_fits(),
            w == NOISE_SIDE,
            n <= positions@.len(),
            n <= total_bits,
            total_bits == bits@.len(),
            bits@ == spec_bytes_to_bits(processed@),
            total_bits <= carrier_bits(),
            chaos_covers(*chaos, total_bits as nat),
            planes == chaos.bit_planes@,
            pattern == config.channel_pattern@,
            forall|j: int| 0 <= j < positions@.len() ==> in_bounds(#[trigger] positions@[j], 512, 512),
            pixels@.len() == 3 * 512 * 512,
            pixels@ == embed_prefix(noise, bits@, positions@, planes, pattern, 512, i as nat),
            i <= n,
        decreases n - i,
    {
        let (px, py) = positions[i];
        assert(in_bounds(positions@[i as int], 512, 512));
        let channel: usize = get_channel(i, config.channel_pattern.as_str());
        let plane: u8 = chaos.bit_planes[i];
        let idx: usize = (py * w + px) * 3 + channel;
        assert(idx == bit_sample(positions@, pattern, 512, i as int));
        if idx < pixels.len() {
            let bit: u8 = bits[i];
            assert(bit <= 1) by {
                crate::stego::bits::lemma_bits_are_bits(processed@, i as int);
            }
            let value: u8 = embed_bit(pixels[idx], bit, plane);
            pixels.set(idx, value);
        }
        i = i + 1;
    }
    let png = encode_png(pixels.as_slice(), w, h)?;
    let metadata = StegoMetadata {
        salt: hex_encode(salt),
        nonce: hex_encode(nonce),
        tag: hex_encode(tag),
        total_bits,
        image_dimensions: (w, h),
        config: config.duplicate(),
    };
    Ok((png, metadata))
}

/// What hiding `data` under a password gives for a given nonce and noise
/// seed: the payload sealed with the derived AES key under that nonce (with
/// an empty salt and its last 16 bytes as tag), hidden as `embed_sealed`
/// hides it with the derived xor key and chaos seed.
pub open spec fn stego_outcome(
    res: Result<(Vec<u8>, StegoMetadata), String>,
    data: Seq<u8>,
    password: Seq<u8>,
    config: StegoConfig,
    chaos: ChaosInputs,
    waves: NoiseWaves,
    nonce: Seq<u8>,
    noise_seed: u64,
) -> bool {
    let keys = spec_derive_keys(password);
    let sealed = spec_aes256gcm_encrypt(keys.0, nonce, data);
    &&& sealed.len() == data.len() + 16
    &&& sealed_outcome(
        res,
        sealed,
        Seq::empty(),
        nonce,
        sealed.subrange(sealed.len() - 16, sealed.len() as int),
        keys.1,
        keys.2,
        config,
        chaos,
        waves,
        noise_seed,
    )
}

/// The refusal of a payload that AES-GCM cannot seal.
pub open spec fn aes_refusal(e: Seq<char>) -> bool {
    exists|m: Seq<char>| e == "aes encrypt failed: "@ + m
}

/// Hides `data` in a fresh noise image: keys from the password, AES-GCM
/// under a random nonce, then `embed_sealed` with a random noise seed. The
/// result is the PNG file and the metadata that `decode` needs.
pub fn encode(
    data: &[u8],
    password: &str,
    config: &StegoConfig,
    chaos: &ChaosInputs,
    waves: &NoiseWaves,
) -> (res: Result<(Vec<u8>, StegoMetadata), String>)
    requires
        8 * (data@.len() + 16) <= carrier_bits() ==> fib_table_fits(),
        waves_valid(*waves),
        8 * (data@.len() + 16) <= usize::MAX,
        8 * (data@.len() + 16) <= carrier_bits() ==> chaos_covers(*chaos, 8 * (data@.len() + 16)),
    ensures
        data@.len() > aes_gcm_max_plaintext() ==> (res matches Err(e) && aes_refusal(e@)),
        data@.len() <= aes_gcm_max_plaintext() ==> exists|nonce: Seq<u8>, noise_seed: u64|
            nonce.len() == 12 && #[trigger] stego_outcome(
                res,
                data@,
                password.spec_bytes(),
                *config,
                *chaos,
                *waves,
                nonce,
                noise_seed,
            ),
        data@.len() <= aes_gcm_max_plaintext() && 8 * (data@.len() + 16) > carrier_bits() ==> (res matches Err(
            e,
        ) && e@ == capacity_message(8 * (data@.len() + 16), carrier_bits())),
        res matches Ok((png, meta)) ==> {
            &&& meta.total_bits == 8 * (data@.len() + 16)
            &&& meta.image_dimensions == (NOISE_SIDE, NOISE_SIDE)
            &&& meta.salt@.len() == 0
            &&& meta.nonce@.len() == 24
            &&& meta.tag@.len() == 32
            &&& meta.config.same_as(*config)
        },
{
    let (aes_key, xor_key, chaos_seed) = derive_keys(password, config.aes_iterations);
    let (sealed, salt, nonce, tag) = match encrypt_aes(data, &aes_key) {
        Ok(parts) => parts,
        Err(e) => {
            let mut m: String = "aes encrypt failed: ".to_owned();
            m.append(e.as_str());
            assert(m@ == "aes encrypt failed: "@ + e@);
            return Err(m);
        },
    };
    let noise_seed: u64 = random_u64();
    let res = embed_sealed(
        sealed.as_slice(),
        salt.as_slice(),
        nonce.as_slice(),
        tag.as_slice(),
        &xor_key,
        chaos_seed.as_slice(),
        config,
        chaos,
        waves,
        noise_seed,
    );
    assert(salt@ =~= Seq::<u8>::empty());
    assert(stego_outcome(
        res,
        data@,
        password.spec_bytes(),
        *config,
        *chaos,
        *waves,
        nonce@,
        noise_seed,
    ));
    res
}

/// Writing bits keeps the number of samples.
pub proof fn lemma_embed_prefix_len(
    pixels: Seq<u8>,
    bits: Seq<u8>,
    positions: Seq<(usize, usize)>,
    planes: Seq<u8>,
    pattern: Seq<char>,
    width: nat,
    k: nat,
)
    ensures
        embed_prefix(pixels, bits, positions, planes, pattern, width, k).len() == pixels.len(),
    decreases k,
{
    if k > 0 {
        lemma_embed_prefix_len(pixels, bits, positions, planes, pattern, width, (k - 1) as nat);
    }
}

/// The number of bits that `encode` hides for a payload of `data_len`
/// bytes (the sealed payload carries a 16-byte tag), when they fit the
/// carrier.
pub fn payload_bits(data_len: usize) -> (nbits: Option<usize>)
    ensures
        8 * (data_len + 16) <= carrier_bits() <==> nbits is Some,
        nbits matches Some(n) ==> n == 8 * (data_len + 16),
{
    if data_len > NOISE_SIDE * NOISE_SIDE / 8 - 16 {
        None
    } else {
        Some(8 * (data_len + 16))
    }
}


/// The noise added to pixel `k` (row-major) of the noise image: the
/// generator state after `k + 1` steps, modulo 41, less 20.
pub open spec fn pixel_noise(seed: u64, k: int) -> int {
    (xorshift_n(seed, (k + 1) as nat) % 41) as int - 20
}

/// The pixel at column `x` and row `y` of the noise image has red from the
/// column's wave, green from the row's wave and blue from the wave of the
/// diagonal `x + y`, each plus the pixel's noise and clamped to a sample.
pub proof fn lemma_noise_pixel(seed: u64, waves: NoiseWaves, x: int, y: int)
    requires
        0 <= x < NOISE_SIDE,
        0 <= y < NOISE_SIDE,
    ensures
        ({
            let img = spec_noise_pixels(seed, waves);
            let k = y * NOISE_SIDE + x;
            let noise = pixel_noise(seed, k);
            &&& img.len() == 3 * NOISE_SIDE * NOISE_SIDE
            &&& img[3 * k] == clamp_sample(waves.red@[x] + noise)
            &&& img[3 * k + 1] == clamp_sample(waves.green@[y] + noise)
            &&& img[3 * k + 2] == clamp_sample(waves.blue@[x + y] + noise)
        }),
{
    let k = y * (NOISE_SIDE as int) + x;
    assert(0 <= k < NOISE_SIDE * NOISE_SIDE) by (nonlinear_arith)
        requires
            0 <= x < NOISE_SIDE,
            0 <= y < NOISE_SIDE,
            k == y * (NOISE_SIDE as int) + x,
    ;
    assert(k % (NOISE_SIDE as int) == x && k / (NOISE_SIDE as int) == y) by {
        vstd::arithmetic::div_mod::lemma_fundamental_div_mod_converse(k, NOISE_SIDE as int, y, x);
    }
    assert((3 * k) / 3 == k && (3 * k + 1) / 3 == k && (3 * k + 2) / 3 == k);
    assert((3 * k) % 3 == 0 && (3 * k + 1) % 3 == 1 && (3 * k + 2) % 3 == 2);
}

} // verus!
