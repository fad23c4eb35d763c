use bubu2bubu::crypto::aes::derive_keys;
use bubu2bubu::stego::bits::{bits_to_bytes, bytes_to_bits};
use bubu2bubu::stego::chaos::{chaotic_shuffle, sort_order};
use bubu2bubu::stego::decoder::{decode, decode_supported_check};
use bubu2bubu::stego::embed::{embed_bit, extract_bit, fib_table_fits_check, fibonacci_table, get_channel};
use bubu2bubu::stego::encoder::{
    encode, generate_noise_image, ChaosInputs, NoiseWaves, StegoConfig, StegoMetadata,
};
use bubu2bubu::stego::positions::{random_candidate, sieve_primes, PositionGenerator};
use sha2::Digest;

fn logistic(x: f64) -> f64 {
    3.9999 * x * (1.0 - x)
}

fn chaotic_sequence(seed: &[u8], length: usize) -> Vec<f64> {
    let seed_int = u32::from_be_bytes([
        seed.first().copied().unwrap_or(0),
        seed.get(1).copied().unwrap_or(0),
        seed.get(2).copied().unwrap_or(0),
        seed.get(3).copied().unwrap_or(0),
    ]);
    let mut x = (seed_int % 1_000_000) as f64 / 1_000_000.0;
    x = if x < 0.1 {
        x + 0.1
    } else if x > 0.9 {
        x - 0.1
    } else {
        x
    };
    for _ in 0..1000 {
        x = logistic(x);
    }
    let mut out = Vec::new();
    for _ in 0..length {
        x = logistic(x);
        out.push(x);
    }
    out
}

fn bit_plane(seed: &[u8], index: usize, ratio: f64) -> u8 {
    let mut extended = seed.to_vec();
    extended.extend_from_slice(&(index as u32).to_be_bytes());
    if chaotic_sequence(&extended, 1)[0] < ratio {
        0
    } else {
        1
    }
}

fn henon_orbit(seed: &[u8], count: usize) -> Vec<(usize, usize)> {
    let seed_int = u32::from_be_bytes([seed[0], seed[1], seed[2], seed[3]]);
    let mut x = (seed_int % 1000) as f64 / 1000.0 - 0.5;
    let mut y = ((seed_int >> 16) % 1000) as f64 / 1000.0 - 0.5;
    for _ in 0..500 {
        let (nx, ny) = (1.0 - 1.4 * x * x + y, 0.3 * x);
        x = nx;
        y = ny;
    }
    let mut out = Vec::new();
    for _ in 0..count * 100 {
        let (nx, ny) = (1.0 - 1.4 * x * x + y, 0.3 * x);
        x = nx;
        y = ny;
        out.push(((x.abs() * 1000.0) as usize, (y.abs() * 1000.0) as usize));
    }
    out
}

fn chaos_for(password: &str, payload_len: usize) -> ChaosInputs {
    let (_, _, chaos_seed) = derive_keys(password, 100_000);
    let nbits = 8 * payload_len;
    ChaosInputs {
        shuffle_keys: chaotic_sequence(&chaos_seed, payload_len).iter().map(|v| v.to_bits()).collect(),
        bit_planes: (0..nbits).map(|i| bit_plane(&chaos_seed, i, 0.85)).collect(),
        henon_orbit: henon_orbit(&chaos_seed, nbits),
    }
}

fn waves() -> NoiseWaves {
    NoiseWaves {
        red: (0..512).map(|x| (128.0 + 40.0 * (x as f64 / 50.0).sin()) as i16).collect(),
        green: (0..512).map(|y| (128.0 + 40.0 * (y as f64 / 50.0).sin()) as i16).collect(),
        blue: (0..1023).map(|s| (128.0 + 40.0 * (s as f64 / 70.0).sin()) as i16).collect(),
    }
}

fn plain_config(method: &str) -> StegoConfig {
    StegoConfig {
        aes_iterations: 1,
        xor_iterations: 1,
        chaos_iterations: 1,
        chaos_type: "logistic".to_string(),
        position_method: method.to_string(),
        channel_pattern: "sequential".to_string(),
        bit_plane_ratio: 0x3FEB_3333_3333_3333,
        use_xor: false,
        use_shuffle: false,
    }
}

#[test]
fn embed_bit_sets_and_clears_a_plane() {
    assert_eq!(embed_bit(0b1010_1010, 1, 0), 0b1010_1011);
    assert_eq!(embed_bit(0b1010_1010, 0, 1), 0b1010_1000);
    assert_eq!(embed_bit(0xFF, 0, 7), 0x7F);
}

#[test]
fn extract_bit_reads_a_plane() {
    assert_eq!(extract_bit(0b100, 2), 1);
    assert_eq!(extract_bit(0b100, 1), 0);
}

#[test]
fn extract_after_embed_gives_the_bit_and_keeps_other_planes() {
    for v in [0u8, 1, 0x55, 0xAA, 0xFF] {
        for plane in 0..8u8 {
            for bit in 0..2u8 {
                let e = embed_bit(v, bit, plane);
                assert_eq!(extract_bit(e, plane), bit);
                for other in 0..8u8 {
                    if other != plane {
                        assert_eq!(extract_bit(e, other), extract_bit(v, other));
                    }
                }
            }
        }
    }
}

#[test]
fn fibonacci_table_values() {
    assert_eq!(fibonacci_table(5), vec![1, 1, 2, 3, 5]);
    assert_eq!(fibonacci_table(0), vec![1, 1]);
    assert_eq!(fibonacci_table(50)[49], 12586269025);
    assert!(fib_table_fits_check());
}

#[test]
fn get_channel_patterns() {
    assert_eq!(get_channel(4, "sequential"), 1);
    assert_eq!(get_channel(4, "reverse"), 1);
    assert_eq!(get_channel(0, "reverse"), 2);
    assert_eq!(get_channel(3, "fibonacci"), 0);
    assert_eq!(get_channel(5, "anything"), 2);
    assert_eq!(get_channel(53, "fibonacci"), 0);
    assert_eq!(get_channel(0, "random"), 2);
    assert_eq!(get_channel(7, "random"), 1);
}

#[test]
fn bits_of_bytes_most_significant_first() {
    assert_eq!(bytes_to_bits(&[0xA5]), vec![1, 0, 1, 0, 0, 1, 0, 1]);
    assert_eq!(bits_to_bytes(&[1, 0, 1]), vec![0xA0]);
    assert_eq!(bits_to_bytes(&[]), Vec::<u8>::new());
    let data = vec![0u8, 1, 127, 128, 255, 42];
    assert_eq!(bits_to_bytes(&bytes_to_bits(&data)), data);
}

#[test]
fn sort_order_is_stable() {
    assert_eq!(sort_order(&[30, 10, 20, 10]), vec![1, 3, 2, 0]);
    assert_eq!(sort_order(&[]), Vec::<usize>::new());
}

#[test]
fn shuffle_gathers_and_unshuffle_scatters() {
    let data = [b'a', b'b', b'c', b'd'];
    let keys = [30u64, 10, 20, 10];
    let shuffled = chaotic_shuffle(&data, &keys, false);
    assert_eq!(shuffled, vec![b'b', b'd', b'c', b'a']);
    assert_eq!(chaotic_shuffle(&shuffled, &keys, true), data.to_vec());
    assert_eq!(chaotic_shuffle(&[], &[], false), Vec::<u8>::new());
}

#[test]
fn shuffle_roundtrip_with_chaotic_keys() {
    let data: Vec<u8> = (0..200u32).map(|i| (i * 7 % 256) as u8).collect();
    let keys: Vec<u64> = chaotic_sequence(b"seed", data.len()).iter().map(|v| v.to_bits()).collect();
    let there = chaotic_shuffle(&data, &keys, false);
    assert_ne!(there, data);
    assert_eq!(chaotic_shuffle(&there, &keys, true), data);
    assert_eq!(chaotic_shuffle(&chaotic_shuffle(&data, &keys, true), &keys, false), data);
}

#[test]
fn sieve_small_limits() {
    assert_eq!(sieve_primes(20), vec![2, 3, 5, 7, 11, 13, 17, 19]);
    assert_eq!(sieve_primes(1), Vec::<usize>::new());
    assert_eq!(sieve_primes(2), vec![2]);
    assert_eq!(sieve_primes(100).len(), 25);
}

#[test]
fn prime_positions_follow_the_primes() {
    let g = PositionGenerator::new(4, 4, &[0, 0, 0, 0]);
    assert_eq!(g.prime(3), vec![(2, 0), (3, 0), (1, 1)]);
    assert_eq!(g.prime(0), vec![(2, 0)]);
    assert_eq!(g.prime(100).len(), 6);
    let shifted = PositionGenerator::new(4, 4, &[0, 0, 0, 5]);
    assert_eq!(shifted.prime(6), vec![(3, 1), (0, 2), (2, 2), (0, 3), (0, 0), (2, 0)]);
}

#[test]
fn spiral_starts_at_the_centre() {
    let g = PositionGenerator::new(4, 4, &[]);
    assert_eq!(g.spiral(5), vec![(2, 2), (3, 2), (3, 3), (2, 3), (1, 3)]);
    assert_eq!(g.spiral(0), Vec::<(usize, usize)>::new());
    let all = g.spiral(16);
    assert_eq!(all.len(), 16);
    let mut sorted = all.clone();
    sorted.sort();
    sorted.dedup();
    assert_eq!(sorted.len(), 16);
}

#[test]
fn spiral_in_an_empty_image_gives_its_centre() {
    let g = PositionGenerator::new(0, 5, &[]);
    assert_eq!(g.spiral(3), vec![(0, 2)]);
}

#[test]
fn henon_positions_wrap_and_skip_repeats() {
    let g = PositionGenerator::new(4, 4, &[1, 2, 3, 4]);
    let orbit = [(5, 9), (1, 1), (5, 9), (7, 7)];
    assert_eq!(g.henon_positions(2, &orbit), vec![(1, 1), (3, 3)]);
    assert_eq!(g.henon_positions(0, &orbit), Vec::<(usize, usize)>::new());
    assert_eq!(g.generate(2, "henon", &orbit), vec![(1, 1), (3, 3)]);
}

#[test]
fn random_candidate_reads_two_words() {
    let digest = [0, 0, 1, 0, 0, 0, 0, 7, 9, 9];
    assert_eq!(random_candidate(&digest, 100, 5), (56, 2));
}

#[test]
fn random_positions_hash_the_seed_and_counter() {
    let g = PositionGenerator::new(8, 8, b"abc");
    let got = g.random(5);
    let mut expected: Vec<(usize, usize)> = Vec::new();
    let mut i = 0u32;
    while expected.len() < 5 {
        let mut h = sha2::Sha256::new();
        h.update(b"abc");
        h.update(i.to_be_bytes());
        let d = h.finalize();
        let px = u32::from_be_bytes([d[0], d[1], d[2], d[3]]) as usize % 8;
        let py = u32::from_be_bytes([d[4], d[5], d[6], d[7]]) as usize % 8;
        if !expected.contains(&(px, py)) {
            expected.push((px, py));
        }
        i += 1;
    }
    assert_eq!(got, expected);
    assert_eq!(g.generate(5, "random", &[]), expected);
    assert_eq!(g.random(0), Vec::<(usize, usize)>::new());
}

#[test]
fn generate_dispatches_by_name() {
    let g = PositionGenerator::new(4, 4, &[0, 0, 0, 0]);
    assert_eq!(g.generate(3, "prime", &[]), g.prime(3));
    assert_eq!(g.generate(5, "spiral", &[]), g.spiral(5));
}

#[test]
fn noise_image_is_waves_plus_xorshift_noise() {
    let w = waves();
    let (pixels, width, height) = generate_noise_image(42, &w);
    assert_eq!((width, height), (512, 512));
    assert_eq!(pixels.len(), 512 * 512 * 3);
    let mut state: u64 = 42;
    state ^= state << 13;
    state ^= state >> 7;
    state ^= state << 17;
    let noise = (state % 41) as i16 - 20;
    assert_eq!(pixels[0], (w.red[0] + noise).clamp(0, 255) as u8);
    assert_eq!(pixels[1], (w.green[0] + noise).clamp(0, 255) as u8);
    assert_eq!(pixels[2], (w.blue[0] + noise).clamp(0, 255) as u8);
}

#[test]
fn default_config_values() {
    let c = StegoConfig::default();
    assert_eq!(c.aes_iterations, 100_000);
    assert_eq!(c.xor_iterations, 50_000);
    assert_eq!(c.chaos_iterations, 25_000);
    assert_eq!(c.chaos_type, "logistic");
    assert_eq!(c.position_method, "henon");
    assert_eq!(c.channel_pattern, "fibonacci");
    assert_eq!(f64::from_bits(c.bit_plane_ratio), 0.85);
    assert!(c.use_xor);
    assert!(c.use_shuffle);
}

#[test]
fn encode_then_decode_plain_configuration() {
    let data = b"hello stego";
    let config = plain_config("random");
    let chaos = chaos_for("pw", data.len() + 16);
    let (png, meta) = encode(data, "pw", &config, &chaos, &waves()).unwrap();
    assert_eq!(meta.total_bits, 8 * (data.len() + 16));
    assert_eq!(meta.image_dimensions, (512, 512));
    assert_eq!(meta.salt, "");
    assert_eq!(meta.nonce.len(), 24);
    assert_eq!(meta.tag.len(), 32);
    assert!(decode_supported_check(&meta, &chaos));
    assert_eq!(decode(&png, "pw", &meta, &chaos).unwrap(), data.to_vec());
}

#[test]
fn encode_then_decode_default_configuration() {
    let data = b"the default pipeline: xor, shuffle, henon, fibonacci";
    let config = StegoConfig::default();
    let chaos = chaos_for("secret", data.len() + 16);
    let (png, meta) = encode(data, "secret", &config, &chaos, &waves()).unwrap();
    assert!(decode_supported_check(&meta, &chaos));
    assert_eq!(decode(&png, "secret", &meta, &chaos).unwrap(), data.to_vec());
}

#[test]
fn encode_then_decode_each_method() {
    for method in ["prime", "spiral", "random", "henon"] {
        let data = b"x";
        let mut config = StegoConfig::default();
        config.position_method = method.to_string();
        let chaos = chaos_for("k", data.len() + 16);
        let (png, meta) = encode(data, "k", &config, &chaos, &waves()).unwrap();
        assert_eq!(decode(&png, "k", &meta, &chaos).unwrap(), data.to_vec(), "method {}", method);
    }
}

#[test]
fn decode_with_the_wrong_password_fails() {
    let data = b"hidden";
    let config = plain_config("random");
    let chaos = chaos_for("right", data.len() + 16);
    let (png, meta) = encode(data, "right", &config, &chaos, &waves()).unwrap();
    let err = decode(&png, "wrong", &meta, &chaos).unwrap_err();
    assert!(err.starts_with("aes decrypt failed: "));
}

#[test]
fn encode_refuses_a_payload_over_capacity() {
    let data = vec![0u8; 32753];
    let chaos = ChaosInputs { shuffle_keys: vec![], bit_planes: vec![], henon_orbit: vec![] };
    let err = encode(&data, "pw", &plain_config("random"), &chaos, &waves()).unwrap_err();
    assert_eq!(err, "data too large: 262152 bits, capacity: 262144");
}

#[test]
fn decode_reports_bad_png_and_bad_hex() {
    let data = b"abc";
    let config = plain_config("random");
    let chaos = chaos_for("pw", data.len() + 16);
    let (png, meta) = encode(data, "pw", &config, &chaos, &waves()).unwrap();
    let err = decode(&[1, 2, 3], "pw", &meta, &chaos).unwrap_err();
    assert!(err.starts_with("png decode failed: "));
    let broken = |salt: &str, nonce: &str, tag: &str| StegoMetadata {
        salt: salt.to_string(),
        nonce: nonce.to_string(),
        tag: tag.to_string(),
        total_bits: meta.total_bits,
        image_dimensions: meta.image_dimensions,
        config: plain_config("random"),
    };
    assert_eq!(decode(&png, "pw", &broken("zz", &meta.nonce, &meta.tag), &chaos).unwrap_err(), "invalid salt hex");
    assert_eq!(decode(&png, "pw", &broken("", "q", &meta.tag), &chaos).unwrap_err(), "invalid nonce hex");
    assert_eq!(decode(&png, "pw", &broken("", &meta.nonce, "xyz"), &chaos).unwrap_err(), "invalid tag hex");
}

#[test]
fn decode_supported_check_refuses_short_inputs() {
    let meta = StegoMetadata {
        salt: String::new(),
        nonce: "00".repeat(12),
        tag: String::new(),
        total_bits: 16,
        image_dimensions: (4, 4),
        config: plain_config("random"),
    };
    let empty = ChaosInputs { shuffle_keys: vec![], bit_planes: vec![], henon_orbit: vec![] };
    assert!(!decode_supported_check(&meta, &empty));
    let enough = ChaosInputs { shuffle_keys: vec![0; 2], bit_planes: vec![0; 16], henon_orbit: vec![] };
    assert!(decode_supported_check(&meta, &enough));
    let bad_plane = ChaosInputs { shuffle_keys: vec![0; 2], bit_planes: vec![8; 16], henon_orbit: vec![] };
    assert!(!decode_supported_check(&meta, &bad_plane));
    let mut spiral = meta;
    spiral.config.position_method = "spiral".to_string();
    spiral.total_bits = 17;
    let planes = ChaosInputs { shuffle_keys: vec![0; 3], bit_planes: vec![0; 17], henon_orbit: vec![] };
    assert!(!decode_supported_check(&spiral, &planes));
}

#[test]
fn spiral_covers_an_odd_image_without_repeats() {
    let g = PositionGenerator::new(7, 5, &[]);
    let all = g.spiral(35);
    assert_eq!(all.len(), 35);
    let mut sorted = all.clone();
    sorted.sort();
    sorted.dedup();
    assert_eq!(sorted.len(), 35);
    assert!(all.iter().all(|&(x, y)| x < 7 && y < 5));
    assert_eq!(all[0], (3, 2));
}

fn ring(p: (usize, usize), w: usize, h: usize) -> usize {
    let dx = (p.0 as isize - (w / 2) as isize).unsigned_abs();
    let dy = (p.1 as isize - (h / 2) as isize).unsigned_abs();
    dx.max(dy)
}

#[test]
fn spiral_rings_grow_and_shorter_walks_are_prefixes() {
    let g = PositionGenerator::new(6, 9, &[]);
    let all = g.spiral(54);
    for k in 1..all.len() {
        assert!(ring(all[k - 1], 6, 9) <= ring(all[k], 6, 9));
    }
    for c in [0usize, 1, 7, 30, 54] {
        assert_eq!(g.spiral(c), all[..c].to_vec());
    }
}

#[test]
fn henon_positions_for_fewer_cells_are_a_prefix() {
    let g = PositionGenerator::new(5, 3, &[1, 2, 3, 4]);
    let orbit: Vec<(usize, usize)> = (0..400).map(|i| (i * 7 + 3, i * 11 + 1)).collect();
    let long = g.henon_positions(4, &orbit);
    for c in 0..4 {
        let short = g.henon_positions(c, &orbit);
        assert_eq!(short, long[..short.len()].to_vec());
    }
}

#[test]
fn short_last_byte_is_padded_with_zero_bits() {
    assert_eq!(bits_to_bytes(&[1]), vec![0x80]);
    assert_eq!(bits_to_bytes(&[1, 1, 1, 1, 1, 1, 1, 1, 0, 1]), vec![0xFF, 0x40]);
}
