//! Conversion between bytes and their bits, most significant bit first.
use vstd::prelude::*;

verus! {

/// Bit `k` of the bit string of `data`: bit `7 - k % 8` of byte `k / 8`.
pub open spec fn spec_bytes_to_bits(data: Seq<u8>) -> Seq<u8> {
    Seq::new(8 * data.len(), |k: int| (data[k / 8] >> ((7 - k % 8) as u8)) & 1u8)
}

/// Packs up to eight bits into a byte: element `j` is shifted left by
/// `7 - j` (keeping the low 8 bits) and the results are or-ed together.
pub open spec fn pack_bits(chunk: Seq<u8>) -> u8
    decreases chunk.len(),
{
    if chunk.len() == 0 {
        0u8
    } else {
        pack_bits(chunk.drop_last()) | (chunk.last() << ((7 - (chunk.len() - 1)) as u8))
    }
}

/// Number of bytes that `n` bits fill, the last one possibly in part.
pub open spec fn packed_len(n: nat) -> nat {
    if n % 8 == 0 {
        n / 8
    } else {
        n / 8 + 1
    }
}

/// Byte `k` packs bits `8k .. min(8k + 8, n)`.
pub open spec fn spec_bits_to_bytes(bits: Seq<u8>) -> Seq<u8> {
    Seq::new(
        packed_len(bits.len()),
        |k: int|
            pack_bits(
                bits.subrange(8 * k, if 8 * k + 8 <= bits.len() { 8 * k + 8 } else { bits.len() as int }),
            ),
    )
}

/// Splits every byte into its eight bits, most significant first.
pub fn bytes_to_bits(data: &[u8]) -> (bits: Vec<u8>)
    requires
        8 * data@.len() <= usize::MAX,
    ensures
        bits@ == spec_bytes_to_bits(data@),
{
    let n: usize = data.len();
    let mut bits: Vec<u8> = Vec::with_capacity(8 * n);
    let mut i: usize = 0;
    while i < n
        invariant
            n == data@.len(),
            8 * n <= usize::MAX,
            i <= n,
            bits@.len() == 8 * i,
            forall|k: int| 0 <= k < 8 * i ==> bits@[k] == spec_bytes_to_bits(data@)[k],
        decreases n - i,
    {
        let byte: u8 = data[i];
        let mut j: u8 = 0;
        while j < 8
            invariant
                n == data@.len(),
                i < n,
                byte == data@[i as int],
                j <= 8,
                bits@.len() == 8 * i + j,
                forall|k: int| 0 <= k < 8 * i + j ==> bits@[k] == spec_bytes_to_bits(data@)[k],
            decreases 8 - j,
        {
            bits.push((byte >> (7 - j)) & 1u8);
            proof {
                let k = 8 * i + j;
                assert(k / 8 == i as int && k % 8 == j as int) by (nonlinear_arith)
                    requires
                        k == 8 * i + j,
                        0 <= j < 8,
                ;
            }
            j = j + 1;
        }
        i = i + 1;
    }
    assert(bits@ =~= spec_bytes_to_bits(data@));
    bits
}

/// Packs bits into bytes, eight at a time, most significant first; a final
/// group shorter than eight fills the high bits of the last byte.
pub fn bits_to_bytes(bits: &[u8]) -> (bytes: Vec<u8>)
    ensures
        bytes@ == spec_bits_to_bytes(bits@),
{
    let n: usize = bits.len();
    let nbytes: usize = if n % 8 == 0 {
        n / 8
    } else {
        n / 8 + 1
    };
    let mut bytes: Vec<u8> = Vec::with_capacity(nbytes);
    let mut k: usize = 0;
    while k < nbytes
        invariant
            n == bits@.len(),
            nbytes == packed_len(n as nat),
            k <= nbytes,
            bytes@.len() == k,
            forall|q: int| 0 <= q < k ==> bytes@[q] == spec_bits_to_bytes(bits@)[q],
        decreases nbytes - k,
    {
        let start: usize = 8 * k;
        let end: usize = if n - start >= 8 {
            start + 8
        } else {
            n
        };
        let mut acc: u8 = 0;
        let mut j: usize = start;
        while j < end
            invariant
                n == bits@.len(),
                start <= j <= end <= n,
                end - start <= 8,
                acc == pack_bits(bits@.subrange(start as int, j as int)),
            decreases end - j,
        {
            let shift: u8 = (7 - (j - start)) as u8;
            acc = acc | (bits[j] << shift);
            proof {
                let s = bits@.subrange(start as int, j + 1);
                assert(s.drop_last() =~= bits@.subrange(start as int, j as int));
            }
            j = j + 1;
        }
        bytes.push(acc);
        k = k + 1;
    }
    assert(bytes@ =~= spec_bits_to_bytes(bits@));
    bytes
}

proof fn lemma_pack_byte(b: u8, chunk: Seq<u8>)
    requires
        chunk.len() == 8,
        forall|j: int| 0 <= j < 8 ==> #[trigger] chunk[j] == (b >> ((7 - j) as u8)) & 1u8,
    ensures
        pack_bits(chunk) == b,
{
    reveal_with_fuel(pack_bits, 9);
    assert(chunk.drop_last().drop_last().drop_last().drop_last().drop_last().drop_last().drop_last().drop_last().len() == 0);
    let c0 = chunk[0];
    let c1 = chunk[1];
    let c2 = chunk[2];
    let c3 = chunk[3];
    let c4 = chunk[4];
    let c5 = chunk[5];
    let c6 = chunk[6];
    let c7 = chunk[7];
    assert(pack_bits(chunk) == ((((((((0u8 | (c0 << 7u8)) | (c1 << 6u8)) | (c2 << 5u8)) | (c3
        << 4u8)) | (c4 << 3u8)) | (c5 << 2u8)) | (c6 << 1u8)) | (c7 << 0u8)));
    assert(c0 == (b >> 7u8) & 1u8 && c1 == (b >> 6u8) & 1u8 && c2 == (b >> 5u8) & 1u8 && c3 == (b
        >> 4u8) & 1u8 && c4 == (b >> 3u8) & 1u8 && c5 == (b >> 2u8) & 1u8 && c6 == (b >> 1u8) & 1u8
        && c7 == (b >> 0u8) & 1u8);
    assert(((((((((0u8 | ((((b >> 7u8) & 1u8)) << 7u8)) | ((((b >> 6u8) & 1u8)) << 6u8)) | ((((b
        >> 5u8) & 1u8)) << 5u8)) | ((((b >> 4u8) & 1u8)) << 4u8)) | ((((b >> 3u8) & 1u8)) << 3u8))
        | ((((b >> 2u8) & 1u8)) << 2u8)) | ((((b >> 1u8) & 1u8)) << 1u8)) | ((((b >> 0u8) & 1u8))
        << 0u8)) == b) by (bit_vector);
}

/// Packing the bits of a byte string gives the byte string back.
pub proof fn lemma_bits_roundtrip(data: Seq<u8>)
    ensures
        spec_bits_to_bytes(spec_bytes_to_bits(data)) == data,
{
    let bits = spec_bytes_to_bits(data);
    let out = spec_bits_to_bytes(bits);
    assert(packed_len(bits.len()) == data.len()) by {
        assert((8 * data.len()) % 8 == 0 && (8 * data.len()) / 8 == data.len()) by (nonlinear_arith);
    }
    assert forall|k: int| 0 <= k < data.len() implies out[k] == data[k] by {
        let chunk = bits.subrange(8 * k, 8 * k + 8);
        assert(8 * k + 8 <= bits.len()) by (nonlinear_arith)
            requires
                0 <= k < data.len(),
                bits.len() == 8 * data.len(),
        ;
        assert forall|j: int| 0 <= j < 8 implies #[trigger] chunk[j] == (data[k] >> ((7 - j) as u8))
            & 1u8 by {
            let m = 8 * k + j;
            assert(m / 8 == k && m % 8 == j) by (nonlinear_arith)
                requires
                    m == 8 * k + j,
                    0 <= j < 8,
            ;
        }
        lemma_pack_byte(data[k], chunk);
    }
    assert(out =~= data);
}

/// Every element of a byte string's bits is 0 or 1.
pub proof fn lemma_bits_are_bits(data: Seq<u8>, k: int)
    requires
        0 <= k < 8 * data.len(),
    ensures
        spec_bytes_to_bits(data)[k] <= 1,
{
    let b = data[k / 8];
    let s = (7 - k % 8) as u8;
    assert((b >> s) & 1u8 <= 1u8) by (bit_vector);
}


/// Bit `7 - j` of a packed chunk of bits is element `j` of the chunk, and 0
/// past its end.
proof fn lemma_pack_bits_bit(chunk: Seq<u8>, j: int)
    requires
        chunk.len() <= 8,
        forall|i: int| 0 <= i < chunk.len() ==> #[trigger] chunk[i] <= 1,
        0 <= j < 8,
    ensures
        (pack_bits(chunk) >> ((7 - j) as u8)) & 1u8 == if j < chunk.len() {
            chunk[j]
        } else {
            0u8
        },
    decreases chunk.len(),
{
    if chunk.len() == 0 {
        let t = (7 - j) as u8;
        assert((0u8 >> t) & 1u8 == 0u8) by (bit_vector);
    } else {
        let rest = chunk.drop_last();
        let p = pack_bits(rest);
        let l = chunk.last();
        let s = (7 - (chunk.len() - 1)) as u8;
        let t = (7 - j) as u8;
        lemma_pack_bits_bit(rest, j);
        assert(pack_bits(chunk) == p | (l << s));
        assert(((p | (l << s)) >> t) & 1u8 == ((p >> t) & 1u8) | (((l << s) >> t) & 1u8)) by (bit_vector);
        assert(l <= 1);
        assert(((l << s) >> t) & 1u8 == if s == t { l } else { 0u8 }) by (bit_vector)
            requires
                l <= 1u8,
                s < 8u8,
                t < 8u8,
        ;
        let bp = (p >> t) & 1u8;
        assert(((p >> t) & 1u8) <= 1u8) by (bit_vector);
        assert(bp | 0u8 == bp) by (bit_vector);
        assert(0u8 | l == l) by (bit_vector);
        if j < rest.len() {
            assert(s != t);
            assert(rest[j] == chunk[j]);
        } else if j == rest.len() {
            assert(s == t);
            assert(bp == 0u8);
        } else {
            assert(s != t);
        }
    }
}

/// Bit `j` (most significant first) of byte `i` of the packed bytes is bit
/// `8 * i + j` of the input, and 0 in the padding of a short last byte.
pub proof fn lemma_bits_to_bytes_bit(bits: Seq<u8>, i: int, j: int)
    requires
        forall|k: int| 0 <= k < bits.len() ==> #[trigger] bits[k] <= 1,
        0 <= i < packed_len(bits.len()),
        0 <= j < 8,
    ensures
        spec_bits_to_bytes(bits).len() == (bits.len() + 7) / 8,
        (spec_bits_to_bytes(bits)[i] >> ((7 - j) as u8)) & 1u8 == if 8 * i + j < bits.len() {
            bits[8 * i + j]
        } else {
            0u8
        },
{
    let end = if 8 * i + 8 <= bits.len() { 8 * i + 8 } else { bits.len() as int };
    assert(8 * i < bits.len()) by {
        if 8 * i >= bits.len() {
            assert(i >= packed_len(bits.len()));
        }
    }
    let chunk = bits.subrange(8 * i, end);
    assert forall|k: int| 0 <= k < chunk.len() implies #[trigger] chunk[k] <= 1 by {
        assert(chunk[k] == bits[8 * i + k]);
    }
    lemma_pack_bits_bit(chunk, j);
    if 8 * i + j < bits.len() {
        assert(j < chunk.len());
        assert(chunk[j] == bits[8 * i + j]);
    }
}

} // verus!
