//! Bit-level embedding into pixel values and the channel schedule.
use vstd::prelude::*;
use crate::crypto::primitives::{sha256, spec_sha256};
use crate::text::{push_decimal_bytes, spec_decimal_bytes, str_equals};

verus! {

/// The pixel value with bit `plane` replaced by the low bits of `bit << plane`.
pub open spec fn spec_embed_bit(pixel_value: u8, bit: u8, plane: u8) -> u8 {
    (pixel_value & !(1u8 << plane)) | (bit << plane)
}

/// Bit `plane` of a pixel value.
pub open spec fn spec_extract_bit(pixel_value: u8, plane: u8) -> u8 {
    (pixel_value >> plane) & 1u8
}

/// Writes `bit` into bit `plane` of `pixel_value`.
pub fn embed_bit(pixel_value: u8, bit: u8, plane: u8) -> (r: u8)
    requires
        plane < 8,
    ensures
        r == spec_embed_bit(pixel_value, bit, plane),
{
    (pixel_value & !(1u8 << plane)) | (bit << plane)
}

/// Reads bit `plane` of `pixel_value`.
pub fn extract_bit(pixel_value: u8, plane: u8) -> (r: u8)
    requires
        plane < 8,
    ensures
        r == spec_extract_bit(pixel_value, plane),
        r <= 1,
{
    let r: u8 = (pixel_value >> plane) & 1u8;
    assert(((pixel_value >> plane) & 1u8) <= 1u8) by (bit_vector);
    r
}

/// Reading back a bit plane gives the bit written there, and every other
/// plane of the pixel keeps its value.
pub proof fn lemma_extract_embed(pixel_value: u8, bit: u8, plane: u8, other: u8)
    requires
        plane < 8,
        other < 8,
        bit <= 1,
    ensures
        spec_extract_bit(spec_embed_bit(pixel_value, bit, plane), plane) == bit,
        other != plane ==> spec_extract_bit(spec_embed_bit(pixel_value, bit, plane), other)
            == spec_extract_bit(pixel_value, other),
{
    assert(bit <= 1 && plane < 8 ==> (((pixel_value & !(1u8 << plane)) | (bit << plane)) >> plane)
        & 1u8 == bit) by (bit_vector);
    assert(bit <= 1 && plane < 8 && other < 8 && other != plane ==> (((pixel_value & !(1u8 << plane)) | (bit
        << plane)) >> other) & 1u8 == (pixel_value >> other) & 1u8) by (bit_vector);
}

/// Entry `i` of the table: 1, 1, 2, 3, 5, 8, ...
pub open spec fn fib_entry(i: nat) -> nat
    decreases i,
{
    if i < 2 {
        1
    } else {
        fib_entry((i - 1) as nat) + fib_entry((i - 2) as nat)
    }
}

/// The table has at least its two leading ones and otherwise `n` entries.
pub open spec fn fib_table_len(n: nat) -> nat {
    if n < 2 {
        2
    } else {
        n
    }
}

/// Table entries never decrease.
pub proof fn lemma_fib_monotone(i: nat, j: nat)
    requires
        i <= j,
    ensures
        fib_entry(i) <= fib_entry(j),
    decreases j,
{
    if i < j {
        lemma_fib_monotone(i, (j - 1) as nat);
    }
}

/// The Fibonacci table starting 1, 1 with `max(n, 2)` entries.
pub fn fibonacci_table(n: usize) -> (fib: Vec<usize>)
    requires
        n < 2 || fib_entry((n - 1) as nat) <= usize::MAX,
    ensures
        fib@.len() == fib_table_len(n as nat),
        forall|i: int| 0 <= i < fib@.len() ==> fib@[i] == fib_entry(i as nat),
{
    let mut fib: Vec<usize> = Vec::new();
    fib.push(1);
    fib.push(1);
    while fib.len() < n
        invariant
            2 <= fib@.len() <= fib_table_len(n as nat),
            n < 2 || fib_entry((n - 1) as nat) <= usize::MAX,
            forall|i: int| 0 <= i < fib@.len() ==> fib@[i] == fib_entry(i as nat),
        decreases n - fib@.len(),
    {
        let len: usize = fib.len();
        proof {
            lemma_fib_monotone(len as nat, (n - 1) as nat);
        }
        let next: usize = fib[len - 1] + fib[len - 2];
        fib.push(next);
    }
    fib
}

/// The channel (0, 1 or 2) that carries bit `index` under a pattern:
/// "sequential" cycles 0, 1, 2; "reverse" cycles 2, 1, 0; "random" takes the
/// first byte of the SHA-256 digest of the index in decimal; any other name
/// follows the Fibonacci table, modulo 3.
pub open spec fn spec_get_channel(index: nat, pattern: Seq<char>) -> nat {
    if pattern == "sequential"@ {
        index % 3
    } else if pattern == "reverse"@ {
        (2 - index % 3) as nat
    } else if pattern == "random"@ {
        spec_sha256(spec_decimal_bytes(index))[0] as nat % 3
    } else {
        fib_entry(index % 50) % 3
    }
}

/// The Fibonacci table of 50 entries fits the machine word.
pub open spec fn fib_table_fits() -> bool {
    fib_entry(49) <= usize::MAX
}

/// The channel that carries bit `index` under a named pattern.
pub fn get_channel(index: usize, pattern: &str) -> (channel: usize)
    requires
        fib_table_fits(),
    ensures
        channel == spec_get_channel(index as nat, pattern@),
        channel < 3,
{
    if str_equals(pattern, "sequential") {
        index % 3
    } else if str_equals(pattern, "reverse") {
        2 - index % 3
    } else if str_equals(pattern, "random") {
        let mut digits: Vec<u8> = Vec::new();
        push_decimal_bytes(&mut digits, index as u64);
        assert(digits@ =~= spec_decimal_bytes(index as nat));
        let digest = sha256(digits.as_slice());
        digest[0] as usize % 3
    } else {
        let fib = fibonacci_table(50);
        fib[index % 50] % 3
    }
}

/// The last entry of the 50-entry table: 12586269025.
pub proof fn lemma_fib_table_top()
    ensures
        fib_entry(49) == 12586269025,
{
    assert(fib_entry(0) == 1);
    assert(fib_entry(1) == 1);
    assert(fib_entry(2) == 2);
    assert(fib_entry(3) == 3);
    assert(fib_entry(4) == 5);
    assert(fib_entry(5) == 8);
    assert(fib_entry(6) == 13);
    assert(fib_entry(7) == 21);
    assert(fib_entry(8) == 34);
    assert(fib_entry(9) == 55);
    assert(fib_entry(10) == 89);
    assert(fib_entry(11) == 144);
    assert(fib_entry(12) == 233);
    assert(fib_entry(13) == 377);
    assert(fib_entry(14) == 610);
    assert(fib_entry(15) == 987);
    assert(fib_entry(16) == 1597);
    assert(fib_entry(17) == 2584);
    assert(fib_entry(18) == 4181);
    assert(fib_entry(19) == 6765);
    assert(fib_entry(20) == 10946);
    assert(fib_entry(21) == 17711);
    assert(fib_entry(22) == 28657);
    assert(fib_entry(23) == 46368);
    assert(fib_entry(24) == 75025);
    assert(fib_entry(25) == 121393);
    assert(fib_entry(26) == 196418);
    assert(fib_entry(27) == 317811);
    assert(fib_entry(28) == 514229);
    assert(fib_entry(29) == 832040);
    assert(fib_entry(30) == 1346269);
    assert(fib_entry(31) == 2178309);
    assert(fib_entry(32) == 3524578);
    assert(fib_entry(33) == 5702887);
    assert(fib_entry(34) == 9227465);
    assert(fib_entry(35) == 14930352);
    assert(fib_entry(36) == 24157817);
    assert(fib_entry(37) == 39088169);
    assert(fib_entry(38) == 63245986);
    assert(fib_entry(39) == 102334155);
    assert(fib_entry(40) == 165580141);
    assert(fib_entry(41) == 267914296);
    assert(fib_entry(42) == 433494437);
    assert(fib_entry(43) == 701408733);
    assert(fib_entry(44) == 1134903170);
    assert(fib_entry(45) == 1836311903);
    assert(fib_entry(46) == 2971215073);
    assert(fib_entry(47) == 4807526976);
    assert(fib_entry(48) == 7778742049);
    assert(fib_entry(49) == 12586269025);
}

/// Whether the machine word holds the 50-entry table.
pub fn fib_table_fits_check() -> (fits: bool)
    ensures
        fits == fib_table_fits(),
{
    proof {
        lemma_fib_table_top();
    }
    usize::MAX as u64 >= 12586269025u64
}


/// The tables for growing sizes agree: the table of size `m` is a prefix of
/// the table of any larger size `n`, whose entries from the third on are the
/// sum of the two before.
pub proof fn lemma_fib_tables_agree(m: nat, n: nat)
    requires
        m <= n,
    ensures
        fib_table_len(m) <= fib_table_len(n),
        Seq::new(fib_table_len(m), |i: int| fib_entry(i as nat)) == Seq::new(
            fib_table_len(n),
            |i: int| fib_entry(i as nat),
        ).take(fib_table_len(m) as int),
        forall|i: int| 2 <= i < fib_table_len(n) ==> #[trigger] fib_entry(i as nat) == fib_entry((i - 1) as nat)
            + fib_entry((i - 2) as nat),
{
    assert(Seq::new(fib_table_len(m), |i: int| fib_entry(i as nat)) =~= Seq::new(
        fib_table_len(n),
        |i: int| fib_entry(i as nat),
    ).take(fib_table_len(m) as int));
}

} // verus!
