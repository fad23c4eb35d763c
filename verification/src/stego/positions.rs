//! Pixel position schedules: the order in which payload bits visit pixels.
use vstd::prelude::*;
use vstd::set_lib::set_int_range;
use vstd::slice::slice_to_vec;
use crate::crypto::primitives::{sha256, spec_sha256};
use crate::text::str_equals;
use std::collections::HashSet;

verus! {

/// `n` is prime: at least 2 and without a divisor `d >= 2` with `d * d <= n`.
pub open spec fn is_prime(n: int) -> bool {
    n >= 2 && forall|d: int| 2 <= d && d * d <= n ==> #[trigger] (n % d) != 0
}

/// `j` survives sieving with every factor below `i`.
pub open spec fn unmarked(j: int, i: int) -> bool {
    j >= 2 && forall|d: int| 2 <= d < i && d * d <= j ==> #[trigger] (j % d) != 0
}

/// The primes below `k`, ascending.
pub open spec fn primes_below(k: nat) -> Seq<usize>
    decreases k,
{
    if k == 0 {
        Seq::empty()
    } else if is_prime(k - 1) {
        primes_below((k - 1) as nat).push((k - 1) as usize)
    } else {
        primes_below((k - 1) as nat)
    }
}

/// The primes up to and including `limit`, ascending.
pub open spec fn spec_sieve_primes(limit: nat) -> Seq<usize> {
    if limit < 2 {
        Seq::empty()
    } else {
        primes_below(limit + 1)
    }
}

proof fn lemma_divides_transitive(m: int, i: int, d: int)
    requires
        m >= 0,
        i > 0,
        d > 0,
        m % i == 0,
        i % d == 0,
    ensures
        m % d == 0,
{
    vstd::arithmetic::div_mod::lemma_fundamental_div_mod(m, i);
    vstd::arithmetic::div_mod::lemma_fundamental_div_mod(i, d);
    let a = m / i;
    let b = i / d;
    assert(m == (a * b) * d) by (nonlinear_arith)
        requires
            m == i * a,
            i == d * b,
    ;
    vstd::arithmetic::div_mod::lemma_mod_multiples_basic(a * b, d);
}

/// The primes up to and including `limit` by the sieve of Eratosthenes.
pub fn sieve_primes(limit: usize) -> (primes: Vec<usize>)
    requires
        limit <= usize::MAX / 4,
    ensures
        primes@ == spec_sieve_primes(limit as nat),
{
    if limit < 2 {
        return Vec::new();
    }
    let mut flags: Vec<bool> = vec![true; limit + 1];
    flags.set(0, false);
    flags.set(1, false);
    let mut i: usize = 2;
    while i * i <= limit
        invariant
            2 <= i <= limit + 1,
            limit <= usize::MAX / 4,
            (i - 1) * (i - 1) <= limit,
            i * i <= usize::MAX,
            flags@.len() == limit + 1,
            forall|m: int| 0 <= m <= limit ==> flags@[m] == unmarked(m, i as int),
        decreases limit + 1 - i,
    {
        assert(i <= limit) by (nonlinear_arith)
            requires
                i * i <= limit,
                i >= 2,
        ;
        if flags[i] {
            proof {
                vstd::arithmetic::div_mod::lemma_mod_multiples_basic(i as int, i as int);
            }
            let mut j: usize = i * i;
            while j <= limit
                invariant
                    2 <= i <= limit,
                    i * i <= limit,
                    limit <= usize::MAX / 4,
                    flags@.len() == limit + 1,
                    i * i <= j <= limit + i,
                    j % i == 0,
                    forall|m: int|
                        #![trigger flags@[m]]
                        0 <= m <= limit ==> flags@[m] == (unmarked(m, i as int) && !(m % (i as int)
                            == 0 && i * i <= m && m < j)),
                decreases limit + i - j,
            {
                let ghost before = flags@;
                flags.set(j, false);
                proof {
                    assert((j + i) % (i as int) == 0) by {
                        vstd::arithmetic::div_mod::lemma_mod_add_multiples_vanish(j as int, i as int);
                    }
                    let nj = j + i;
                    assert forall|m: int| 0 <= m <= limit implies flags@[m] == (unmarked(m, i as int)
                        && !(m % (i as int) == 0 && i * i <= m && m < nj)) by {
                        if m == j {
                            assert(m % (i as int) == 0 && i * i <= m && m < nj);
                            assert(!flags@[m]);
                        } else if m < j || m >= nj {
                            assert(flags@[m] == before[m]);
                            assert(before[m] == (unmarked(m, i as int) && !(m % (i as int) == 0 && i
                                * i <= m && m < j)));
                        } else {
                            assert(flags@[m] == before[m]);
                            assert(j < m < j + i);
                            if m % (i as int) == 0 {
                                vstd::arithmetic::div_mod::lemma_fundamental_div_mod(m, i as int);
                                vstd::arithmetic::div_mod::lemma_fundamental_div_mod(j as int, i as int);
                                let a = m / (i as int);
                                let b = (j as int) / (i as int);
                                assert(false) by (nonlinear_arith)
                                    requires
                                        m == i * a,
                                        j == i * b,
                                        j < m < j + i,
                                        i > 0,
                                ;
                            }
                        }
                    }
                }
                j = j + i;
            }
            assert forall|m: int| 0 <= m <= limit implies flags@[m] == unmarked(m, i + 1) by {
                if m >= 2 && m % (i as int) == 0 && i * i <= m {
                    assert(!unmarked(m, i + 1));
                }
                if m >= 2 && !unmarked(m, i as int) {
                    let d = choose|d: int| 2 <= d < i && d * d <= m && #[trigger] (m % d) == 0;
                    assert(!unmarked(m, i + 1));
                }
                if unmarked(m, i as int) && !(m % (i as int) == 0 && i * i <= m) {
                    assert forall|d: int| 2 <= d < i + 1 && d * d <= m implies #[trigger] (m % d)
                        != 0 by {
                        if d < i {
                        } else {
                            assert(d == i);
                        }
                    }
                }
            }
        } else {
            assert forall|m: int| 0 <= m <= limit implies flags@[m] == unmarked(m, i + 1) by {
                if m >= 2 && !unmarked(m, i as int) {
                    let d = choose|d: int| 2 <= d < i && d * d <= m && #[trigger] (m % d) == 0;
                    assert(!unmarked(m, i + 1));
                }
                if unmarked(m, i as int) {
                    assert forall|d: int| 2 <= d < i + 1 && d * d <= m implies #[trigger] (m % d)
                        != 0 by {
                        if d == i {
                            assert(!unmarked(i as int, i as int));
                            let q = choose|q: int| 2 <= q < i && q * q <= i && #[trigger] ((i as int) % q) == 0;
                            if m % d == 0 {
                                lemma_divides_transitive(m, i as int, q);
                                assert(i <= i * i) by (nonlinear_arith)
                                    requires
                                        i >= 1,
                                ;
                                assert(q * q <= m) by (nonlinear_arith)
                                    requires
                                        q * q <= i,
                                        i <= i * i,
                                        i * i <= m,
                                        d == i,
                                ;
                            }
                        }
                    }
                }
            }
        }
        assert((i + 1) * (i + 1) <= usize::MAX) by (nonlinear_arith)
            requires
                i * i <= limit,
                limit <= usize::MAX / 4,
                i >= 2,
        ;
        i = i + 1;
    }
    assert forall|m: int| 0 <= m <= limit implies flags@[m] == is_prime(m) by {
        if unmarked(m, i as int) {
            assert forall|d: int| 2 <= d && d * d <= m implies #[trigger] (m % d) != 0 by {
                if d >= i {
                    assert(d * d >= i * i) by (nonlinear_arith)
                        requires
                            d >= i,
                            i >= 0,
                    ;
                }
            }
        }
    }
    let mut primes: Vec<usize> = Vec::new();
    let mut k: usize = 0;
    while k <= limit
        invariant
            k <= limit + 1,
            limit <= usize::MAX / 4,
            flags@.len() == limit + 1,
            forall|m: int| 0 <= m <= limit ==> flags@[m] == is_prime(m),
            primes@ == primes_below(k as nat),
        decreases limit + 1 - k,
    {
        if flags[k] {
            primes.push(k);
        }
        k = k + 1;
    }
    primes
}

/// Byte `i` of the seed, or 0 past its end.
pub open spec fn seed_byte(seed: Seq<u8>, i: int) -> u8 {
    if i < seed.len() {
        seed[i]
    } else {
        0
    }
}

/// The seed's first four bytes (zero-padded) read as a big-endian integer.
pub open spec fn spec_seed_int(seed: Seq<u8>) -> u32 {
    (seed_byte(seed, 0) * 16777216 + seed_byte(seed, 1) * 65536 + seed_byte(seed, 2) * 256
        + seed_byte(seed, 3)) as u32
}

/// Candidates `0 .. k` taken in order, skipping repeats, until `limit`
/// positions have been kept.
pub open spec fn collect_distinct(cands: Seq<(usize, usize)>, limit: nat, k: nat) -> Seq<
    (usize, usize),
>
    decreases k,
{
    if k == 0 {
        Seq::empty()
    } else {
        let prev = collect_distinct(cands, limit, (k - 1) as nat);
        if prev.len() >= limit || prev.contains(cands[k - 1]) {
            prev
        } else {
            prev.push(cands[k - 1])
        }
    }
}

/// A position lies inside a `width` by `height` image.
pub open spec fn in_bounds(p: (usize, usize), width: nat, height: nat) -> bool {
    p.0 < width && p.1 < height
}

/// The kept positions are distinct and are candidates; they number at most
/// `limit`.
pub proof fn lemma_collect_distinct(cands: Seq<(usize, usize)>, limit: nat, k: nat)
    requires
        k <= cands.len(),
    ensures
        collect_distinct(cands, limit, k).no_duplicates(),
        collect_distinct(cands, limit, k).len() <= limit || (limit == 0 && k == 0),
        forall|j: int|
            0 <= j < collect_distinct(cands, limit, k).len() ==> exists|i: int|
                0 <= i < k && cands[i] == #[trigger] collect_distinct(cands, limit, k)[j],
    decreases k,
{
    if k > 0 {
        lemma_collect_distinct(cands, limit, (k - 1) as nat);
        let prev = collect_distinct(cands, limit, (k - 1) as nat);
        let cur = collect_distinct(cands, limit, k);
        if !(prev.len() >= limit || prev.contains(cands[k - 1])) {
            assert forall|j: int| 0 <= j < cur.len() implies exists|i: int|
                0 <= i < k && cands[i] == #[trigger] cur[j] by {
                if j < prev.len() {
                    assert(cur[j] == prev[j]);
                    let i = choose|i: int| 0 <= i < k - 1 && cands[i] == #[trigger] prev[j];
                } else {
                    assert(cands[k - 1] == cur[j]);
                }
            }
        }
    }
}

/// Once `limit` positions are kept, later candidates change nothing.
proof fn lemma_collect_stops(cands: Seq<(usize, usize)>, limit: nat, k: nat, n: nat)
    requires
        k <= n,
        collect_distinct(cands, limit, k).len() >= limit,
    ensures
        collect_distinct(cands, limit, n) == collect_distinct(cands, limit, k),
    decreases n - k,
{
    if n > k {
        lemma_collect_stops(cands, limit, k, (n - 1) as nat);
    }
}

/// The index of a cell in row-major order.
pub open spec fn cell_key(p: (usize, usize), width: nat) -> int {
    p.1 * width + p.0
}

/// `seen` holds the index of a cell inside the image exactly when the cell is
/// kept, and every kept cell lies inside the image.
pub open spec fn seen_matches(seen: Set<u128>, out: Seq<(usize, usize)>, width: nat, height: nat) -> bool {
    &&& width > 0
    &&& forall|j: int| 0 <= j < out.len() ==> in_bounds(#[trigger] out[j], width, height)
    &&& forall|p: (usize, usize)|
        #![trigger seen.contains(cell_key(p, width) as u128)]
        #![trigger out.contains(p)]
        in_bounds(p, width, height) ==> (seen.contains(cell_key(p, width) as u128) <==> out.contains(p))
}

pub(crate) proof fn lemma_key_roundtrip(p: (usize, usize), width: nat, height: nat)
    requires
        in_bounds(p, width, height),
        width <= u64::MAX,
    ensures
        0 <= cell_key(p, width) < width * height,
        cell_key(p, width) <= u128::MAX,
        (cell_key(p, width) % width as int) as usize == p.0,
        (cell_key(p, width) / width as int) as usize == p.1,
{
    assert(0 <= p.1 * width + p.0 < width * height) by (nonlinear_arith)
        requires
            p.0 < width,
            p.1 < height,
    ;
    assert(p.1 * width + p.0 <= u128::MAX) by (nonlinear_arith)
        requires
            p.0 < width,
            p.1 <= u64::MAX,
            width <= u64::MAX,
    ;
    vstd::arithmetic::div_mod::lemma_fundamental_div_mod_converse_mod(
        p.1 * width + p.0,
        (width as int),
        p.1 as int,
        p.0 as int,
    );
    vstd::arithmetic::div_mod::lemma_fundamental_div_mod_converse_div(
        p.1 * width + p.0,
        (width as int),
        p.1 as int,
        p.0 as int,
    );
}

proof fn lemma_key_of_index(k: int, width: nat, height: nat)
    requires
        width > 0,
        0 <= k < width * height,
    ensures
        in_bounds(((k % width as int) as usize, (k / width as int) as usize), width, height),
        0 <= k / (width as int) < height,
        0 <= k % (width as int) < width,
{
    vstd::arithmetic::div_mod::lemma_fundamental_div_mod(k, width as int);
    assert(k / (width as int) < height) by (nonlinear_arith)
        requires
            0 <= k < width * height,
            k == width * (k / width as int) + k % (width as int),
            0 <= k % (width as int),
            width > 0,
    ;
    assert(k / (width as int) >= 0) by (nonlinear_arith)
        requires
            0 <= k,
            width > 0,
    ;
}

/// Appends a candidate unless it is already kept.
fn push_if_new(
    out: &mut Vec<(usize, usize)>,
    seen: &mut HashSet<u128>,
    width: usize,
    height: usize,
    cand: (usize, usize),
)
    requires
        in_bounds(cand, width as nat, height as nat),
        seen_matches(old(seen)@, old(out)@, width as nat, height as nat),
    ensures
        seen_matches(final(seen)@, final(out)@, width as nat, height as nat),
        final(out)@ == if old(out)@.contains(cand) {
            old(out)@
        } else {
            old(out)@.push(cand)
        },
{
    broadcast use vstd::std_specs::hash::group_hash_axioms;

    proof {
        lemma_key_roundtrip(cand, width as nat, height as nat);
    }
    assert(cand.1 as u128 * width as u128 + cand.0 as u128 <= u128::MAX) by (nonlinear_arith)
        requires
            cand.1 <= u64::MAX,
            width <= u64::MAX,
            cand.0 <= u64::MAX,
    ;
    let key: u128 = cand.1 as u128 * width as u128 + cand.0 as u128;
    assert(key == cell_key(cand, width as nat) as u128);
    assert(seen@.contains(key) == out@.contains(cand));
    let ghost before = out@;
    let ghost seen_before = seen@;
    if seen.insert(key) {
        out.push(cand);
        proof {
            assert forall|p: (usize, usize)| in_bounds(p, width as nat, height as nat) implies (seen@.contains(
                cell_key(p, width as nat) as u128,
            ) <==> out@.contains(p)) by {
                lemma_key_roundtrip(p, width as nat, height as nat);
                if p == cand {
                    assert(out@[out@.len() - 1] == p);
                } else {
                    assert(cell_key(p, width as nat) != cell_key(cand, width as nat));
                    assert(cell_key(p, width as nat) as u128 != key);
                    assert(seen_before.contains(cell_key(p, width as nat) as u128) == before.contains(p));
                    if before.contains(p) {
                        let j = choose|j: int| 0 <= j < before.len() && before[j] == p;
                        assert(out@[j] == p);
                    }
                    if out@.contains(p) {
                        let j = choose|j: int| 0 <= j < out@.len() && out@[j] == p;
                        assert(j < before.len());
                        assert(before[j] == p);
                    }
                }
            }
        }
    }
}

/// The prime method's candidates: each prime `p` up to `width * height`,
/// shifted by `offset`, wrapped into the image and read as column and row.
pub open spec fn prime_candidates(primes: Seq<usize>, offset: nat, width: nat, height: nat) -> Seq<
    (usize, usize),
> {
    Seq::new(
        primes.len(),
        |k: int|
            {
                let pos = (primes[k] + offset) % ((width * height) as int);
                ((pos % width as int) as usize, (pos / width as int) as usize)
            },
    )
}

/// The positions of the prime method.
pub open spec fn spec_prime_positions(width: nat, height: nat, seed: Seq<u8>, count: nat) -> Seq<
    (usize, usize),
> {
    let primes = spec_sieve_primes(width * height);
    let cands = prime_candidates(primes, (spec_seed_int(seed) % 1000) as nat, width, height);
    collect_distinct(cands, if count == 0 { 1 } else { count }, cands.len())
}

/// The walk state of the spiral method: the current cell, the heading, the
/// current leg length, the steps taken on this leg, the turns made, the
/// positions kept so far and every cell walked, in order.
pub struct SpiralState {
    pub x: int,
    pub y: int,
    pub dx: int,
    pub dy: int,
    pub steps: int,
    pub in_dir: int,
    pub turns: int,
    pub kept: Seq<(usize, usize)>,
    pub path: Seq<(int, int)>,
}

/// The spiral starts at the image centre, heading in +x, with legs of length 1.
pub open spec fn spiral_start(width: nat, height: nat) -> SpiralState {
    SpiralState {
        x: (width / 2) as int,
        y: (height / 2) as int,
        dx: 1,
        dy: 0,
        steps: 1,
        in_dir: 0,
        turns: 0,
        kept: seq![((width / 2) as usize, (height / 2) as usize)],
        path: seq![((width / 2) as int, (height / 2) as int)],
    }
}

/// One step of the spiral: move one cell, keep it if it lies in the image,
/// and after a full leg turn a quarter (legs grow by one every second turn).
pub open spec fn spiral_step(s: SpiralState, width: nat, height: nat) -> SpiralState {
    let x = s.x + s.dx;
    let y = s.y + s.dy;
    let in_dir = s.in_dir + 1;
    let kept = if 0 <= x < width && 0 <= y < height {
        s.kept.push((x as usize, y as usize))
    } else {
        s.kept
    };
    let path = s.path.push((x, y));
    if in_dir >= s.steps {
        let turns = s.turns + 1;
        SpiralState {
            x,
            y,
            dx: -s.dy,
            dy: s.dx,
            steps: if turns % 2 == 0 { s.steps + 1 } else { s.steps },
            in_dir: 0,
            turns,
            kept,
            path,
        }
    } else {
        SpiralState { x, y, dx: s.dx, dy: s.dy, steps: s.steps, in_dir, turns: s.turns, kept, path }
    }
}

/// The spiral after `n` rounds: a round is a step, taken only while fewer
/// than `count` positions are kept and no more than `width * height`.
pub open spec fn spiral_run(width: nat, height: nat, count: nat, n: nat) -> SpiralState
    decreases n,
{
    if n == 0 {
        spiral_start(width, height)
    } else {
        let s = spiral_run(width, height, count, (n - 1) as nat);
        if s.kept.len() >= count || s.kept.len() > width * height {
            s
        } else {
            spiral_step(s, width, height)
        }
    }
}

/// A bound on the rounds of the spiral: the square of side
/// `2 * (width + height) + 1` around the centre holds the whole image, and
/// the spiral has walked it after that many steps; `lemma_spiral_cap_suffices`
/// shows that no later round changes anything.
pub open spec fn spiral_cap(width: nat, height: nat) -> nat {
    (2 * (width + height) + 1) * (2 * (width + height) + 1)
}

/// The positions of the spiral method: the first `count` kept cells.
pub open spec fn spec_spiral_positions(width: nat, height: nat, count: nat) -> Seq<(usize, usize)> {
    let kept = spiral_run(width, height, count, spiral_cap(width, height)).kept;
    if kept.len() <= count {
        kept
    } else {
        kept.take(count as int)
    }
}

/// A stopped spiral stays stopped.
proof fn lemma_spiral_stops(width: nat, height: nat, count: nat, k: nat, n: nat)
    requires
        k <= n,
        spiral_run(width, height, count, k).kept.len() >= count || spiral_run(
            width,
            height,
            count,
            k,
        ).kept.len() > width * height,
    ensures
        spiral_run(width, height, count, n) == spiral_run(width, height, count, k),
    decreases n - k,
{
    if n > k {
        lemma_spiral_stops(width, height, count, k, (n - 1) as nat);
    }
}

/// The exec walk registers agree with a spiral state.
pub open spec fn spiral_matches(
    s: SpiralState,
    x: isize,
    y: isize,
    dx: isize,
    dy: isize,
    steps: usize,
    in_dir: usize,
    turns: usize,
    kept: Seq<(usize, usize)>,
) -> bool {
    &&& s.x == x
    &&& s.y == y
    &&& s.dx == dx
    &&& s.dy == dy
    &&& s.steps == steps
    &&& s.in_dir == in_dir
    &&& s.turns == turns
    &&& s.kept == kept
}

/// The four big-endian bytes of `i`.
pub open spec fn u32_be_bytes(i: u32) -> Seq<u8> {
    seq![(i / 16777216) as u8, ((i / 65536) % 256) as u8, ((i / 256) % 256) as u8, (i % 256) as u8]
}

/// Bytes `at .. at + 4` of `b` read as a big-endian integer.
pub open spec fn be_u32_at(b: Seq<u8>, at: int) -> nat {
    (b[at] * 16777216 + b[at + 1] * 65536 + b[at + 2] * 256 + b[at + 3]) as nat
}

/// The cell that a digest picks: its first word modulo the width, its
/// second modulo the height.
pub open spec fn spec_random_candidate(digest: Seq<u8>, width: nat, height: nat) -> (usize, usize) {
    ((be_u32_at(digest, 0) % width) as usize, (be_u32_at(digest, 4) % height) as usize)
}

/// The random method's `n` candidates: candidate `i` is picked by the
/// SHA-256 digest of the seed followed by `i` in four big-endian bytes.
pub open spec fn random_candidates(seed: Seq<u8>, width: nat, height: nat, n: nat) -> Seq<
    (usize, usize),
> {
    Seq::new(
        n,
        |i: int| spec_random_candidate(spec_sha256(seed + u32_be_bytes(i as u32)), width, height),
    )
}

/// The positions of the random method: distinct candidates, in the order
/// found, from the first `100 * count + 1`, until `count` are kept.
pub open spec fn spec_random_positions(width: nat, height: nat, seed: Seq<u8>, count: nat) -> Seq<
    (usize, usize),
> {
    collect_distinct(
        random_candidates(seed, width, height, count * 100 + 1),
        count,
        count * 100 + 1,
    )
}

/// The Henon method's candidates: the orbit's scaled coordinates wrapped
/// into the image.
pub open spec fn henon_candidates(orbit: Seq<(usize, usize)>, width: nat, height: nat) -> Seq<
    (usize, usize),
> {
    Seq::new(
        orbit.len(),
        |k: int| ((orbit[k].0 as nat % width) as usize, (orbit[k].1 as nat % height) as usize),
    )
}

/// The positions of the Henon method: distinct candidates among the first
/// `100 * count` orbit points, until `count` are kept.
pub open spec fn spec_henon_positions(
    width: nat,
    height: nat,
    count: nat,
    orbit: Seq<(usize, usize)>,
) -> Seq<(usize, usize)> {
    let n = if orbit.len() < count * 100 { orbit.len() } else { count * 100 };
    collect_distinct(henon_candidates(orbit, width, height), count, n)
}

/// What each method needs of its inputs.
pub open spec fn generate_requires(
    width: nat,
    height: nat,
    count: nat,
    method: Seq<char>,
) -> bool {
    if method == "prime"@ {
        width * height <= usize::MAX / 4
    } else if method == "spiral"@ {
        &&& count <= width * height || width * height == 0
        &&& width * height <= usize::MAX
        &&& 2 * (width + height) + 2 <= isize::MAX
    } else if method == "random"@ {
        &&& count * 100 <= u32::MAX
        &&& count > 0 ==> width > 0 && height > 0
    } else {
        &&& count * 100 <= usize::MAX
        &&& count > 0 ==> width > 0 && height > 0
    }
}

/// The positions of a named method; any other name selects the Henon method.
pub open spec fn spec_generate(
    width: nat,
    height: nat,
    seed: Seq<u8>,
    count: nat,
    method: Seq<char>,
    orbit: Seq<(usize, usize)>,
) -> Seq<(usize, usize)> {
    if method == "prime"@ {
        spec_prime_positions(width, height, seed, count)
    } else if method == "spiral"@ {
        spec_spiral_positions(width, height, count)
    } else if method == "random"@ {
        spec_random_positions(width, height, seed, count)
    } else {
        spec_henon_positions(width, height, count, orbit)
    }
}

/// The cell that a digest picks for the random method.
pub fn random_candidate(digest: &[u8], width: usize, height: usize) -> (cell: (usize, usize))
    requires
        digest@.len() >= 8,
        width > 0,
        height > 0,
    ensures
        cell == spec_random_candidate(digest@, width as nat, height as nat),
{
    let a: u32 = digest[0] as u32 * 16777216 + digest[1] as u32 * 65536 + digest[2] as u32 * 256
        + digest[3] as u32;
    let b: u32 = digest[4] as u32 * 16777216 + digest[5] as u32 * 65536 + digest[6] as u32 * 256
        + digest[7] as u32;
    (a as usize % width, b as usize % height)
}

pub struct PositionGenerator {
    width: usize,
    height: usize,
    seed: Vec<u8>,
}

impl PositionGenerator {
    pub closed spec fn width(&self) -> nat {
        self.width as nat
    }

    pub closed spec fn height(&self) -> nat {
        self.height as nat
    }

    pub closed spec fn seed(&self) -> Seq<u8> {
        self.seed@
    }

    /// A generator for a `width` by `height` image and a seed.
    pub fn new(width: usize, height: usize, seed: &[u8]) -> (g: Self)
        ensures
            g.width() == width,
            g.height() == height,
            g.seed() == seed@,
    {
        PositionGenerator { width, height, seed: slice_to_vec(seed) }
    }

    fn seed_int(&self) -> (v: u32)
        ensures
            v == spec_seed_int(self.seed()),
    {
        let b0: u32 = if self.seed.len() > 0 { self.seed[0] as u32 } else { 0 };
        let b1: u32 = if self.seed.len() > 1 { self.seed[1] as u32 } else { 0 };
        let b2: u32 = if self.seed.len() > 2 { self.seed[2] as u32 } else { 0 };
        let b3: u32 = if self.seed.len() > 3 { self.seed[3] as u32 } else { 0 };
        b0 * 16777216 + b1 * 65536 + b2 * 256 + b3
    }

    /// Positions along a square spiral out of the image centre (the centre
    /// first, even in an empty image), the first `count` cells that lie in
    /// the image; the walk has ended by then, so more rounds would change
    /// nothing.
    pub fn spiral(&self, count: usize) -> (positions: Vec<(usize, usize)>)
        requires
            count <= self.width() * self.height() || self.width() * self.height() == 0,
            self.width() * self.height() <= usize::MAX,
            2 * (self.width() + self.height()) + 2 <= isize::MAX,
        ensures
            positions@ == spec_spiral_positions(self.width(), self.height(), count as nat),
            forall|n: nat|
                n >= spiral_cap(self.width(), self.height()) ==> #[trigger] spiral_run(
                    self.width(),
                    self.height(),
                    count as nat,
                    n,
                ) == spiral_run(self.width(), self.height(), count as nat, spiral_cap(self.width(), self.height())),
    {
        proof {
            assert forall|n: nat| n >= spiral_cap(self.width(), self.height()) implies #[trigger] spiral_run(
                self.width(),
                self.height(),
                count as nat,
                n,
            ) == spiral_run(self.width(), self.height(), count as nat, spiral_cap(self.width(), self.height())) by {
                lemma_spiral_cap_suffices(self.width(), self.height(), count as nat, n);
            }
        }
        let width: usize = self.width;
        let height: usize = self.height;
        let ghost w = width as nat;
        let ghost h = height as nat;
        let area: usize = width * height;
        let cx: usize = width / 2;
        let cy: usize = height / 2;
        let mut positions: Vec<(usize, usize)> = Vec::new();
        positions.push((cx, cy));
        let mut x: isize = cx as isize;
        let mut y: isize = cy as isize;
        let mut dx: isize = 1;
        let mut dy: isize = 0;
        let mut steps: usize = 1;
        let mut in_dir: usize = 0;
        let mut turns: usize = 0;
        let ghost mut round: nat = 0;
        assert(positions@ == seq![(cx, cy)]);
        while positions.len() < count && positions.len() <= area
            invariant
                w == width,
                h == height,
                area == w * h,
                count <= w * h || w * h == 0,
                2 * (w + h) + 2 <= isize::MAX,
                cx == w / 2,
                cy == h / 2,
                round <= spiral_cap(w, h),
                spiral_matches(
                    spiral_run(w, h, count as nat, round),
                    x,
                    y,
                    dx,
                    dy,
                    steps,
                    in_dir,
                    turns,
                    positions@,
                ),
            decreases spiral_cap(w, h) - round,
        {
            proof {
                lemma_spiral_live(w, h, count as nat, round);
            }
            x = x + dx;
            y = y + dy;
            in_dir = in_dir + 1;
            if 0 <= x && x < width as isize && 0 <= y && y < height as isize {
                positions.push((x as usize, y as usize));
            }
            if in_dir >= steps {
                in_dir = 0;
                turns = turns + 1;
                let turned: isize = dx;
                dx = -dy;
                dy = turned;
                if turns % 2 == 0 {
                    steps = steps + 1;
                }
            }
            proof {
                round = round + 1;
            }
        }
        proof {
            lemma_spiral_stops(w, h, count as nat, round, spiral_cap(w, h));
        }
        if positions.len() > count {
            positions.truncate(count);
        }
        positions
    }

    /// Positions picked by hashing the seed with a counter, at most
    /// `100 * count + 1` hashes.
    pub fn random(&self, count: usize) -> (positions: Vec<(usize, usize)>)
        requires
            count * 100 <= u32::MAX,
            count > 0 ==> self.width() > 0 && self.height() > 0,
        ensures
            positions@ == spec_random_positions(self.width(), self.height(), self.seed(), count as nat),
    {
        let ghost w = self.width();
        let ghost h = self.height();
        let ghost n = count as nat * 100 + 1;
        let ghost cands = random_candidates(self.seed(), w, h, n);
        let limit: u32 = count as u32 * 100;
        let mut positions: Vec<(usize, usize)> = Vec::new();
        if count == 0 {
            assert(collect_distinct(cands, 0, 0).len() == 0);
            return positions;
        }
        let mut seen: HashSet<u128> = HashSet::new();
        let mut i: u32 = 0;
        while i <= limit && positions.len() < count
            invariant
                w == self.width,
                h == self.height,
                w > 0,
                h > 0,
                limit == count * 100,
                limit < u32::MAX,
                n == limit + 1,
                i <= n,
                cands == random_candidates(self.seed(), w, h, n),
                seen_matches(seen@, positions@, w, h),
                positions@ == collect_distinct(cands, count as nat, i as nat),
            decreases n - i,
        {
            let mut input: Vec<u8> = slice_to_vec(self.seed.as_slice());
            input.push((i / 16777216) as u8);
            input.push(((i / 65536) % 256) as u8);
            input.push(((i / 256) % 256) as u8);
            input.push((i % 256) as u8);
            assert(input@ == self.seed() + u32_be_bytes(i));
            let digest = sha256(input.as_slice());
            let cand = random_candidate(digest.as_slice(), self.width, self.height);
            assert(cand == cands[i as int]);
            push_if_new(&mut positions, &mut seen, self.width, self.height, cand);
            i = i + 1;
        }
        proof {
            if i < n {
                lemma_collect_stops(cands, count as nat, i as nat, n);
            }
        }
        positions
    }

    /// Positions from a Henon orbit: `orbit[k]` holds the scaled coordinates
    /// of the orbit's point `k` after warm-up; up to `100 * count` points
    /// are read.
    pub fn henon_positions(&self, count: usize, orbit: &[(usize, usize)]) -> (positions: Vec<
        (usize, usize),
    >)
        requires
            count * 100 <= usize::MAX,
            count > 0 ==> self.width() > 0 && self.height() > 0,
        ensures
            positions@ == spec_henon_positions(self.width(), self.height(), count as nat, orbit@),
            count >= 1 && orbit@.len() >= 1 ==> positions@.len() >= 1 && positions@[0] == (
                (orbit@[0].0 as nat % self.width()) as usize,
                (orbit@[0].1 as nat % self.height()) as usize,
            ),
    {
        proof {
            if count >= 1 {
                lemma_henon_cells(self.width(), self.height(), count as nat, orbit@);
            }
        }
        let ghost w = self.width();
        let ghost h = self.height();
        let ghost cands = henon_candidates(orbit@, w, h);
        let mut positions: Vec<(usize, usize)> = Vec::new();
        if count == 0 {
            return positions;
        }
        let n: usize = if orbit.len() < count * 100 { orbit.len() } else { count * 100 };
        let mut seen: HashSet<u128> = HashSet::new();
        let mut k: usize = 0;
        while k < n && positions.len() < count
            invariant
                w == self.width,
                h == self.height,
                w > 0,
                h > 0,
                n <= orbit@.len(),
                k <= n,
                cands == henon_candidates(orbit@, w, h),
                seen_matches(seen@, positions@, w, h),
                positions@ == collect_distinct(cands, count as nat, k as nat),
            decreases n - k,
        {
            let (rx, ry) = orbit[k];
            let cand: (usize, usize) = (rx % self.width, ry % self.height);
            assert(cand == cands[k as int]);
            push_if_new(&mut positions, &mut seen, self.width, self.height, cand);
            k = k + 1;
        }
        proof {
            if k < n {
                lemma_collect_stops(cands, count as nat, k as nat, n as nat);
            }
        }
        positions
    }

    /// The positions of the named method: "prime", "spiral", "random", and
    /// any other name for the Henon method, which reads `henon_orbit`.
    pub fn generate(&self, count: usize, method: &str, henon_orbit: &[(usize, usize)]) -> (positions:
        Vec<(usize, usize)>)
        requires
            generate_requires(self.width(), self.height(), count as nat, method@),
        ensures
            positions@ == spec_generate(
                self.width(),
                self.height(),
                self.seed(),
                count as nat,
                method@,
                henon_orbit@,
            ),
    {
        if str_equals(method, "prime") {
            self.prime(count)
        } else if str_equals(method, "spiral") {
            self.spiral(count)
        } else if str_equals(method, "random") {
            self.random(count)
        } else {
            self.henon_positions(count, henon_orbit)
        }
    }

    /// Positions at primes up to the pixel count, shifted by the seed.
    pub fn prime(&self, count: usize) -> (positions: Vec<(usize, usize)>)
        requires
            self.width() * self.height() <= usize::MAX / 4,
        ensures
            positions@ == spec_prime_positions(self.width(), self.height(), self.seed(), count as nat),
    {
        let width: usize = self.width;
        let height: usize = self.height;
        let limit: usize = width * height;
        let primes = sieve_primes(limit);
        let offset: usize = (self.seed_int() % 1000) as usize;
        let lim: usize = if count == 0 { 1 } else { count };
        let ghost cands = prime_candidates(primes@, offset as nat, width as nat, height as nat);
        let mut positions: Vec<(usize, usize)> = Vec::new();
        if primes.len() == 0 {
            return positions;
        }
        assert(primes@[0] == primes@[0]);
        proof {
            assert(limit >= 2);
        }
        let mut seen: HashSet<u128> = HashSet::new();
        let mut k: usize = 0;
        while k < primes.len() && positions.len() < lim
            invariant
                limit == width * height,
                width as nat == self.width(),
                height as nat == self.height(),
                limit <= usize::MAX / 4,
                limit >= 2,
                width > 0,
                k <= primes@.len(),
                primes@ == spec_sieve_primes(limit as nat),
                cands == prime_candidates(primes@, offset as nat, width as nat, height as nat),
                offset < 1000,
                seen_matches(seen@, positions@, width as nat, height as nat),
                positions@ == collect_distinct(cands, lim as nat, k as nat),
            decreases primes@.len() - k,
        {
            let p: usize = primes[k];
            proof {
                lemma_sieve_bound(limit as nat, k as int);
            }
            let pos: usize = (p + offset) % limit;
            let cand: (usize, usize) = (pos % width, pos / width);
            proof {
                lemma_key_of_index(pos as int, width as nat, height as nat);
                assert(cand == cands[k as int]);
            }
            push_if_new(&mut positions, &mut seen, width, height, cand);
            k = k + 1;
        }
        proof {
            if k < primes@.len() {
                lemma_collect_stops(cands, lim as nat, k as nat, primes@.len());
            }
        }
        positions
    }
}

proof fn lemma_sieve_bound(limit: nat, k: int)
    requires
        limit < usize::MAX,
        0 <= k < spec_sieve_primes(limit).len(),
    ensures
        2 <= spec_sieve_primes(limit)[k] <= limit,
{
    lemma_primes_below_bound((limit + 1) as nat);
}

proof fn lemma_primes_below_bound(n: nat)
    requires
        n <= usize::MAX,
    ensures
        forall|k: int|
            0 <= k < primes_below(n).len() ==> 2 <= #[trigger] primes_below(n)[k] < n,
    decreases n,
{
    if n > 0 {
        lemma_primes_below_bound((n - 1) as nat);
        let prev = primes_below((n - 1) as nat);
        if is_prime(n - 1) {
            assert forall|k: int| 0 <= k < primes_below(n).len() implies 2 <= #[trigger] primes_below(
                n,
            )[k] < n by {
                if k < prev.len() {
                    assert(primes_below(n)[k] == prev[k]);
                } else {
                    assert(primes_below(n)[k] == (n - 1) as usize);
                }
            }
        }
    }
}

/// Every kept cell of the spiral lies in a non-empty image.
proof fn lemma_spiral_in_bounds(width: nat, height: nat, count: nat, n: nat)
    requires
        width > 0,
        height > 0,
        width <= usize::MAX,
        height <= usize::MAX,
    ensures
        forall|j: int|
            0 <= j < spiral_run(width, height, count, n).kept.len() ==> in_bounds(
                #[trigger] spiral_run(width, height, count, n).kept[j],
                width,
                height,
            ),
    decreases n,
{
    if n == 0 {
        assert(spiral_run(width, height, count, n).kept[0] == ((width / 2) as usize, (height / 2) as usize));
    } else {
        lemma_spiral_in_bounds(width, height, count, (n - 1) as nat);
        let prev = spiral_run(width, height, count, (n - 1) as nat);
        if !(prev.kept.len() >= count || prev.kept.len() > width * height) {
            let x = prev.x + prev.dx;
            let y = prev.y + prev.dy;
            let cur = spiral_run(width, height, count, n).kept;
            assert(cur == spiral_step(prev, width, height).kept);
            assert forall|j: int| 0 <= j < cur.len() implies in_bounds(#[trigger] cur[j], width, height) by {
                if j < prev.kept.len() {
                    assert(cur[j] == prev.kept[j]);
                } else {
                    assert(cur[j] == (x as usize, y as usize));
                }
            }
        }
    }
}

/// Every candidate of a list lies in the image, so every kept one does, and
/// the kept ones are distinct.
proof fn lemma_kept_cells(cands: Seq<(usize, usize)>, limit: nat, k: nat, width: nat, height: nat)
    requires
        k <= cands.len(),
        forall|i: int| 0 <= i < cands.len() ==> in_bounds(#[trigger] cands[i], width, height),
    ensures
        collect_distinct(cands, limit, k).no_duplicates(),
        forall|j: int|
            0 <= j < collect_distinct(cands, limit, k).len() ==> in_bounds(
                #[trigger] collect_distinct(cands, limit, k)[j],
                width,
                height,
            ),
{
    lemma_collect_distinct(cands, limit, k);
    assert forall|j: int| 0 <= j < collect_distinct(cands, limit, k).len() implies in_bounds(
        #[trigger] collect_distinct(cands, limit, k)[j],
        width,
        height,
    ) by {
        let i = choose|i: int| 0 <= i < k && cands[i] == collect_distinct(cands, limit, k)[j];
        assert(in_bounds(cands[i], width, height));
    }
}

/// Every method yields cells inside a non-empty image, each at most once.
pub proof fn lemma_generated_cells(
    width: nat,
    height: nat,
    seed: Seq<u8>,
    count: nat,
    method: Seq<char>,
    orbit: Seq<(usize, usize)>,
)
    requires
        0 < width <= usize::MAX,
        0 < height <= usize::MAX,
        generate_requires(width, height, count, method),
    ensures
        forall|j: int|
            0 <= j < spec_generate(width, height, seed, count, method, orbit).len() ==> in_bounds(
                #[trigger] spec_generate(width, height, seed, count, method, orbit)[j],
                width,
                height,
            ),
        spec_generate(width, height, seed, count, method, orbit).no_duplicates(),
{
    if method == "prime"@ {
        let primes = spec_sieve_primes(width * height);
        let cands = prime_candidates(primes, (spec_seed_int(seed) % 1000) as nat, width, height);
        assert forall|i: int| 0 <= i < cands.len() implies in_bounds(#[trigger] cands[i], width, height) by {
            let pos = (primes[i] + (spec_seed_int(seed) % 1000) as nat) % ((width * height) as int);
            assert(width * height > 0) by (nonlinear_arith)
                requires
                    width > 0,
                    height > 0,
            ;
            lemma_key_of_index(pos, width, height);
        }
        lemma_kept_cells(cands, if count == 0 { 1 } else { count }, cands.len(), width, height);
    } else if method == "spiral"@ {
        let run = spiral_run(width, height, count, spiral_cap(width, height)).kept;
        lemma_spiral_in_bounds(width, height, count, spiral_cap(width, height));
        lemma_spiral_distinct(width, height, count);
        if run.len() > count {
            assert forall|j: int| 0 <= j < run.take(count as int).len() implies in_bounds(
                #[trigger] run.take(count as int)[j],
                width,
                height,
            ) by {
                assert(run.take(count as int)[j] == run[j]);
            }
        }
    } else if method == "random"@ {
        let cands = random_candidates(seed, width, height, count * 100 + 1);
        lemma_kept_cells(cands, count, count * 100 + 1, width, height);
    } else {
        let cands = henon_candidates(orbit, width, height);
        let n = if orbit.len() < count * 100 { orbit.len() } else { count * 100 };
        lemma_kept_cells(cands, count, n, width, height);
    }
}

/// Every generated cell lies within `0 ..= width` by `0 ..= height`, also
/// for an empty image (where the spiral still yields its centre).
pub proof fn lemma_generated_cells_weak(
    width: nat,
    height: nat,
    seed: Seq<u8>,
    count: nat,
    method: Seq<char>,
    orbit: Seq<(usize, usize)>,
)
    requires
        width <= usize::MAX,
        height <= usize::MAX,
        generate_requires(width, height, count, method),
    ensures
        forall|j: int|
            0 <= j < spec_generate(width, height, seed, count, method, orbit).len() ==> {
                let p = #[trigger] spec_generate(width, height, seed, count, method, orbit)[j];
                p.0 <= width && p.1 <= height
            },
{
    let out = spec_generate(width, height, seed, count, method, orbit);
    if width > 0 && height > 0 {
        lemma_generated_cells(width, height, seed, count, method, orbit);
    } else {
        assert(width * height == 0) by (nonlinear_arith)
            requires
                width == 0 || height == 0,
        ;
        if method == "prime"@ {
            let cands = prime_candidates(
                spec_sieve_primes(width * height),
                (spec_seed_int(seed) % 1000) as nat,
                width,
                height,
            );
            assert(cands.len() == 0);
            assert(out.len() == 0);
        } else if method == "spiral"@ {
            lemma_spiral_stops(width, height, count, 0, spiral_cap(width, height));
            let kept = spiral_run(width, height, count, spiral_cap(width, height)).kept;
            assert(kept == seq![((width / 2) as usize, (height / 2) as usize)]);
            assert forall|j: int| 0 <= j < out.len() implies {
                let p = #[trigger] out[j];
                p.0 <= width && p.1 <= height
            } by {
                if kept.len() > count {
                    assert(out[j] == kept[j]);
                }
            }
        } else if method == "random"@ {
            lemma_collect_distinct(
                random_candidates(seed, width, height, count * 100 + 1),
                count,
                count * 100 + 1,
            );
        } else {
            let n = if orbit.len() < count * 100 { orbit.len() } else { count * 100 };
            lemma_collect_distinct(henon_candidates(orbit, width, height), count, n);
        }
    }
}

/// Whether `generate` can run a method on an image of the given size.
pub fn generate_requires_check(width: usize, height: usize, count: usize, method: &str) -> (ok: bool)
    ensures
        ok == generate_requires(width as nat, height as nat, count as nat, method@),
{
    let w: u128 = width as u128;
    let h: u128 = height as u128;
    let c: u128 = count as u128;
    assert(w * h <= u128::MAX) by (nonlinear_arith)
        requires
            w <= u64::MAX,
            h <= u64::MAX,
    ;
    let area: u128 = w * h;
    if str_equals(method, "prime") {
        area <= (usize::MAX / 4) as u128
    } else if str_equals(method, "spiral") {
        (c <= area || area == 0) && area <= usize::MAX as u128 && 2 * (w + h) + 2 <= isize::MAX as u128
    } else if str_equals(method, "random") {
        c * 100 <= u32::MAX as u128 && (count == 0 || (width > 0 && height > 0))
    } else {
        c * 100 <= usize::MAX as u128 && (count == 0 || (width > 0 && height > 0))
    }
}

/// The heading of leg `t` of the spiral: +x, +y, -x, -y in turn.
pub open spec fn leg_dir(t: int) -> (int, int) {
    if t % 4 == 0 {
        (1, 0)
    } else if t % 4 == 1 {
        (0, 1)
    } else if t % 4 == 2 {
        (-1, 0)
    } else {
        (0, -1)
    }
}

/// Where leg `t` starts, relative to the centre.
pub open spec fn leg_start(t: int) -> (int, int) {
    let m = t / 4;
    if t % 4 == 0 {
        (-m, -m)
    } else if t % 4 == 1 {
        (m + 1, -m)
    } else if t % 4 == 2 {
        (m + 1, m + 1)
    } else {
        (-(m + 1), m + 1)
    }
}

/// The box (least and greatest x, least and greatest y, relative to the
/// centre) of the cells walked before leg `t`.
pub open spec fn leg_box(t: int) -> (int, int, int, int) {
    let m = t / 4;
    if t % 4 == 0 {
        (-m, m, -m, m)
    } else if t % 4 == 1 {
        (-m, m + 1, -m, m)
    } else if t % 4 == 2 {
        (-m, m + 1, -m, m + 1)
    } else {
        (-(m + 1), m + 1, -m, m + 1)
    }
}

pub open spec fn in_box(q: (int, int), b: (int, int, int, int)) -> bool {
    b.0 <= q.0 <= b.1 && b.2 <= q.1 <= b.3
}

pub open spec fn sub2(a: (int, int), b: (int, int)) -> (int, int) {
    (a.0 - b.0, a.1 - b.1)
}

/// The component of `v` along a heading.
pub open spec fn along(v: (int, int), d: (int, int)) -> int {
    if d == (1int, 0int) {
        v.0
    } else if d == (0int, 1int) {
        v.1
    } else if d == (-1int, 0int) {
        -v.0
    } else {
        -v.1
    }
}

/// The component of `v` along the heading turned a quarter (the side the
/// spiral turns to).
pub open spec fn across(v: (int, int), d: (int, int)) -> int {
    if d == (1int, 0int) {
        v.1
    } else if d == (0int, 1int) {
        -v.0
    } else if d == (-1int, 0int) {
        -v.1
    } else {
        v.0
    }
}

/// A cell walked before the current one lies on the inner side of the
/// current leg, or on the leg behind the current cell.
pub open spec fn behind(v: (int, int), d: (int, int)) -> bool {
    across(v, d) > 0 || (across(v, d) == 0 && along(v, d) < 0)
}

/// A walked cell lies in the box of leg `t` or on leg `t` within `k` steps.
pub open spec fn walked_ok(q: (int, int), t: int, k: int) -> bool {
    let v = sub2(q, leg_start(t));
    in_box(q, leg_box(t)) || (across(v, leg_dir(t)) == 0 && 0 < along(v, leg_dir(t)) <= k)
}

/// The shape of the spiral's walk: the state follows leg `turns`, every
/// walked cell lies in the walked region and before the current cell, the
/// walk never repeats a cell, and the kept cells are distinct walked cells.
pub open spec fn spiral_inv(s: SpiralState, cx: int, cy: int) -> bool {
    let t = s.turns;
    let d = (s.dx, s.dy);
    let p = (s.x - cx, s.y - cy);
    let v = sub2(p, leg_start(t));
    &&& t >= 0
    &&& d == leg_dir(t)
    &&& s.steps == t / 2 + 1
    &&& 0 <= s.in_dir < s.steps
    &&& along(v, d) == s.in_dir
    &&& across(v, d) == 0
    &&& s.path.len() >= 1
    &&& s.path.last() == (s.x, s.y)
    &&& forall|j: int| 0 <= j < s.path.len() ==> walked_ok(sub2(#[trigger] s.path[j], (cx, cy)), t, s.in_dir)
    &&& forall|j: int| 0 <= j < s.path.len() - 1 ==> behind(sub2(#[trigger] s.path[j], (s.x, s.y)), d)
    &&& s.path.no_duplicates()
    &&& forall|i: int| 0 <= i < s.kept.len() ==> s.path.contains((#[trigger] s.kept[i].0 as int, s.kept[i].1 as int))
    &&& s.kept.no_duplicates()
}

/// How consecutive legs fit: each starts where the last ended, turned a
/// quarter, and runs one past the box walked before it.
proof fn lemma_leg_geometry(t: int)
    requires
        t >= 0,
    ensures
        in_box(leg_start(t), leg_box(t)),
        along(sub2(leg_start(t + 1), leg_start(t)), leg_dir(t)) == t / 2 + 1,
        across(sub2(leg_start(t + 1), leg_start(t)), leg_dir(t)) == 0,
        leg_dir(t + 1) == (-leg_dir(t).1, leg_dir(t).0),
        (t + 1) / 2 + 1 == (if (t + 1) % 2 == 0 { t / 2 + 2 } else { t / 2 + 1 }),
        forall|q: (int, int)|
            in_box(q, leg_box(t)) ==> along(sub2(q, leg_start(t + 1)), leg_dir(t)) < 0 && in_box(
                q,
                leg_box(t + 1),
            ),
        forall|q: (int, int)|
            across(sub2(q, leg_start(t)), leg_dir(t)) == 0 && 0 < along(sub2(q, leg_start(t)), leg_dir(t))
                <= t / 2 + 1 ==> in_box(q, leg_box(t + 1)),
{
    let m = t / 4;
    assert(t == 4 * m + t % 4);
    assert((t + 1) / 4 == if t % 4 == 3 { m + 1 } else { m });
    assert((t + 1) % 4 == (t % 4 + 1) % 4);
    assert(t / 2 == 2 * m + (t % 4) / 2);
}

/// One step keeps the shape of the walk.
proof fn lemma_spiral_step_inv(s: SpiralState, width: nat, height: nat)
    requires
        width <= usize::MAX,
        height <= usize::MAX,
        spiral_inv(s, (width / 2) as int, (height / 2) as int),
    ensures
        spiral_inv(spiral_step(s, width, height), (width / 2) as int, (height / 2) as int),
{
    let cx = (width / 2) as int;
    let cy = (height / 2) as int;
    let t = s.turns;
    let d = (s.dx, s.dy);
    let n = spiral_step(s, width, height);
    let x = s.x + s.dx;
    let y = s.y + s.dy;
    let p = (s.x, s.y);
    let q = (x, y);
    lemma_leg_geometry(t);
    assert forall|j: int| 0 <= j < s.path.len() implies #[trigger] s.path[j] != q by {
        if j < s.path.len() - 1 {
            assert(behind(sub2(s.path[j], p), d));
        }
    }
    assert(n.path == s.path.push(q));
    assert(n.path.no_duplicates()) by {
        assert forall|i: int, j: int| 0 <= i < j < n.path.len() implies n.path[i] != n.path[j] by {
            if j == n.path.len() - 1 {
                assert(n.path[i] == s.path[i]);
            } else {
                assert(n.path[i] == s.path[i] && n.path[j] == s.path[j]);
            }
        }
    }
    assert forall|i: int| 0 <= i < n.kept.len() implies n.path.contains(
        (#[trigger] n.kept[i].0 as int, n.kept[i].1 as int),
    ) by {
        if i < s.kept.len() {
            assert(n.kept[i] == s.kept[i]);
            assert(s.path.contains((s.kept[i].0 as int, s.kept[i].1 as int)));
            let k = choose|k: int| 0 <= k < s.path.len() && s.path[k] == (s.kept[i].0 as int, s.kept[i].1 as int);
            assert(n.path[k] == s.path[k]);
        } else {
            assert(0 <= x < width && 0 <= y < height);
            assert(n.kept[i] == (x as usize, y as usize));
            assert(n.path[n.path.len() - 1] == q);
        }
    }
    if 0 <= x < width && 0 <= y < height {
        assert(n.kept == s.kept.push((x as usize, y as usize)));
        assert forall|i: int| 0 <= i < s.kept.len() implies #[trigger] s.kept[i] != (x as usize, y as usize) by {
            assert(s.path.contains((s.kept[i].0 as int, s.kept[i].1 as int)));
            let k = choose|k: int| 0 <= k < s.path.len() && s.path[k] == (s.kept[i].0 as int, s.kept[i].1 as int);
            assert(s.path[k] != q);
        }
        assert(n.kept.no_duplicates()) by {
            assert forall|i: int, j: int| 0 <= i < j < n.kept.len() implies n.kept[i] != n.kept[j] by {
                if j == n.kept.len() - 1 {
                    assert(n.kept[i] == s.kept[i]);
                } else {
                    assert(n.kept[i] == s.kept[i] && n.kept[j] == s.kept[j]);
                }
            }
        }
    }
    if s.in_dir + 1 >= s.steps {
        assert forall|j: int| 0 <= j < n.path.len() - 1 implies behind(sub2(#[trigger] n.path[j], q), (n.dx, n.dy)) by {
            let r = sub2(n.path[j], (cx, cy));
            assert(n.path[j] == s.path[j]);
            assert(walked_ok(r, t, s.in_dir));
        }
        assert forall|j: int| 0 <= j < n.path.len() implies walked_ok(sub2(#[trigger] n.path[j], (cx, cy)), t + 1, 0) by {
            if j < s.path.len() {
                assert(n.path[j] == s.path[j]);
                assert(walked_ok(sub2(s.path[j], (cx, cy)), t, s.in_dir));
            }
        }
    } else {
        assert forall|j: int| 0 <= j < n.path.len() - 1 implies behind(sub2(#[trigger] n.path[j], q), d) by {
            assert(n.path[j] == s.path[j]);
            if j < s.path.len() - 1 {
                assert(behind(sub2(s.path[j], p), d));
            }
        }
        assert forall|j: int| 0 <= j < n.path.len() implies walked_ok(sub2(#[trigger] n.path[j], (cx, cy)), t, s.in_dir + 1) by {
            if j < s.path.len() {
                assert(n.path[j] == s.path[j]);
                assert(walked_ok(sub2(s.path[j], (cx, cy)), t, s.in_dir));
            }
        }
    }
}

/// The spiral keeps its shape through every round.
proof fn lemma_spiral_run_inv(width: nat, height: nat, count: nat, n: nat)
    requires
        width <= usize::MAX,
        height <= usize::MAX,
    ensures
        spiral_inv(spiral_run(width, height, count, n), (width / 2) as int, (height / 2) as int),
    decreases n,
{
    if n == 0 {
        let s = spiral_start(width, height);
        lemma_leg_geometry(0);
        assert(s.path[0] == ((width / 2) as int, (height / 2) as int));
        assert(s.path.contains((s.kept[0].0 as int, s.kept[0].1 as int)));
    } else {
        lemma_spiral_run_inv(width, height, count, (n - 1) as nat);
        let s = spiral_run(width, height, count, (n - 1) as nat);
        if !(s.kept.len() >= count || s.kept.len() > width * height) {
            lemma_spiral_step_inv(s, width, height);
        }
    }
}

/// The spiral never visits a cell twice.
pub proof fn lemma_spiral_distinct(width: nat, height: nat, count: nat)
    requires
        width <= usize::MAX,
        height <= usize::MAX,
    ensures
        spec_spiral_positions(width, height, count).no_duplicates(),
{
    let kept = spiral_run(width, height, count, spiral_cap(width, height)).kept;
    lemma_spiral_run_inv(width, height, count, spiral_cap(width, height));
    if kept.len() > count {
        let k = kept.take(count as int);
        assert forall|i: int, j: int| 0 <= i < j < k.len() implies k[i] != k[j] by {
            assert(k[i] == kept[i] && k[j] == kept[j]);
        }
    }
}

/// The number of steps on legs `0 .. t`: leg `i` has `i / 2 + 1` steps.
pub open spec fn leg_total(t: nat) -> nat
    decreases t,
{
    if t == 0 {
        0
    } else {
        leg_total((t - 1) as nat) + ((t - 1) as nat) / 2 + 1
    }
}

proof fn lemma_leg_total_closed(j: nat)
    ensures
        leg_total(2 * j) == j * (j + 1),
        leg_total(2 * j + 1) == (j + 1) * (j + 1),
    decreases j,
{
    if j == 0 {
        assert(leg_total(1) == leg_total(0) + 0nat / 2 + 1);
    } else {
        let i = (j - 1) as nat;
        lemma_leg_total_closed(i);
        assert(2 * i + 1 == (2 * j - 1) as nat);
        assert(leg_total(2 * j) == leg_total((2 * j - 1) as nat) + ((2 * j - 1) as nat) / 2 + 1);
        assert(((2 * j - 1) as nat) / 2 == i);
        assert(leg_total(2 * j) == (i + 1) * (i + 1) + i + 1);
        assert(leg_total(2 * j + 1) == leg_total(2 * j) + (2 * j) / 2 + 1);
        assert((2 * j) / 2 == j);
        assert(leg_total(2 * j) == j * (j + 1)) by (nonlinear_arith)
            requires
                leg_total(2 * j) == (i + 1) * (i + 1) + i + 1,
                j == i + 1,
        ;
        assert(leg_total(2 * j + 1) == (j + 1) * (j + 1)) by (nonlinear_arith)
            requires
                leg_total(2 * j + 1) == leg_total(2 * j) + j + 1,
                leg_total(2 * j) == j * (j + 1),
        ;
    }
}

proof fn lemma_leg_total_monotone(a: nat, b: nat)
    requires
        a <= b,
    ensures
        leg_total(a) <= leg_total(b),
    decreases b,
{
    if a < b {
        lemma_leg_total_monotone(a, (b - 1) as nat);
    }
}

/// A cell lies on leg `t`'s line ahead of its start.
pub open spec fn ahead(q: (int, int), t: int) -> bool {
    let v = sub2(q, leg_start(t));
    across(v, leg_dir(t)) == 0 && along(v, leg_dir(t)) > 0
}

/// The cells walked by the start of leg `t` and its first `k` steps, relative
/// to the centre: the box of leg `t` but for the cells ahead on its line,
/// and the leg's first `k` cells.
pub open spec fn in_region(q: (int, int), t: int, k: int) -> bool {
    let v = sub2(q, leg_start(t));
    (in_box(q, leg_box(t)) && !ahead(q, t)) || (across(v, leg_dir(t)) == 0 && 0 < along(v, leg_dir(t)) <= k)
}

/// The walk has taken one step per round, has walked every cell of its
/// region, and keeps every walked cell that lies in the image.
pub open spec fn spiral_cover_inv(s: SpiralState, cx: int, cy: int, width: nat, height: nat) -> bool {
    &&& s.turns >= 0
    &&& s.path.len() == leg_total(s.turns as nat) + s.in_dir + 1
    &&& forall|q: (int, int)| #[trigger] in_region(q, s.turns, s.in_dir) ==> s.path.contains((q.0 + cx, q.1 + cy))
    &&& forall|j: int|
        0 <= j < s.path.len() && 0 <= (#[trigger] s.path[j]).0 < width && 0 <= s.path[j].1 < height
            ==> s.kept.contains((s.path[j].0 as usize, s.path[j].1 as usize))
}

/// How the regions of consecutive legs fit: the region at the start of the
/// next leg is the region of this leg walked to its end.
proof fn lemma_region_next(t: int, q: (int, int))
    requires
        t >= 0,
        in_region(q, t + 1, 0),
    ensures
        in_region(q, t, t / 2 + 1),
{
    let m = t / 4;
    assert(t == 4 * m + t % 4);
    assert((t + 1) / 4 == if t % 4 == 3 { m + 1 } else { m });
    assert((t + 1) % 4 == (t % 4 + 1) % 4);
    assert(t / 2 == 2 * m + (t % 4) / 2);
}

/// One step keeps the walk's coverage.
proof fn lemma_spiral_step_cover(s: SpiralState, width: nat, height: nat)
    requires
        width <= usize::MAX,
        height <= usize::MAX,
        spiral_inv(s, (width / 2) as int, (height / 2) as int),
        spiral_cover_inv(s, (width / 2) as int, (height / 2) as int, width, height),
    ensures
        spiral_cover_inv(spiral_step(s, width, height), (width / 2) as int, (height / 2) as int, width, height),
{
    let cx = (width / 2) as int;
    let cy = (height / 2) as int;
    let t = s.turns;
    let n = spiral_step(s, width, height);
    let x = s.x + s.dx;
    let y = s.y + s.dy;
    let q = (x, y);
    lemma_leg_geometry(t);
    assert(n.path == s.path.push(q));
    assert forall|c: (int, int)| s.path.contains(c) implies n.path.contains(c) by {
        let j = choose|j: int| 0 <= j < s.path.len() && s.path[j] == c;
        assert(n.path[j] == c);
    }
    assert(n.path.contains(q)) by {
        assert(n.path[n.path.len() - 1] == q);
    }
    assert forall|c: (usize, usize)| s.kept.contains(c) implies n.kept.contains(c) by {
        let j = choose|j: int| 0 <= j < s.kept.len() && s.kept[j] == c;
        assert(n.kept[j] == c);
    }
    assert forall|j: int|
        0 <= j < n.path.len() && 0 <= (#[trigger] n.path[j]).0 < width && 0 <= n.path[j].1 < height implies n.kept.contains(
        (n.path[j].0 as usize, n.path[j].1 as usize),
    ) by {
        if j < s.path.len() {
            assert(n.path[j] == s.path[j]);
        } else {
            assert(n.kept[n.kept.len() - 1] == (x as usize, y as usize));
        }
    }
    if s.in_dir + 1 >= s.steps {
        assert forall|r: (int, int)| #[trigger] in_region(r, n.turns, n.in_dir) implies n.path.contains(
            (r.0 + cx, r.1 + cy),
        ) by {
            lemma_region_next(t, r);
            let v = sub2(r, leg_start(t));
            if in_region(r, t, s.in_dir) {
                assert(s.path.contains((r.0 + cx, r.1 + cy)));
            } else {
                assert((r.0 + cx, r.1 + cy) == q);
            }
        }
    } else {
        assert forall|r: (int, int)| #[trigger] in_region(r, n.turns, n.in_dir) implies n.path.contains(
            (r.0 + cx, r.1 + cy),
        ) by {
            if in_region(r, t, s.in_dir) {
                assert(s.path.contains((r.0 + cx, r.1 + cy)));
            } else {
                assert((r.0 + cx, r.1 + cy) == q);
            }
        }
    }
}

/// The spiral's coverage holds through every round; a round that is not a
/// step leaves the walk stopped.
proof fn lemma_spiral_run_cover(width: nat, height: nat, count: nat, n: nat)
    requires
        width <= usize::MAX,
        height <= usize::MAX,
    ensures
        spiral_cover_inv(
            spiral_run(width, height, count, n),
            (width / 2) as int,
            (height / 2) as int,
            width,
            height,
        ),
        ({
            let s = spiral_run(width, height, count, n);
            s.kept.len() >= count || s.kept.len() > width * height || s.path.len() == n + 1
        }),
    decreases n,
{
    lemma_spiral_run_inv(width, height, count, n);
    if n == 0 {
        let s = spiral_start(width, height);
        let cx = (width / 2) as int;
        let cy = (height / 2) as int;
        lemma_leg_geometry(0);
        assert forall|r: (int, int)| #[trigger] in_region(r, 0, 0) implies s.path.contains((r.0 + cx, r.1 + cy)) by {
            assert(s.path[0] == (r.0 + cx, r.1 + cy));
        }
        assert forall|j: int|
            0 <= j < s.path.len() && 0 <= (#[trigger] s.path[j]).0 < width && 0 <= s.path[j].1 < height implies s.kept.contains(
            (s.path[j].0 as usize, s.path[j].1 as usize),
        ) by {
            assert(s.kept[0] == (s.path[j].0 as usize, s.path[j].1 as usize));
        }
    } else {
        lemma_spiral_run_cover(width, height, count, (n - 1) as nat);
        lemma_spiral_run_inv(width, height, count, (n - 1) as nat);
        let s = spiral_run(width, height, count, (n - 1) as nat);
        if !(s.kept.len() >= count || s.kept.len() > width * height) {
            lemma_spiral_step_cover(s, width, height);
        }
    }
}

/// The cell of index `k` in row-major order.
spec fn cell_of(k: int, width: nat) -> (usize, usize) {
    ((k % width as int) as usize, (k / width as int) as usize)
}

/// Distinct indices inside the image name distinct cells.
proof fn lemma_cell_of_injective(k1: int, k2: int, width: nat, height: nat)
    requires
        0 < width <= usize::MAX,
        height <= usize::MAX,
        0 <= k1 < width * height,
        0 <= k2 < width * height,
        cell_of(k1, width) == cell_of(k2, width),
    ensures
        k1 == k2,
{
    lemma_key_of_index(k1, width, height);
    lemma_key_of_index(k2, width, height);
    vstd::arithmetic::div_mod::lemma_fundamental_div_mod(k1, width as int);
    vstd::arithmetic::div_mod::lemma_fundamental_div_mod(k2, width as int);
    assert(k1 % (width as int) == k2 % (width as int));
    assert(k1 / (width as int) == k2 / (width as int));
}

/// A sequence that holds every cell of a `width` by `height` image has at
/// least `width * height` elements.
proof fn lemma_covering_len(cells: Seq<(usize, usize)>, width: nat, height: nat)
    requires
        0 < width <= usize::MAX,
        height <= usize::MAX,
        forall|a: usize, b: usize| a < width && b < height ==> #[trigger] cells.contains((a, b)),
    ensures
        cells.len() >= width * height,
{
    let total = (width * height) as int;
    let index = |k: int| choose|i: int| 0 <= i < cells.len() && cells[i] == cell_of(k, width);
    let dom = set_int_range(0, total);
    vstd::set_lib::lemma_int_range(0, total);
    assert forall|k: int| #[trigger] dom.contains(k) implies 0 <= index(k) < cells.len() && cells[index(k)]
        == cell_of(k, width) by {
        lemma_key_of_index(k, width, height);
        let c = cell_of(k, width);
        assert(cells.contains((c.0, c.1)));
    }
    assert(vstd::relations::injective_on(index, dom)) by {
        assert forall|k1: int, k2: int|
            dom.contains(k1) && dom.contains(k2) && #[trigger] index(k1) == #[trigger] index(k2) implies k1
            == k2 by {
            assert(cells[index(k1)] == cell_of(k1, width));
            assert(cells[index(k2)] == cell_of(k2, width));
            lemma_cell_of_injective(k1, k2, width, height);
        }
    }
    let image = dom.map(index);
    vstd::set_lib::lemma_map_size(dom, image, index);
    vstd::set_lib::lemma_int_range(0, cells.len() as int);
    assert(image.subset_of(set_int_range(0, cells.len() as int))) by {
        assert forall|i: int| #[trigger] image.contains(i) implies set_int_range(0, cells.len() as int).contains(i) by {
            let k = choose|k: int| dom.contains(k) && index(k) == i;
        }
    }
    vstd::set_lib::lemma_len_subset(image, set_int_range(0, cells.len() as int));
}

/// The spiral always keeps its centre, so it keeps at least one cell.
proof fn lemma_spiral_kept_nonempty(width: nat, height: nat, count: nat, n: nat)
    ensures
        spiral_run(width, height, count, n).kept.len() >= 1,
    decreases n,
{
    if n > 0 {
        lemma_spiral_kept_nonempty(width, height, count, (n - 1) as nat);
    }
}

/// The round cap is never reached: when the image has room for `count`
/// cells, the spiral has kept them (or stopped) within `spiral_cap` rounds,
/// and further rounds change nothing.
pub proof fn lemma_spiral_cap_suffices(width: nat, height: nat, count: nat, n: nat)
    requires
        width <= usize::MAX,
        height <= usize::MAX,
        count <= width * height || width * height == 0,
        n >= spiral_cap(width, height),
    ensures
        spiral_run(width, height, count, n) == spiral_run(width, height, count, spiral_cap(width, height)),
        ({
            let s = spiral_run(width, height, count, spiral_cap(width, height));
            s.kept.len() >= count || s.kept.len() > width * height
        }),
{
    let cap = spiral_cap(width, height);
    let s = spiral_run(width, height, count, cap);
    let cx = (width / 2) as int;
    let cy = (height / 2) as int;
    lemma_spiral_run_inv(width, height, count, cap);
    lemma_spiral_run_cover(width, height, count, cap);
    if !(s.kept.len() >= count || s.kept.len() > width * height) {
        let big_r = (width + height) as nat;
        let t = s.turns;
        assert(width > 0 && height > 0) by {
            lemma_spiral_kept_nonempty(width, height, count, cap);
            if width == 0 || height == 0 {
                assert(width * height == 0) by (nonlinear_arith)
                    requires
                        width == 0 || height == 0,
                ;
            }
        }
        lemma_leg_total_closed(2 * big_r);
        assert(leg_total(4 * big_r + 1) == cap) by (nonlinear_arith)
            requires
                leg_total(2 * (2 * big_r) + 1) == (2 * big_r + 1) * (2 * big_r + 1),
                cap == (2 * big_r + 1) * (2 * big_r + 1),
        ;
        assert(t >= 4 * big_r + 1) by {
            if t < 4 * big_r + 1 {
                lemma_leg_total_monotone((t + 1) as nat, 4 * big_r + 1);
                assert(leg_total((t + 1) as nat) == leg_total(t as nat) + (t as nat) / 2 + 1);
            }
        }
        assert forall|a: usize, b: usize| a < width && b < height implies #[trigger] s.kept.contains((a, b)) by {
            let r = (a - cx, b - cy);
            let m = t / 4;
            assert(t == 4 * m + t % 4);
            assert(in_region(r, t, s.in_dir));
            assert(s.path.contains((a as int, b as int)));
            let j = choose|j: int| 0 <= j < s.path.len() && s.path[j] == (a as int, b as int);
            assert(s.kept.contains((s.path[j].0 as usize, s.path[j].1 as usize)));
        }
        lemma_covering_len(s.kept, width, height);
        assert(width * height > 0) by (nonlinear_arith)
            requires
                width > 0,
                height > 0,
        ;
    }
    lemma_spiral_stops(width, height, count, cap, n);
}


/// A duplicate-free sequence of at least `width * height` cells of the image
/// holds every cell of it.
proof fn lemma_cells_cover(cells: Seq<(usize, usize)>, width: nat, height: nat, a: usize, b: usize)
    requires
        0 < width <= usize::MAX,
        height <= usize::MAX,
        cells.no_duplicates(),
        forall|j: int| 0 <= j < cells.len() ==> in_bounds(#[trigger] cells[j], width, height),
        cells.len() >= width * height,
        a < width,
        b < height,
    ensures
        cells.contains((a, b)),
{
    if !cells.contains((a, b)) {
        let total = (width * height) as int;
        let missing = cell_key((a, b), width);
        lemma_key_roundtrip((a, b), width, height);
        let f = |i: int| cell_key(cells[i], width);
        let dom = set_int_range(0, cells.len() as int);
        vstd::set_lib::lemma_int_range(0, cells.len() as int);
        vstd::set_lib::lemma_int_range(0, total);
        assert(vstd::relations::injective_on(f, dom)) by {
            assert forall|i: int, j: int| dom.contains(i) && dom.contains(j) && #[trigger] f(i) == #[trigger] f(
                j,
            ) implies i == j by {
                lemma_key_roundtrip(cells[i], width, height);
                lemma_key_roundtrip(cells[j], width, height);
                assert(cells[i] == cells[j]);
            }
        }
        let image = dom.map(f);
        vstd::set_lib::lemma_map_size(dom, image, f);
        let room = set_int_range(0, total).remove(missing);
        assert(image.subset_of(room)) by {
            assert forall|k: int| #[trigger] image.contains(k) implies room.contains(k) by {
                let i = choose|i: int| dom.contains(i) && f(i) == k;
                lemma_key_roundtrip(cells[i], width, height);
                if k == missing {
                    assert(cells[i] == (a, b));
                    assert(cells.contains((a, b)));
                }
            }
        }
        vstd::set_lib::lemma_len_subset(image, room);
    }
}

/// Every round keeps the centre as the first cell.
proof fn lemma_spiral_first_kept(width: nat, height: nat, count: nat, n: nat)
    ensures
        spiral_run(width, height, count, n).kept.len() >= 1,
        spiral_run(width, height, count, n).kept[0] == ((width / 2) as usize, (height / 2) as usize),
    decreases n,
{
    if n > 0 {
        lemma_spiral_first_kept(width, height, count, (n - 1) as nat);
    }
}

/// The spiral starts at the centre of the image.
pub proof fn lemma_spiral_starts_at_centre(width: nat, height: nat, count: nat)
    requires
        count >= 1,
    ensures
        spec_spiral_positions(width, height, count).len() >= 1,
        spec_spiral_positions(width, height, count)[0] == ((width / 2) as usize, (height / 2) as usize),
{
    lemma_spiral_first_kept(width, height, count, spiral_cap(width, height));
}

/// With a smaller count the spiral keeps a prefix of what it keeps with a
/// larger one, and the same walk as long as it has not stopped.
proof fn lemma_spiral_run_prefix(width: nat, height: nat, c1: nat, c2: nat, n: nat)
    requires
        c1 <= c2,
    ensures
        ({
            let s1 = spiral_run(width, height, c1, n);
            let s2 = spiral_run(width, height, c2, n);
            &&& s1.kept.len() <= s2.kept.len()
            &&& s1.kept == s2.kept.take(s1.kept.len() as int)
            &&& (s1.kept.len() < c1 && s1.kept.len() <= width * height) ==> s1 == s2
        }),
    decreases n,
{
    if n > 0 {
        lemma_spiral_run_prefix(width, height, c1, c2, (n - 1) as nat);
        let p1 = spiral_run(width, height, c1, (n - 1) as nat);
        let p2 = spiral_run(width, height, c2, (n - 1) as nat);
        let s1 = spiral_run(width, height, c1, n);
        let s2 = spiral_run(width, height, c2, n);
        if !(p1.kept.len() >= c1 || p1.kept.len() > width * height) {
            assert(p1 == p2);
        } else {
            assert(s1 == p1);
            if !(p2.kept.len() >= c2 || p2.kept.len() > width * height) {
                let st = spiral_step(p2, width, height);
                assert(s2 == st);
                assert(st.kept == p2.kept || st.kept == p2.kept.push(st.kept.last()));
                assert(s2.kept.take(p1.kept.len() as int) =~= p2.kept.take(p1.kept.len() as int));
            }
        }
    }
}

/// Asking the spiral for fewer cells gives a prefix of the cells it gives
/// for more, as long as the image holds them.
pub proof fn lemma_spiral_prefix(width: nat, height: nat, c1: nat, c2: nat)
    requires
        width <= usize::MAX,
        height <= usize::MAX,
        c1 <= c2 <= width * height,
    ensures
        spec_spiral_positions(width, height, c1) == spec_spiral_positions(width, height, c2).take(c1 as int),
{
    let cap = spiral_cap(width, height);
    lemma_spiral_cap_suffices(width, height, c1, cap);
    lemma_spiral_cap_suffices(width, height, c2, cap);
    lemma_spiral_run_prefix(width, height, c1, c2, cap);
    let k1 = spiral_run(width, height, c1, cap).kept;
    let k2 = spiral_run(width, height, c2, cap).kept;
    assert(k1.len() >= c1);
    assert(k2.len() >= c2);
    let out1 = spec_spiral_positions(width, height, c1);
    let out2 = spec_spiral_positions(width, height, c2);
    assert(out1.len() == c1);
    assert(out2.len() == c2);
    assert forall|j: int| 0 <= j < c1 implies out1[j] == out2.take(c1 as int)[j] by {
        assert(out1[j] == k1[j]);
        assert(k1[j] == k2.take(k1.len() as int)[j]);
        assert(out2[j] == k2[j]);
    }
    assert(out1 =~= out2.take(c1 as int));
}

/// Asked for every cell, the spiral gives each cell of the image once.
pub proof fn lemma_spiral_covers_image(width: nat, height: nat)
    requires
        0 < width <= usize::MAX,
        0 < height <= usize::MAX,
    ensures
        spec_spiral_positions(width, height, width * height).len() == width * height,
        spec_spiral_positions(width, height, width * height).no_duplicates(),
        forall|a: usize, b: usize|
            a < width && b < height ==> #[trigger] spec_spiral_positions(width, height, width * height).contains(
                (a, b),
            ),
{
    let count = width * height;
    let cap = spiral_cap(width, height);
    lemma_spiral_cap_suffices(width, height, count, cap);
    let kept = spiral_run(width, height, count, cap).kept;
    assert(kept.len() >= count);
    let out = spec_spiral_positions(width, height, count);
    assert(out.len() == count);
    assert(count > 0) by (nonlinear_arith)
        requires
            width > 0,
            height > 0,
            count == width * height,
    ;
    lemma_spiral_in_bounds(width, height, count, cap);
    lemma_spiral_distinct(width, height, count);
    assert forall|j: int| 0 <= j < out.len() implies in_bounds(#[trigger] out[j], width, height) by {
        assert(out[j] == kept[j]);
    }
    assert forall|a: usize, b: usize| a < width && b < height implies #[trigger] out.contains((a, b)) by {
        lemma_cells_cover(out, width, height, a, b);
    }
}


/// With a smaller limit, collecting keeps a prefix of what it keeps with a
/// larger one, and the same while under the smaller limit.
proof fn lemma_collect_limits(cands: Seq<(usize, usize)>, c1: nat, c2: nat, k: nat)
    requires
        c1 <= c2,
    ensures
        ({
            let a = collect_distinct(cands, c1, k);
            let b = collect_distinct(cands, c2, k);
            &&& a.len() <= b.len()
            &&& a == b.take(a.len() as int)
            &&& a.len() < c1 ==> a == b
        }),
    decreases k,
{
    if k > 0 {
        lemma_collect_limits(cands, c1, c2, (k - 1) as nat);
        let pa = collect_distinct(cands, c1, (k - 1) as nat);
        let pb = collect_distinct(cands, c2, (k - 1) as nat);
        let b = collect_distinct(cands, c2, k);
        if pa.len() >= c1 {
            assert(b.take(pa.len() as int) =~= pb.take(pa.len() as int));
        }
    }
}

/// Looking at more candidates keeps what was kept and may add more.
proof fn lemma_collect_grows(cands: Seq<(usize, usize)>, limit: nat, k: nat, n: nat)
    requires
        k <= n,
    ensures
        collect_distinct(cands, limit, k).len() <= collect_distinct(cands, limit, n).len(),
        collect_distinct(cands, limit, k) == collect_distinct(cands, limit, n).take(
            collect_distinct(cands, limit, k).len() as int,
        ),
    decreases n - k,
{
    if n > k {
        lemma_collect_grows(cands, limit, k, (n - 1) as nat);
        let a = collect_distinct(cands, limit, k);
        let p = collect_distinct(cands, limit, (n - 1) as nat);
        let q = collect_distinct(cands, limit, n);
        assert(q.take(a.len() as int) =~= p.take(a.len() as int));
    } else {
        assert(collect_distinct(cands, limit, k).take(collect_distinct(cands, limit, k).len() as int)
            =~= collect_distinct(cands, limit, k));
    }
}

/// Over the same orbit, asking the Henon method for fewer cells gives a
/// prefix of the cells it gives for more.
pub proof fn lemma_henon_prefix(width: nat, height: nat, c1: nat, c2: nat, orbit: Seq<(usize, usize)>)
    requires
        c1 <= c2,
    ensures
        spec_henon_positions(width, height, c1, orbit).len() <= spec_henon_positions(
            width,
            height,
            c2,
            orbit,
        ).len(),
        spec_henon_positions(width, height, c1, orbit) == spec_henon_positions(width, height, c2, orbit).take(
            spec_henon_positions(width, height, c1, orbit).len() as int,
        ),
{
    let cands = henon_candidates(orbit, width, height);
    let n1 = if orbit.len() < c1 * 100 { orbit.len() } else { c1 * 100 };
    let n2 = if orbit.len() < c2 * 100 { orbit.len() } else { c2 * 100 };
    assert(n1 <= n2) by (nonlinear_arith)
        requires
            c1 <= c2,
            n1 == if orbit.len() < c1 * 100 { orbit.len() } else { c1 * 100 },
            n2 == if orbit.len() < c2 * 100 { orbit.len() } else { c2 * 100 },
    ;
    lemma_collect_limits(cands, c1, c2, n1);
    lemma_collect_grows(cands, c2, n1, n2);
    let a = collect_distinct(cands, c1, n1);
    let m = collect_distinct(cands, c2, n1);
    let b = collect_distinct(cands, c2, n2);
    assert(a =~= b.take(a.len() as int)) by {
        assert forall|j: int| 0 <= j < a.len() implies a[j] == b.take(a.len() as int)[j] by {
            assert(a[j] == m.take(a.len() as int)[j]);
            assert(m[j] == b.take(m.len() as int)[j]);
        }
    }
}


/// The ring of a point relative to the centre: the larger of its distances
/// from the centre along x and along y.
pub open spec fn ring_of(x: int, y: int) -> int {
    let ax = if x < 0 { -x } else { x };
    let ay = if y < 0 { -y } else { y };
    if ax < ay { ay } else { ax }
}

/// The ring of a cell around the centre of a `width` by `height` image.
pub open spec fn cell_ring(c: (usize, usize), width: nat, height: nat) -> int {
    ring_of(c.0 - (width / 2) as int, c.1 - (height / 2) as int)
}

/// A step of the spiral never moves to an inner ring.
proof fn lemma_spiral_step_ring(s: SpiralState, cx: int, cy: int)
    requires
        spiral_inv(s, cx, cy),
    ensures
        ring_of(s.x + s.dx - cx, s.y + s.dy - cy) >= ring_of(s.x - cx, s.y - cy),
{
    let t = s.turns;
    let m = t / 4;
    assert(t == 4 * m + t % 4);
    assert(t / 2 == 2 * m + (t % 4) / 2);
    let i = s.in_dir;
    if t % 4 == 0 {
        assert(s.x - cx == -m + i && s.y - cy == -m);
    } else if t % 4 == 1 {
        assert(s.x - cx == m + 1 && s.y - cy == -m + i);
    } else if t % 4 == 2 {
        assert(s.x - cx == m + 1 - i && s.y - cy == m + 1);
    } else {
        assert(s.x - cx == -(m + 1) && s.y - cy == m + 1 - i);
    }
}

/// The kept cells of every round lie on rings that never shrink, none
/// outside the ring of the current cell.
proof fn lemma_spiral_run_rings(width: nat, height: nat, count: nat, n: nat)
    requires
        width <= usize::MAX,
        height <= usize::MAX,
    ensures
        ({
            let s = spiral_run(width, height, count, n);
            let cx = (width / 2) as int;
            let cy = (height / 2) as int;
            &&& forall|i: int, j: int|
                0 <= i <= j < s.kept.len() ==> cell_ring(#[trigger] s.kept[i], width, height) <= cell_ring(
                    #[trigger] s.kept[j],
                    width,
                    height,
                )
            &&& forall|i: int|
                0 <= i < s.kept.len() ==> cell_ring(#[trigger] s.kept[i], width, height) <= ring_of(
                    s.x - cx,
                    s.y - cy,
                )
        }),
    decreases n,
{
    let cx = (width / 2) as int;
    let cy = (height / 2) as int;
    if n == 0 {
        let s = spiral_start(width, height);
        assert(s.kept[0] == ((width / 2) as usize, (height / 2) as usize));
    } else {
        lemma_spiral_run_rings(width, height, count, (n - 1) as nat);
        lemma_spiral_run_inv(width, height, count, (n - 1) as nat);
        let s = spiral_run(width, height, count, (n - 1) as nat);
        if !(s.kept.len() >= count || s.kept.len() > width * height) {
            lemma_spiral_step_ring(s, cx, cy);
            let x = s.x + s.dx;
            let y = s.y + s.dy;
            let nk = spiral_step(s, width, height).kept;
            let r = ring_of(x - cx, y - cy);
            assert forall|i: int| 0 <= i < nk.len() implies cell_ring(#[trigger] nk[i], width, height) <= r by {
                if i < s.kept.len() {
                    assert(nk[i] == s.kept[i]);
                } else {
                    assert(nk[i] == (x as usize, y as usize));
                }
            }
            assert forall|i: int, j: int| 0 <= i <= j < nk.len() implies cell_ring(
                #[trigger] nk[i],
                width,
                height,
            ) <= cell_ring(#[trigger] nk[j], width, height) by {
                if j < s.kept.len() {
                    assert(nk[i] == s.kept[i]);
                    assert(nk[j] == s.kept[j]);
                } else {
                    assert(nk[j] == (x as usize, y as usize));
                    if i < s.kept.len() {
                        assert(nk[i] == s.kept[i]);
                    }
                }
            }
        }
    }
}

/// The spiral goes outward: the ring of each cell around the centre is at
/// least that of every cell before it.
pub proof fn lemma_spiral_rings(width: nat, height: nat, count: nat)
    requires
        width <= usize::MAX,
        height <= usize::MAX,
    ensures
        forall|i: int, j: int|
            0 <= i <= j < spec_spiral_positions(width, height, count).len() ==> cell_ring(
                #[trigger] spec_spiral_positions(width, height, count)[i],
                width,
                height,
            ) <= cell_ring(#[trigger] spec_spiral_positions(width, height, count)[j], width, height),
{
    let kept = spiral_run(width, height, count, spiral_cap(width, height)).kept;
    lemma_spiral_run_rings(width, height, count, spiral_cap(width, height));
    let out = spec_spiral_positions(width, height, count);
    assert forall|i: int, j: int| 0 <= i <= j < out.len() implies cell_ring(#[trigger] out[i], width, height)
        <= cell_ring(#[trigger] out[j], width, height) by {
        assert(out[i] == kept[i]);
        assert(out[j] == kept[j]);
    }
}


/// While the spiral has not stopped, it is within the round cap, on one of
/// the first `4 * (width + height) + 1` legs, and it and its next cell lie
/// within `width + height + 1` of the centre along each axis.
proof fn lemma_spiral_live(width: nat, height: nat, count: nat, n: nat)
    requires
        width <= usize::MAX,
        height <= usize::MAX,
        count <= width * height || width * height == 0,
        !(spiral_run(width, height, count, n).kept.len() >= count || spiral_run(
            width,
            height,
            count,
            n,
        ).kept.len() > width * height),
    ensures
        n < spiral_cap(width, height),
        ({
            let s = spiral_run(width, height, count, n);
            let cx = (width / 2) as int;
            let cy = (height / 2) as int;
            let r = (width + height) as int;
            &&& 0 <= s.turns <= 4 * r
            &&& 1 <= s.steps <= 2 * r + 1
            &&& 0 <= s.in_dir < s.steps
            &&& -1 <= s.dx <= 1 && -1 <= s.dy <= 1
            &&& -(r + 1) <= s.x - cx <= r + 1 && -(r + 1) <= s.y - cy <= r + 1
            &&& -(r + 1) <= s.x + s.dx - cx <= r + 1 && -(r + 1) <= s.y + s.dy - cy <= r + 1
        }),
{
    let cap = spiral_cap(width, height);
    let s = spiral_run(width, height, count, n);
    let cx = (width / 2) as int;
    let cy = (height / 2) as int;
    let big_r = (width + height) as nat;
    if n >= cap {
        lemma_spiral_cap_suffices(width, height, count, n);
    }
    lemma_spiral_run_inv(width, height, count, n);
    lemma_spiral_run_cover(width, height, count, n);
    let t = s.turns;
    lemma_leg_total_closed(2 * big_r);
    assert(leg_total(4 * big_r + 1) == cap) by (nonlinear_arith)
        requires
            leg_total(2 * (2 * big_r) + 1) == (2 * big_r + 1) * (2 * big_r + 1),
            cap == (2 * big_r + 1) * (2 * big_r + 1),
    ;
    assert(t <= 4 * big_r) by {
        if t > 4 * big_r {
            lemma_leg_total_monotone(4 * big_r + 1, t as nat);
        }
    }
    let m = t / 4;
    assert(t == 4 * m + t % 4);
    assert(t / 2 == 2 * m + (t % 4) / 2);
    let i = s.in_dir;
    if t % 4 == 0 {
        assert(s.x - cx == -m + i && s.y - cy == -m);
    } else if t % 4 == 1 {
        assert(s.x - cx == m + 1 && s.y - cy == -m + i);
    } else if t % 4 == 2 {
        assert(s.x - cx == m + 1 - i && s.y - cy == m + 1);
    } else {
        assert(s.x - cx == -(m + 1) && s.y - cy == m + 1 - i);
    }
}


/// No method yields more cells than were asked for, except that the prime
/// method yields one cell when asked for none.
pub proof fn lemma_generated_len(
    width: nat,
    height: nat,
    seed: Seq<u8>,
    count: nat,
    method: Seq<char>,
    orbit: Seq<(usize, usize)>,
)
    ensures
        spec_generate(width, height, seed, count, method, orbit).len() <= if method == "prime"@ && count == 0 {
            1
        } else {
            count
        },
{
    if method == "prime"@ {
        let cands = prime_candidates(
            spec_sieve_primes(width * height),
            (spec_seed_int(seed) % 1000) as nat,
            width,
            height,
        );
        lemma_collect_distinct(cands, if count == 0 { 1 } else { count }, cands.len());
    } else if method == "spiral"@ {
    } else if method == "random"@ {
        lemma_collect_distinct(random_candidates(seed, width, height, count * 100 + 1), count, count * 100 + 1);
    } else {
        let n = if orbit.len() < count * 100 { orbit.len() } else { count * 100 };
        lemma_collect_distinct(henon_candidates(orbit, width, height), count, n);
    }
}


/// Every candidate looked at is kept, unless the limit has been reached.
proof fn lemma_collect_keeps(cands: Seq<(usize, usize)>, limit: nat, n: nat)
    requires
        n <= cands.len(),
    ensures
        forall|k: int|
            0 <= k < n ==> collect_distinct(cands, limit, n).len() >= limit || collect_distinct(
                cands,
                limit,
                n,
            ).contains(#[trigger] cands[k]),
    decreases n,
{
    if n > 0 {
        lemma_collect_keeps(cands, limit, (n - 1) as nat);
        let prev = collect_distinct(cands, limit, (n - 1) as nat);
        let cur = collect_distinct(cands, limit, n);
        assert forall|k: int| 0 <= k < n implies cur.len() >= limit || cur.contains(#[trigger] cands[k]) by {
            if !(prev.len() >= limit || prev.contains(cands[n - 1])) {
                assert(cur[cur.len() - 1] == cands[n - 1]);
                if k < n - 1 && prev.contains(cands[k]) {
                    let j = choose|j: int| 0 <= j < prev.len() && prev[j] == cands[k];
                    assert(cur[j] == cands[k]);
                }
            }
        }
    }
}

/// The Henon method reads the orbit in order: orbit point `k`, taken modulo
/// the image, gives the cell in column `x mod width` and row `y mod height`.
/// The first point's cell comes first, every cell comes from one of the
/// first `100 * count` points, and each of those points' cells is kept
/// unless `count` cells already are.
pub proof fn lemma_henon_cells(width: nat, height: nat, count: nat, orbit: Seq<(usize, usize)>)
    requires
        width > 0,
        height > 0,
    ensures
        ({
            let out = spec_henon_positions(width, height, count, orbit);
            let n = if orbit.len() < count * 100 { orbit.len() } else { count * 100 };
            &&& forall|j: int|
                0 <= j < out.len() ==> exists|k: int|
                    0 <= k < n && #[trigger] out[j] == ((orbit[k].0 as nat % width) as usize, (orbit[k].1 as nat % height) as usize)
            &&& forall|k: int|
                0 <= k < n ==> out.len() >= count || out.contains(
                    (((#[trigger] orbit[k]).0 as nat % width) as usize, (orbit[k].1 as nat % height) as usize),
                )
            &&& (count >= 1 && orbit.len() >= 1) ==> (out.len() >= 1 && out[0] == (
                (orbit[0].0 as nat % width) as usize,
                (orbit[0].1 as nat % height) as usize,
            ))
        }),
{
    let cands = henon_candidates(orbit, width, height);
    let n = if orbit.len() < count * 100 { orbit.len() } else { count * 100 };
    let out = collect_distinct(cands, count, n);
    lemma_collect_distinct(cands, count, n);
    lemma_collect_keeps(cands, count, n);
    assert forall|j: int| 0 <= j < out.len() implies exists|k: int|
        0 <= k < n && #[trigger] out[j] == ((orbit[k].0 as nat % width) as usize, (orbit[k].1 as nat % height) as usize) by {
        let k = choose|k: int| 0 <= k < n && cands[k] == #[trigger] out[j];
        assert(cands[k] == ((orbit[k].0 as nat % width) as usize, (orbit[k].1 as nat % height) as usize));
    }
    assert forall|k: int| 0 <= k < n implies out.len() >= count || out.contains(
        (((#[trigger] orbit[k]).0 as nat % width) as usize, (orbit[k].1 as nat % height) as usize),
    ) by {
        assert(cands[k] == ((orbit[k].0 as nat % width) as usize, (orbit[k].1 as nat % height) as usize));
    }
    if count >= 1 && orbit.len() >= 1 {
        assert(n >= 1) by (nonlinear_arith)
            requires
                count >= 1,
                orbit.len() >= 1,
                n == if orbit.len() < count * 100 { orbit.len() } else { count * 100 },
        ;
        assert(collect_distinct(cands, count, 0) =~= Seq::<(usize, usize)>::empty());
        assert(collect_distinct(cands, count, 1) == seq![cands[0]]);
        lemma_collect_grows(cands, count, 1, n);
        assert(out.take(1)[0] == out[0]);
        assert(cands[0] == ((orbit[0].0 as nat % width) as usize, (orbit[0].1 as nat % height) as usize));
    }
}

} // verus!
