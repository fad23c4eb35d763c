//! Key-ordered shuffling of byte buffers.
//!
//! The shuffle order is the stable ascending sort of a sequence of keys:
//! position `i` of the shuffled buffer holds the byte whose key has rank `i`.
//! The keys are the bit patterns of the chaotic sequence that drives the
//! shuffle; for the non-negative values of that sequence the bit patterns
//! order exactly as the values do.
use vstd::prelude::*;

verus! {

/// Index `a` comes before index `b`: smaller key first, ties broken by index.
pub open spec fn key_before(keys: Seq<u64>, a: int, b: int) -> bool {
    keys[a] < keys[b] || (keys[a] == keys[b] && a < b)
}

/// `perm` lists each index below `n` exactly once, in `key_before` order.
pub open spec fn is_sort_order_of(keys: Seq<u64>, perm: Seq<usize>, n: int) -> bool {
    &&& perm.len() == n
    &&& forall|i: int| 0 <= i < perm.len() ==> #[trigger] perm[i] < n
    &&& forall|i: int, j: int|
        #![trigger perm[i], perm[j]]
        0 <= i < j < perm.len() ==> key_before(keys, perm[i] as int, perm[j] as int)
    &&& forall|k: int| 0 <= k < n ==> #[trigger] occurs(perm, k)
}

/// `k` is listed somewhere in `perm`.
pub open spec fn occurs(perm: Seq<usize>, k: int) -> bool {
    exists|i: int| 0 <= i < perm.len() && #[trigger] perm[i] == k
}

/// `perm` is the stable sort order of all of `keys`.
pub open spec fn is_sort_order(keys: Seq<u64>, perm: Seq<usize>) -> bool {
    is_sort_order_of(keys, perm, keys.len() as int)
}

/// Where index `x` goes when inserted into `perm` (searching from `p`):
/// before the first entry whose key is larger than the key of `x`.
pub open spec fn insert_pos(keys: Seq<u64>, perm: Seq<usize>, x: usize, p: int) -> int
    decreases perm.len() - p,
{
    if p >= perm.len() || p < 0 || keys[x as int] < keys[perm[p] as int] {
        p
    } else {
        insert_pos(keys, perm, x, p + 1)
    }
}

/// The sort order of the first `i` indices, built by successive insertion.
pub open spec fn sort_prefix(keys: Seq<u64>, i: nat) -> Seq<usize>
    decreases i,
{
    if i == 0 {
        Seq::empty()
    } else {
        let s = sort_prefix(keys, (i - 1) as nat);
        s.insert(insert_pos(keys, s, (i - 1) as usize, 0), (i - 1) as usize)
    }
}

/// The stable ascending sort order of `keys`.
pub open spec fn spec_sort_order(keys: Seq<u64>) -> Seq<usize> {
    sort_prefix(keys, keys.len())
}

/// The position at which `perm` holds `j`.
pub open spec fn position_of(perm: Seq<usize>, j: int) -> int {
    choose|i: int| 0 <= i < perm.len() && perm[i] == j
}

/// Forward shuffle gathers `data[perm[i]]` into slot `i`; the reverse shuffle
/// scatters `data[i]` back to slot `perm[i]`.
pub open spec fn spec_permute(data: Seq<u8>, perm: Seq<usize>, reverse: bool) -> Seq<u8> {
    if reverse {
        Seq::new(data.len(), |j: int| data[position_of(perm, j)])
    } else {
        Seq::new(data.len(), |i: int| data[perm[i] as int])
    }
}

/// What `chaotic_shuffle` returns for the given keys.
pub open spec fn spec_chaotic_shuffle(data: Seq<u8>, keys: Seq<u64>, reverse: bool) -> Seq<u8> {
    if data.len() == 0 {
        Seq::empty()
    } else {
        spec_permute(data, spec_sort_order(keys), reverse)
    }
}

proof fn lemma_insert_pos(keys: Seq<u64>, perm: Seq<usize>, x: usize, p: int)
    requires
        0 <= p <= perm.len(),
        x < keys.len(),
        forall|i: int| 0 <= i < perm.len() ==> #[trigger] perm[i] < x,
        forall|i: int| 0 <= i < perm.len() ==> #[trigger] perm[i] < keys.len(),
        forall|q: int| 0 <= q < p ==> key_before(keys, #[trigger] perm[q] as int, x as int),
    ensures
        p <= insert_pos(keys, perm, x, p) <= perm.len(),
        forall|q: int|
            0 <= q < insert_pos(keys, perm, x, p) ==> key_before(
                keys,
                #[trigger] perm[q] as int,
                x as int,
            ),
        insert_pos(keys, perm, x, p) < perm.len() ==> keys[x as int]
            < keys[perm[insert_pos(keys, perm, x, p)] as int],
    decreases perm.len() - p,
{
    if p >= perm.len() || keys[x as int] < keys[perm[p] as int] {
    } else {
        assert(key_before(keys, perm[p] as int, x as int));
        lemma_insert_pos(keys, perm, x, p + 1);
    }
}

proof fn lemma_sort_prefix(keys: Seq<u64>, i: nat)
    requires
        i <= keys.len(),
        keys.len() <= usize::MAX,
    ensures
        is_sort_order_of(keys, sort_prefix(keys, i), i as int),
    decreases i,
{
    if i > 0 {
        let s = sort_prefix(keys, (i - 1) as nat);
        lemma_sort_prefix(keys, (i - 1) as nat);
        let x = (i - 1) as usize;
        lemma_insert_pos(keys, s, x, 0);
        let pos = insert_pos(keys, s, x, 0);
        let t = s.insert(pos, x);
        assert(t == sort_prefix(keys, i));
        assert forall|a: int| 0 <= a < t.len() implies #[trigger] t[a] < i by {
            if a < pos {
                assert(t[a] == s[a]);
            } else if a > pos {
                assert(t[a] == s[a - 1]);
            }
        }
        assert forall|a: int, b: int| 0 <= a < b < t.len() implies key_before(
            keys,
            #[trigger] t[a] as int,
            #[trigger] t[b] as int,
        ) by {
            if a < pos && b < pos {
                assert(t[a] == s[a] && t[b] == s[b]);
            } else if a < pos && b == pos {
                assert(t[a] == s[a]);
            } else if a < pos && b > pos {
                assert(t[a] == s[a] && t[b] == s[b - 1]);
                assert(key_before(keys, s[a] as int, x as int));
                assert(key_before(keys, x as int, s[pos] as int));
                if pos < b - 1 {
                    assert(key_before(keys, s[pos] as int, s[b - 1] as int));
                }
            } else if a == pos {
                assert(t[b] == s[b - 1]);
                assert(key_before(keys, x as int, s[pos] as int));
                if pos < b - 1 {
                    assert(key_before(keys, s[pos] as int, s[b - 1] as int));
                }
            } else {
                assert(t[a] == s[a - 1] && t[b] == s[b - 1]);
            }
        }
        assert forall|k: int| 0 <= k < i implies #[trigger] occurs(t, k) by {
            if k == x {
                assert(t[pos] == k);
            } else {
                assert(occurs(s, k));
                let a = choose|a: int| 0 <= a < s.len() && #[trigger] s[a] == k;
                if a < pos {
                    assert(t[a] == k);
                } else {
                    assert(t[a + 1] == k);
                }
            }
        }
    }
}

/// Every key sequence has a sort order: the one `spec_sort_order` gives.
pub proof fn lemma_sort_order_exists(keys: Seq<u64>)
    requires
        keys.len() <= usize::MAX,
    ensures
        is_sort_order(keys, spec_sort_order(keys)),
{
    lemma_sort_prefix(keys, keys.len());
}

proof fn lemma_sort_order_prefix_eq(keys: Seq<u64>, p1: Seq<usize>, p2: Seq<usize>, i: int)
    requires
        is_sort_order(keys, p1),
        is_sort_order(keys, p2),
        0 <= i < p1.len(),
    ensures
        forall|j: int| 0 <= j <= i ==> p1[j] == p2[j],
    decreases i,
{
    if i > 0 {
        lemma_sort_order_prefix_eq(keys, p1, p2, i - 1);
    }
    let a = p1[i];
    let b = p2[i];
    if a != b {
        if key_before(keys, a as int, b as int) {
            assert(occurs(p2, a as int));
            let j = choose|j: int| 0 <= j < p2.len() && #[trigger] p2[j] == a as int;
            if j < i {
                assert(p1[j] == a);
                assert(key_before(keys, p1[j] as int, p1[i] as int));
            } else {
                assert(key_before(keys, p2[i] as int, p2[j] as int));
            }
        } else {
            assert(occurs(p1, b as int));
            let j = choose|j: int| 0 <= j < p1.len() && #[trigger] p1[j] == b as int;
            if j < i {
                assert(p2[j] == b);
                assert(key_before(keys, p2[j] as int, p2[i] as int));
            } else {
                assert(key_before(keys, p1[i] as int, p1[j] as int));
            }
        }
    }
}

/// A sort order is unique: any sequence that lists every index once in
/// ascending key order is `spec_sort_order(keys)`.
pub proof fn lemma_sort_order_unique(keys: Seq<u64>, perm: Seq<usize>)
    requires
        is_sort_order(keys, perm),
        keys.len() <= usize::MAX,
    ensures
        perm == spec_sort_order(keys),
{
    lemma_sort_order_exists(keys);
    let s = spec_sort_order(keys);
    if perm.len() > 0 {
        lemma_sort_order_prefix_eq(keys, perm, s, perm.len() - 1);
    }
    assert(perm =~= s);
}

proof fn lemma_position_of(keys: Seq<u64>, perm: Seq<usize>, j: int)
    requires
        is_sort_order(keys, perm),
        0 <= j < perm.len(),
    ensures
        0 <= position_of(perm, j) < perm.len(),
        perm[position_of(perm, j)] == j,
        forall|i: int| 0 <= i < perm.len() && perm[i] == j ==> i == position_of(perm, j),
{
    assert(occurs(perm, j));
    let p = position_of(perm, j);
    assert forall|i: int| 0 <= i < perm.len() && perm[i] == j implies i == p by {
        if i < p {
            assert(key_before(keys, perm[i] as int, perm[p] as int));
        } else if i > p {
            assert(key_before(keys, perm[p] as int, perm[i] as int));
        }
    }
}

/// Shuffling back with the same keys undoes a shuffle, and shuffling undoes
/// shuffling back: the two directions are inverse permutations.
pub proof fn lemma_shuffle_roundtrip(data: Seq<u8>, keys: Seq<u64>)
    requires
        keys.len() == data.len(),
        keys.len() <= usize::MAX,
    ensures
        spec_chaotic_shuffle(spec_chaotic_shuffle(data, keys, false), keys, true) == data,
        spec_chaotic_shuffle(spec_chaotic_shuffle(data, keys, true), keys, false) == data,
{
    lemma_sort_order_exists(keys);
    let perm = spec_sort_order(keys);
    if data.len() > 0 {
        let fwd = spec_permute(data, perm, false);
        let back = spec_permute(fwd, perm, true);
        assert forall|j: int| 0 <= j < data.len() implies back[j] == data[j] by {
            lemma_position_of(keys, perm, j);
        }
        assert(back =~= data);
        let rev = spec_permute(data, perm, true);
        let again = spec_permute(rev, perm, false);
        assert forall|i: int| 0 <= i < data.len() implies again[i] == data[i] by {
            let j = perm[i] as int;
            lemma_position_of(keys, perm, j);
        }
        assert(again =~= data);
    }
}

/// Computes the stable ascending sort order of `keys` by insertion.
pub fn sort_order(keys: &[u64]) -> (perm: Vec<usize>)
    ensures
        perm@ == spec_sort_order(keys@),
        is_sort_order(keys@, perm@),
{
    let n: usize = keys.len();
    let mut perm: Vec<usize> = Vec::new();
    let mut i: usize = 0;
    while i < n
        invariant
            n == keys@.len(),
            i <= n,
            perm@ == sort_prefix(keys@, i as nat),
            is_sort_order_of(keys@, perm@, i as int),
        decreases n - i,
    {
        proof {
            lemma_sort_prefix(keys@, i as nat);
        }
        let mut p: usize = 0;
        while p < perm.len() && !(keys[i] < keys[perm[p]])
            invariant
                n == keys@.len(),
                i < n,
                p <= perm@.len(),
                is_sort_order_of(keys@, perm@, i as int),
                insert_pos(keys@, perm@, i, p as int) == insert_pos(keys@, perm@, i, 0),
            decreases perm@.len() - p,
        {
            p = p + 1;
        }
        proof {
            lemma_sort_prefix(keys@, (i + 1) as nat);
        }
        perm.insert(p, i);
        i = i + 1;
    }
    proof {
        lemma_sort_prefix(keys@, n as nat);
    }
    perm
}

/// Rearranges `data` by the sort order of `keys`; with `reverse` it puts
/// every byte back where a forward shuffle with the same keys took it from.
pub fn chaotic_shuffle(data: &[u8], keys: &[u64], reverse: bool) -> (result: Vec<u8>)
    requires
        keys@.len() == data@.len(),
    ensures
        result@ == spec_chaotic_shuffle(data@, keys@, reverse),
{
    let n: usize = data.len();
    if n == 0 {
        return Vec::new();
    }
    let perm = sort_order(keys);
    let ghost g = perm@;
    let mut result: Vec<u8> = vec![0u8; n];
    let mut i: usize = 0;
    if reverse {
        while i < n
            invariant
                n == data@.len(),
                g == perm@,
                is_sort_order(keys@, g),
                keys@.len() == n,
                result@.len() == n,
                i <= n,
                forall|k: int| 0 <= k < i ==> result@[#[trigger] g[k] as int] == data@[k],
            decreases n - i,
        {
            let target: usize = perm[i];
            let ghost before = result@;
            result.set(target, data[i]);
            assert forall|k: int| 0 <= k < i + 1 implies result@[#[trigger] g[k] as int]
                == data@[k] by {
                if k < i {
                    assert(key_before(keys@, g[k] as int, g[i as int] as int));
                }
            }
            i = i + 1;
        }
        assert forall|j: int| 0 <= j < n implies result@[j] == spec_permute(
            data@,
            g,
            true,
        )[j] by {
            lemma_position_of(keys@, g, j);
            let p = position_of(g, j);
            assert(result@[g[p] as int] == data@[p]);
        }
    } else {
        while i < n
            invariant
                n == data@.len(),
                g == perm@,
                is_sort_order(keys@, g),
                keys@.len() == n,
                result@.len() == n,
                i <= n,
                forall|k: int| 0 <= k < i ==> result@[k] == data@[g[k] as int],
            decreases n - i,
        {
            let source: usize = perm[i];
            result.set(i, data[source]);
            i = i + 1;
        }
    }
    assert(result@ =~= spec_permute(data@, g, reverse));
    result
}

} // verus!
