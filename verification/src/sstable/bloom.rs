//! The bloom filter of a table: double hashing over an Fx fold of the key
//! finished by `SplitMix64`.

use vstd::prelude::*;

verus! {

/// Seed and multiplier of the Fx-style fold.
pub const FX_SEED: u64 = 0x51_7c_c1_b7_27_22_0a_95;

/// Increment of `SplitMix64`.
pub const MIX_STEP: u64 = 0x9e37_79b9_7f4a_7c15;

/// `h` with its bits rotated left by five.
pub open spec fn rotl5(h: u64) -> u64 {
    (h << 5u64) | (h >> 59u64)
}

/// The Fx-style fold of the key bytes.
pub open spec fn fold_of(key: Seq<u8>) -> u64
    decreases key.len(),
{
    if key.len() == 0 {
        FX_SEED
    } else {
        rotl5(fold_of(key.drop_last())).wrapping_add(key.last() as u64).wrapping_mul(FX_SEED)
    }
}

/// The `SplitMix64` finalizer.
#[verifier::opaque]
pub open spec fn mix_of(x: u64) -> u64 {
    let a = x.wrapping_add(MIX_STEP);
    let b = (a ^ (a >> 30u64)).wrapping_mul(0xbf58_476d_1ce4_e5b9u64);
    let c = (b ^ (b >> 27u64)).wrapping_mul(0x94d0_49bb_1331_11ebu64);
    c ^ (c >> 31u64)
}

/// The two hashes of `key`.
pub open spec fn hashes_of(key: Seq<u8>) -> (u64, u64) {
    let h1 = mix_of(fold_of(key));
    (h1, mix_of(h1 ^ MIX_STEP))
}

/// The position of probe `i` of `key` in a filter of `bits` bits.
#[verifier::opaque]
pub open spec fn probe_pos(key: Seq<u8>, i: u8, bits: u64) -> u64 {
    let (h1, h2) = hashes_of(key);
    h1.wrapping_add((i as u64).wrapping_mul(h2)) % bits
}

/// Bit `p` of the filter is set.
pub open spec fn bit_at(bloom: Seq<u8>, p: int) -> bool {
    (bloom[p / 8] >> ((p % 8) as u8)) & 1u8 == 1u8
}

/// The filter with bit `p` set.
pub open spec fn bit_put(bloom: Seq<u8>, p: int) -> Seq<u8> {
    bloom.update(p / 8, bloom[p / 8] | (1u8 << ((p % 8) as u8)))
}

/// All `k` probe bits of `key` are set.
pub open spec fn bloom_has(bloom: Seq<u8>, key: Seq<u8>, k: u8) -> bool {
    forall|i: u8|
        i < k ==> bit_at(bloom, #[trigger] probe_pos(key, i, (bloom.len() * 8) as u64) as int)
}

/// The filter with the first `n` probe bits of `key` set.
pub open spec fn bloom_put(bloom: Seq<u8>, key: Seq<u8>, n: nat) -> Seq<u8>
    decreases n,
{
    if n == 0 {
        bloom
    } else {
        let b = bloom_put(bloom, key, (n - 1) as nat);
        bit_put(b, probe_pos(key, (n - 1) as u8, (bloom.len() * 8) as u64) as int)
    }
}

/// The filter of `size` bytes that holds exactly `keys`.
pub open spec fn bloom_of(keys: Seq<Seq<u8>>, k: u8, size: nat) -> Seq<u8>
    decreases keys.len(),
{
    if keys.len() == 0 {
        Seq::new(size, |i: int| 0u8)
    } else {
        bloom_put(bloom_of(keys.drop_last(), k, size), keys.last(), k as nat)
    }
}

proof fn lemma_byte_bit(b: u8, j: u8, i: u8)
    requires
        i < 8,
        j < 8,
    ensures
        ((b | (1u8 << j)) >> i) & 1u8 == (if i == j {
            1u8
        } else {
            (b >> i) & 1u8
        }),
{
    assert(((b | (1u8 << j)) >> i) & 1u8 == (if i == j {
        1u8
    } else {
        (b >> i) & 1u8
    })) by (bit_vector)
        requires
            i < 8,
            j < 8,
    ;
}

proof fn lemma_bit_put(bloom: Seq<u8>, p: int, q: int)
    requires
        0 <= p < bloom.len() * 8,
        0 <= q < bloom.len() * 8,
    ensures
        bit_put(bloom, p).len() == bloom.len(),
        bit_at(bit_put(bloom, p), q) == (p == q || bit_at(bloom, q)),
{
    if p / 8 == q / 8 {
        lemma_byte_bit(bloom[p / 8], (p % 8) as u8, (q % 8) as u8);
    }
}

proof fn lemma_probe_range(key: Seq<u8>, i: u8, n: nat)
    requires
        0 < n * 8 <= u64::MAX,
    ensures
        0 <= probe_pos(key, i, (n * 8) as u64) < n * 8,
{
    reveal(probe_pos);
}

/// Putting a key sets its probe bits and clears none.
proof fn lemma_bloom_put(bloom: Seq<u8>, key: Seq<u8>, n: nat)
    requires
        0 < bloom.len() * 8 <= u64::MAX,
        n <= 255,
    ensures
        bloom_put(bloom, key, n).len() == bloom.len(),
        forall|q: int|
            0 <= q < bloom.len() * 8 && #[trigger] bit_at(bloom, q) ==> bit_at(
                bloom_put(bloom, key, n),
                q,
            ),
        forall|i: u8|
            i < n ==> bit_at(
                bloom_put(bloom, key, n),
                #[trigger] probe_pos(key, i, (bloom.len() * 8) as u64) as int,
            ),
    decreases n,
{
    if n > 0 {
        let m = (n - 1) as nat;
        lemma_bloom_put(bloom, key, m);
        let b = bloom_put(bloom, key, m);
        let bits = (bloom.len() * 8) as u64;
        let p = probe_pos(key, m as u8, bits) as int;
        lemma_probe_range(key, m as u8, bloom.len());
        assert forall|q: int| 0 <= q < bloom.len() * 8 && #[trigger] bit_at(bloom, q) implies bit_at(
            bloom_put(bloom, key, n),
            q,
        ) by {
            lemma_bit_put(b, p, q);
        }
        assert forall|i: u8| i < n implies bit_at(
            bloom_put(bloom, key, n),
            #[trigger] probe_pos(key, i, bits) as int,
        ) by {
            lemma_probe_range(key, i, bloom.len());
            lemma_bit_put(b, p, probe_pos(key, i, bits) as int);
        }
        lemma_bit_put(b, p, p);
    }
}

/// The filter never denies a key it holds: no false negatives.
pub proof fn law_bloom_no_false_negative(keys: Seq<Seq<u8>>, k: u8, size: nat, i: int)
    requires
        0 < size * 8 <= u64::MAX,
        0 <= i < keys.len(),
    ensures
        bloom_of(keys, k, size).len() == size,
        bloom_has(bloom_of(keys, k, size), keys[i], k),
    decreases keys.len(),
{
    lemma_bloom_len(keys, k, size);
    let before = bloom_of(keys.drop_last(), k, size);
    lemma_bloom_len(keys.drop_last(), k, size);
    let after = bloom_of(keys, k, size);
    lemma_bloom_put(before, keys.last(), k as nat);
    if i < keys.len() - 1 {
        law_bloom_no_false_negative(keys.drop_last(), k, size, i);
        assert forall|j: u8| j < k implies bit_at(
            after,
            #[trigger] probe_pos(keys[i], j, (after.len() * 8) as u64) as int,
        ) by {
            lemma_probe_range(keys[i], j, size);
            assert(bit_at(before, probe_pos(keys[i], j, (before.len() * 8) as u64) as int));
        }
    }
}

/// Putting a key sets none but its probe bits.
proof fn lemma_put_sets(bloom: Seq<u8>, key: Seq<u8>, n: nat, q: int) -> (j: u8)
    requires
        0 < bloom.len() * 8 <= u64::MAX,
        n <= 255,
        0 <= q < bloom.len() * 8,
        !bit_at(bloom, q),
        bit_at(bloom_put(bloom, key, n), q),
    ensures
        j < n,
        q == probe_pos(key, j, (bloom.len() * 8) as u64),
    decreases n,
{
    let m = (n - 1) as nat;
    let b = bloom_put(bloom, key, m);
    let bits = (bloom.len() * 8) as u64;
    let p = probe_pos(key, m as u8, bits) as int;
    lemma_put_len(bloom, key, m);
    lemma_probe_range(key, m as u8, bloom.len());
    lemma_bit_put(b, p, q);
    if p == q {
        m as u8
    } else {
        lemma_put_sets(bloom, key, m, q)
    }
}

/// A bit of the filter is set only by a probe of one of its keys.
pub proof fn law_bloom_sets_no_other(keys: Seq<Seq<u8>>, k: u8, size: nat, q: int) -> (r: (int, u8))
    requires
        0 < size * 8 <= u64::MAX,
        0 <= q < size * 8,
        bit_at(bloom_of(keys, k, size), q),
    ensures
        0 <= r.0 < keys.len(),
        r.1 < k,
        q == probe_pos(keys[r.0], r.1, (size * 8) as u64),
    decreases keys.len(),
{
    if keys.len() == 0 {
        assert(!bit_at(bloom_of(keys, k, size), q)) by {
            let s = (q % 8) as u8;
            assert((0u8 >> s) & 1u8 != 1u8) by (bit_vector)
                requires
                    s < 8,
            ;
        }
        (0, 0)
    } else {
        let before = bloom_of(keys.drop_last(), k, size);
        lemma_bloom_len(keys.drop_last(), k, size);
        if bit_at(before, q) {
            law_bloom_sets_no_other(keys.drop_last(), k, size, q)
        } else {
            let j = lemma_put_sets(before, keys.last(), k as nat, q);
            (keys.len() - 1, j)
        }
    }
}

/// A key is denied where one of its probes meets no probe of a key in the
/// filter; an empty filter denies every key.
pub proof fn law_bloom_denies(keys: Seq<Seq<u8>>, k: u8, size: nat, key: Seq<u8>, j: u8)
    requires
        0 < size * 8 <= u64::MAX,
        j < k,
        forall|i: int, m: u8|
            0 <= i < keys.len() && m < k ==> #[trigger] probe_pos(keys[i], m, (size * 8) as u64)
                != probe_pos(key, j, (size * 8) as u64),
    ensures
        !bloom_has(bloom_of(keys, k, size), key, k),
{
    lemma_bloom_len(keys, k, size);
    lemma_probe_range(key, j, size);
    let q = probe_pos(key, j, (size * 8) as u64) as int;
    if bit_at(bloom_of(keys, k, size), q) {
        let (i, m) = law_bloom_sets_no_other(keys, k, size, q);
        assert(probe_pos(keys[i], m, (size * 8) as u64) != q);
    }
}

/// The number of probes is the largest whose share of the filter is within
/// ln 2 (0.693) of the bits per key, but at least one and at most thirty.
pub proof fn law_probe_count(bits: int, entries: int)
    requires
        0 <= bits,
        0 < entries,
        entries * 1000 <= u64::MAX,
        bits * 693 <= u64::MAX,
    ensures
        1 <= probes_for(bits, entries) <= 30,
        probes_for(bits, entries) > 1 ==> probes_for(bits, entries) * entries * 1000 <= bits * 693,
        probes_for(bits, entries) < 30 ==> bits * 693 < (probes_for(bits, entries) + 1) * entries
            * 1000,
{
    let n = bits * 693;
    let d = entries * 1000;
    let q = n / d;
    let k = probes_for(bits, entries);
    assert(d > 0 && n >= 0);
    vstd::arithmetic::div_mod::lemma_fundamental_div_mod(n, d);
    assert(d * q <= n < d * q + d);
    assert(k * entries * 1000 == k * d && (k + 1) * entries * 1000 == (k + 1) * d)
        by (nonlinear_arith)
        requires
            d == entries * 1000,
    ;
    if k > 1 {
        assert(k * d <= d * q) by (nonlinear_arith)
            requires
                k <= q,
                d > 0,
        ;
    }
    if k < 30 {
        assert(d * q + d <= (k + 1) * d) by (nonlinear_arith)
            requires
                q <= k,
                d > 0,
        ;
    }
}

/// The filter has the size asked for.
pub proof fn lemma_bloom_len(keys: Seq<Seq<u8>>, k: u8, size: nat)
    requires
        0 < size * 8 <= u64::MAX,
    ensures
        bloom_of(keys, k, size).len() == size,
    decreases keys.len(),
{
    if keys.len() > 0 {
        lemma_bloom_len(keys.drop_last(), k, size);
        lemma_put_len(bloom_of(keys.drop_last(), k, size), keys.last(), k as nat);
    }
}

proof fn lemma_put_len(bloom: Seq<u8>, key: Seq<u8>, n: nat)
    requires
        0 < bloom.len() * 8 <= u64::MAX,
    ensures
        bloom_put(bloom, key, n).len() == bloom.len(),
    decreases n,
{
    if n > 0 {
        lemma_put_len(bloom, key, (n - 1) as nat);
        lemma_probe_range(key, (n - 1) as u8, bloom.len());
    }
}

/// The number of probes for `entries` keys in `bits` bits: `bits * 693 /
/// (entries * 1000)` within `[1, 30]`, and 1 where a product overflows.
pub open spec fn probes_for(bits: int, entries: int) -> int {
    let k = if entries > 0 && entries * 1000 <= u64::MAX && bits * 693 <= u64::MAX {
        (bits * 693) / (entries * 1000)
    } else {
        1
    };
    if k < 1 {
        1
    } else if k > 30 {
        30
    } else {
        k
    }
}

/// Number of bloom probes for `entries` keys in a `bloom_bits`-bit filter.
///
/// Optimal `k` is about `(m/n) * ln 2`, clamped to `[1, 30]`; computed with
/// integer math (`ln 2` about `693/1000`). Past 30 probes the false-positive
/// gain is noise.
#[must_use]
pub fn bloom_k(bloom_bits: usize, entries: u64) -> (r: u8)
    ensures
        r == probes_for(bloom_bits as int, entries as int),
        1 <= r <= 30,
{
    let mut k: u64 = 1;
    if entries > 0 {
        match (entries.checked_mul(1000), (bloom_bits as u64).checked_mul(693)) {
            (Some(den), Some(num)) => {
                k = num / den;
            },
            _ => {},
        }
    }
    if k < 1 {
        1
    } else if k > 30 {
        30
    } else {
        k as u8
    }
}

/// Fx-style fold of the key bytes.
fn fx_fold(key: &[u8]) -> (r: u64)
    ensures
        r == fold_of(key@),
{
    let mut h: u64 = FX_SEED;
    let n: usize = key.len();
    let mut i: usize = 0;
    while i < n
        invariant
            n == key@.len(),
            i <= n,
            h == fold_of(key@.take(i as int)),
        decreases n - i,
    {
        proof {
            assert(key@.take(i + 1).drop_last() =~= key@.take(i as int));
            assert(key@.take(i + 1).last() == key@[i as int]);
        }
        h = ((h << 5u64) | (h >> 59u64)).wrapping_add(key[i] as u64).wrapping_mul(FX_SEED);
        i = i + 1;
    }
    assert(key@.take(n as int) =~= key@);
    h
}

/// `SplitMix64` finalizer.
fn splitmix64(x: u64) -> (r: u64)
    ensures
        r == mix_of(x),
{
    proof {
        reveal(mix_of);
    }
    let a: u64 = x.wrapping_add(MIX_STEP);
    let b: u64 = (a ^ (a >> 30u64)).wrapping_mul(0xbf58_476d_1ce4_e5b9);
    let c: u64 = (b ^ (b >> 27u64)).wrapping_mul(0x94d0_49bb_1331_11eb);
    c ^ (c >> 31u64)
}

/// The two hashes double hashing steps with.
fn hashes(key: &[u8]) -> (r: (u64, u64))
    ensures
        r == hashes_of(key@),
{
    let h1: u64 = splitmix64(fx_fold(key));
    (h1, splitmix64(h1 ^ MIX_STEP))
}

/// One probe position.
fn probe(h1: u64, h2: u64, i: u8, bits: u64) -> (r: u64)
    requires
        bits > 0,
    ensures
        r == h1.wrapping_add((i as u64).wrapping_mul(h2)) % bits,
        r < bits,
{
    h1.wrapping_add((i as u64).wrapping_mul(h2)) % bits
}

/// Sets the `k` probe bits for `key`. A zero-length filter degrades to "no
/// information" (all lookups proceed).
pub fn bloom_add(bloom: &mut [u8], key: &[u8], k: u8)
    requires
        old(bloom)@.len() * 8 <= usize::MAX,
    ensures
        old(bloom)@.len() == 0 ==> final(bloom)@ == old(bloom)@,
        old(bloom)@.len() > 0 ==> final(bloom)@ == bloom_put(old(bloom)@, key@, k as nat),
        final(bloom)@.len() == old(bloom)@.len(),
{
    let n: usize = bloom.len();
    if n == 0 {
        return;
    }
    let bits: u64 = (n * 8) as u64;
    let (h1, h2): (u64, u64) = hashes(key);
    let mut i: u8 = 0;
    while i < k
        invariant
            n > 0,
            n * 8 <= usize::MAX,
            bits == n * 8,
            bloom@.len() == n,
            n == old(bloom)@.len(),
            (h1, h2) == hashes_of(key@),
            i <= k,
            bloom@ == bloom_put(old(bloom)@, key@, i as nat),
        decreases k - i,
    {
        let p: u64 = probe(h1, h2, i, bits);
        assert(p == probe_pos(key@, i, bits)) by {
            reveal(probe_pos);
        }
        let at: usize = (p / 8) as usize;
        let old_byte: u8 = bloom[at];
        bloom[at] = old_byte | (1u8 << ((p % 8) as u8));
        i = i + 1;
    }
}

/// Reports whether `key` may be in the filter: all `k` probe bits set.
///
/// Never a false negative; false positives possible. `bloom` must be the
/// exact filter bytes (any length); `k` comes from [`bloom_k`].
#[must_use]
pub fn bloom_maybe_contains(bloom: &[u8], key: &[u8], k: u8) -> (r: bool)
    requires
        bloom@.len() * 8 <= usize::MAX,
    ensures
        r == (bloom@.len() == 0 || bloom_has(bloom@, key@, k)),
{
    let n: usize = bloom.len();
    if n == 0 {
        return true;
    }
    let bits: u64 = (n * 8) as u64;
    let (h1, h2): (u64, u64) = hashes(key);
    let mut i: u8 = 0;
    while i < k
        invariant
            n > 0,
            n * 8 <= usize::MAX,
            bits == n * 8,
            bloom@.len() == n,
            (h1, h2) == hashes_of(key@),
            i <= k,
            forall|j: u8|
                j < i ==> bit_at(bloom@, #[trigger] probe_pos(key@, j, bits) as int),
        decreases k - i,
    {
        let p: u64 = probe(h1, h2, i, bits);
        assert(p == probe_pos(key@, i, bits)) by {
            reveal(probe_pos);
        }
        let at: usize = (p / 8) as usize;
        let byte: u8 = bloom[at];
        if (byte >> ((p % 8) as u8)) & 1 != 1 {
            assert(!bit_at(bloom@, probe_pos(key@, i, (bloom@.len() * 8) as u64) as int));
            return false;
        }
        i = i + 1;
    }
    true
}

} // verus!
