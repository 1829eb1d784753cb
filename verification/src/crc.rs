//! Hand-rolled IEEE CRC-32, table-driven.

use vstd::prelude::*;

verus! {

/// One bit of the reflected CRC-32 recurrence (polynomial `0xEDB88320`).
pub open spec fn crc_bit(crc: u32) -> u32 {
    if crc & 1 == 1 {
        (crc >> 1) ^ 0xEDB8_8320u32
    } else {
        crc >> 1
    }
}

/// `n` bits of the recurrence.
pub open spec fn crc_bits(crc: u32, n: nat) -> u32
    decreases n,
{
    if n == 0 {
        crc
    } else {
        crc_bit(crc_bits(crc, (n - 1) as nat))
    }
}

/// The running remainder after the bytes of `data`, started from `crc`.
pub open spec fn crc_fold(crc: u32, data: Seq<u8>) -> u32
    decreases data.len(),
{
    if data.len() == 0 {
        crc
    } else {
        crc_bits(crc_fold(crc, data.drop_last()) ^ (data.last() as u32), 8)
    }
}

/// The IEEE CRC-32 of `data`, bit by bit.
pub open spec fn crc32_of(data: Seq<u8>) -> u32 {
    !crc_fold(0xFFFF_FFFFu32, data)
}

proof fn lemma_crc_bit_xor(a: u32, b: u32)
    ensures
        crc_bit(a ^ b) == crc_bit(a) ^ crc_bit(b),
{
    assert(crc_bit(a ^ b) == crc_bit(a) ^ crc_bit(b)) by (bit_vector);
}

proof fn lemma_crc_bits_xor(a: u32, b: u32, n: nat)
    ensures
        crc_bits(a ^ b, n) == crc_bits(a, n) ^ crc_bits(b, n),
    decreases n,
{
    if n > 0 {
        lemma_crc_bits_xor(a, b, (n - 1) as nat);
        lemma_crc_bit_xor(crc_bits(a, (n - 1) as nat), crc_bits(b, (n - 1) as nat));
    }
}

/// Eight zero bits shift straight through.
proof fn lemma_crc_bits_high(x: u32)
    ensures
        crc_bits(x & 0xFFFF_FF00u32, 8) == x >> 8,
{
    reveal_with_fuel(crc_bits, 9);
    let y = x & 0xFFFF_FF00u32;
    assert(crc_bit(crc_bit(crc_bit(crc_bit(crc_bit(crc_bit(crc_bit(crc_bit(y)))))))) == x >> 8)
        by (bit_vector)
        requires
            y == x & 0xFFFF_FF00u32,
    ;
}

/// The table step equals eight steps of the bitwise recurrence.
proof fn lemma_table_step(x: u32)
    ensures
        crc_bits(x, 8) == crc_bits(x & 0xFF, 8) ^ (x >> 8),
{
    assert(x == (x & 0xFF) ^ (x & 0xFFFF_FF00u32)) by (bit_vector);
    lemma_crc_bits_xor(x & 0xFF, x & 0xFFFF_FF00u32, 8);
    lemma_crc_bits_high(x);
}

/// The recurrence loses nothing: different remainders stay different.
proof fn lemma_crc_bits_apart(a: u32, b: u32, n: nat)
    requires
        a != b,
    ensures
        crc_bits(a, n) != crc_bits(b, n),
    decreases n,
{
    if n > 0 {
        lemma_crc_bits_apart(a, b, (n - 1) as nat);
        let x = crc_bits(a, (n - 1) as nat);
        let y = crc_bits(b, (n - 1) as nat);
        assert(crc_bit(x) != crc_bit(y)) by (bit_vector)
            requires
                x != y,
        ;
    }
}

/// Bytes that differ in one place have different remainders.
proof fn lemma_fold_apart(crc: u32, a: Seq<u8>, b: Seq<u8>, i: int)
    requires
        a.len() == b.len(),
        0 <= i < a.len(),
        a[i] != b[i],
        forall|k: int| 0 <= k < a.len() && k != i ==> a[k] == b[k],
    ensures
        crc_fold(crc, a) != crc_fold(crc, b),
    decreases a.len(),
{
    let x = crc_fold(crc, a.drop_last());
    let y = crc_fold(crc, b.drop_last());
    let p = a.last();
    let q = b.last();
    if i == a.len() - 1 {
        assert(a.drop_last() =~= b.drop_last());
        assert(x ^ (p as u32) != x ^ (q as u32)) by (bit_vector)
            requires
                p != q,
        ;
    } else {
        lemma_fold_apart(crc, a.drop_last(), b.drop_last(), i);
        assert(x ^ (p as u32) != y ^ (p as u32)) by (bit_vector)
            requires
                x != y,
        ;
    }
    lemma_crc_bits_apart(x ^ (p as u32), y ^ (q as u32), 8);
}

/// A change of one byte, and so of one bit, changes the CRC.
pub proof fn law_one_byte_changes_crc(a: Seq<u8>, b: Seq<u8>, i: int)
    requires
        a.len() == b.len(),
        0 <= i < a.len(),
        a[i] != b[i],
        forall|k: int| 0 <= k < a.len() && k != i ==> a[k] == b[k],
    ensures
        crc32_of(a) != crc32_of(b),
{
    lemma_fold_apart(0xFFFF_FFFFu32, a, b, i);
    let x = crc_fold(0xFFFF_FFFFu32, a);
    let y = crc_fold(0xFFFF_FFFFu32, b);
    assert(!x != !y) by (bit_vector)
        requires
            x != y,
    ;
}

/// Builds the byte-indexed reflected CRC-32 table: entry `n` is the
/// eight-bit update for input byte `n`.
fn make_table() -> (table: [u32; 256])
    ensures
        forall|n: int| 0 <= n < 256 ==> #[trigger] table@[n] == crc_bits(n as u32, 8),
{
    let mut table: [u32; 256] = [0u32; 256];
    let mut n: usize = 0;
    while n < 256
        invariant
            n <= 256,
            forall|k: int| 0 <= k < n ==> #[trigger] table@[k] == crc_bits(k as u32, 8),
        decreases 256 - n,
    {
        let mut crc: u32 = n as u32;
        let mut bit: usize = 0;
        while bit < 8
            invariant
                n < 256,
                bit <= 8,
                crc == crc_bits(n as u32, bit as nat),
            decreases 8 - bit,
        {
            if crc & 1 == 1 {
                crc = (crc >> 1) ^ 0xEDB8_8320u32;
            } else {
                crc = crc >> 1;
            }
            bit = bit + 1;
        }
        table[n] = crc;
        n = n + 1;
    }
    table
}

/// Computes the IEEE CRC-32 (polynomial `0xEDB88320`) of `data`.
#[must_use]
pub fn crc32(data: &[u8]) -> (r: u32)
    ensures
        r == crc32_of(data@),
{
    let table: [u32; 256] = make_table();
    let mut crc: u32 = 0xFFFF_FFFF;
    let n: usize = data.len();
    let mut i: usize = 0;
    while i < n
        invariant
            n == data@.len(),
            i <= n,
            crc == crc_fold(0xFFFF_FFFFu32, data@.subrange(0, i as int)),
            forall|k: int| 0 <= k < 256 ==> #[trigger] table@[k] == crc_bits(k as u32, 8),
        decreases n - i,
    {
        let b: u8 = data[i];
        let x: u32 = crc ^ (b as u32);
        let idx: usize = (x & 0xFF) as usize;
        proof {
            let s = data@.subrange(0, i + 1);
            assert(s.drop_last() =~= data@.subrange(0, i as int));
            assert(x & 0xFF < 256) by (bit_vector);
            assert(x >> 8 == crc >> 8) by (bit_vector)
                requires
                    x == crc ^ b as u32,
            ;
            lemma_table_step(x);
        }
        crc = table[idx] ^ (crc >> 8);
        i = i + 1;
    }
    assert(data@.subrange(0, n as int) =~= data@);
    !crc
}

} // verus!
