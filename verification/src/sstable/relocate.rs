//! Relocating a copied table to its destination blocks.

use vstd::prelude::*;

use super::block::{check_block_crc, index_entry_parse, parse_footer, Footer};
use super::format::{
    crc_ok, ent_ok, foot_block, foot_bytes, foot_of, group_ok, group_top, groups_lead, idx_bytes,
    idx_parse, index_bytes, is_data_block, law_footer_reads_back, lemma_idx_roundtrip,
    lemma_sealed, payload_of, sealed, zeros, FootV, CRC_LEN, FOOTER_LEN,
};
use super::table::RunV;
use crate::bytes::{
    le_bytes, lemma_le_bytes_len, lemma_le_roundtrip, lemma_pow256, spliced, store_le,
};
use crate::crc::crc32;
use crate::device::{same_outside, synced_outside, BlockDevice};
use crate::error::Error;
use crate::memtable::Rec;
use crate::wal::{all_zero, all_zeros, padded};

verus! {

/// An index with every block id moved from `from` to `to`. `None` when an
/// entry does not parse or names a block outside the `n` data blocks.
pub open spec fn moved_index(s: Seq<u8>, from: u64, n: u64, to: u64) -> Option<Seq<u8>>
    decreases s.len(),
{
    match idx_parse(s) {
        None => if all_zeros(s) {
            Some(s)
        } else {
            None
        },
        Some((key, id, len)) => {
            let rel = id - from;
            if len == 0 || len > s.len() || rel < 0 || rel >= n || to + rel > u64::MAX {
                None
            } else {
                match moved_index(s.skip(len as int), from, n, to) {
                    None => None,
                    Some(rest) => Some(
                        s.take(2 + key.len() as int) + le_bytes((to + rel) as nat, 8) + s.subrange(
                            10 + key.len() as int,
                            len as int,
                        ) + rest,
                    ),
                }
            }
        },
    }
}

/// A footer block with other index and bloom pointers.
pub open spec fn moved_footer(p: Seq<u8>, index: u64, bloom: u64) -> Seq<u8> {
    p.take(8) + le_bytes(index as nat, 8) + le_bytes(bloom as nat, 8) + p.skip(24)
}

/// Why a table cannot be relocated, or its original base.
pub open spec fn move_check(
    c: Map<u64, Seq<u8>>,
    dst: u64,
    block_count: u32,
    rdel_blocks: u32,
) -> Result<u64, u64> {
    let data = block_count - rdel_blocks - 3;
    let bloom = dst + data + rdel_blocks;
    let footer_id = (bloom + 2) as u64;
    let index_id = (bloom + 1) as u64;
    if data < 0 || bloom + 2 > u64::MAX {
        Err(dst)
    } else {
        match foot_of(c[footer_id]) {
            None => Err(footer_id),
            Some(f) => {
                let old_base = f.bloom_block - data - rdel_blocks;
                if f.index_block != f.bloom_block + 1 || old_base < 0 {
                    Err(footer_id)
                } else if !crc_ok(c[index_id]) || moved_index(
                    payload_of(c[index_id]),
                    old_base as u64,
                    data as u64,
                    dst,
                ) is None {
                    Err(index_id)
                } else {
                    Ok(old_base as u64)
                }
            },
        }
    }
}

/// A relocation behind entries already moved.
spec fn behind_moved(done: Seq<u8>, r: Option<Seq<u8>>) -> Option<Seq<u8>> {
    match r {
        None => None,
        Some(s) => Some(done + s),
    }
}

/// Rewrites each index entry's absolute data-block id from the original
/// layout to the destination layout.
fn relocate_index_entries<E, const BLOCK: usize>(
    scratch: &mut [u8; BLOCK],
    index_id: u64,
    old_base: u64,
    data_blocks: u64,
    dst_base: u64,
) -> (r: Result<(), Error<E>>)
    requires
        BLOCK >= CRC_LEN,
    ensures
        match moved_index(payload_of(old(scratch)@), old_base, data_blocks, dst_base) {
            None => r == Err::<(), Error<E>>(Error::CorruptBlock { id: index_id }),
            Some(p) => r == Ok::<(), Error<E>>(()) && payload_of(final(scratch)@) == p,
        },
{
    let n: usize = BLOCK - CRC_LEN;
    let ghost p0 = payload_of(scratch@);
    let ghost goal = moved_index(p0, old_base, data_blocks, dst_base);
    let mut off: usize = 0;
    proof {
        assert(p0.skip(0) =~= p0);
        assert(scratch@.take(0) =~= Seq::<u8>::empty());
        assert(scratch@.subrange(0, n as int) =~= p0);
        if goal is Some {
            assert(Seq::<u8>::empty() + goal->0 =~= goal->0);
        }
    }
    while off < n
        invariant
            n == BLOCK - CRC_LEN,
            BLOCK >= CRC_LEN,
            p0.len() == n,
            p0 == payload_of(old(scratch)@),
            off <= n,
            goal == moved_index(p0, old_base, data_blocks, dst_base),
            scratch@.subrange(off as int, n as int) == p0.skip(off as int),
            goal == behind_moved(
                scratch@.take(off as int),
                moved_index(p0.skip(off as int), old_base, data_blocks, dst_base),
            ),
        decreases n - off,
    {
        let ghost s = p0.skip(off as int);
        let ghost cur = scratch@;
        let mut key_len: usize = 0;
        let mut block_id: u64 = 0;
        let mut next: usize = 0;
        proof {
            assert(scratch@.subrange(0, n as int).skip(off as int) =~= s);
        }
        match index_entry_parse(&scratch[0..n], off) {
            Some(e) => {
                key_len = e.key.len();
                block_id = e.block_id;
                next = e.next;
            },
            None => {
                assert(cur.subrange(off as int, n as int) =~= s);
                if all_zero(&scratch[off..n]) {
                    proof {
                        assert(payload_of(cur) =~= cur.take(off as int) + s);
                    }
                    return Ok(());
                }
                return Err(Error::CorruptBlock { id: index_id });
            },
        }
        if block_id < old_base || block_id - old_base >= data_blocks {
            return Err(Error::CorruptBlock { id: index_id });
        }
        let new_id: u64 = match dst_base.checked_add(block_id - old_base) {
            None => {
                return Err(Error::CorruptBlock { id: index_id });
            },
            Some(id) => id,
        };
        let id_off: usize = off + 2 + key_len;
        store_le(scratch, id_off, new_id, 8);
        proof {
            broadcast use lemma_le_bytes_len;

            reveal(spliced);
            let len = next - off;
            assert(s.skip(len) =~= p0.skip(next as int));
            assert(scratch@.subrange(next as int, n as int) =~= p0.skip(next as int)) by {
                assert(cur.subrange(off as int, n as int).skip(len) =~= cur.subrange(
                    next as int,
                    n as int,
                ));
            }
            let rest = moved_index(p0.skip(next as int), old_base, data_blocks, dst_base);
            let piece = s.take(2 + key_len as int) + le_bytes(new_id as nat, 8) + s.subrange(
                10 + key_len as int,
                len,
            );
            assert(s.take(2 + key_len as int) =~= cur.subrange(off as int, id_off as int)) by {
                assert(cur.subrange(off as int, n as int).take(2 + key_len as int) =~= cur.subrange(
                    off as int,
                    id_off as int,
                ));
            }
            assert(s.subrange(10 + key_len as int, len) =~= cur.subrange(
                id_off + 8,
                next as int,
            )) by {
                assert(cur.subrange(off as int, n as int).subrange(10 + key_len as int, len)
                    =~= cur.subrange(id_off + 8, next as int));
            }
            assert(scratch@.take(next as int) =~= cur.take(off as int) + piece);
            if rest is Some {
                assert(cur.take(off as int) + (piece + rest->0) =~= scratch@.take(next as int)
                    + rest->0);
            }
        }
        off = next;
    }
    proof {
        let s = p0.skip(off as int);
        assert(s =~= Seq::<u8>::empty());
        assert(payload_of(scratch@) =~= scratch@.take(off as int) + s);
    }
    Ok(())
}

/// Writes the CRC of the payload in `buf`, and the block to the device.
fn reseal<D: BlockDevice, const BLOCK: usize>(
    device: &mut D,
    id: u64,
    buf: &mut [u8; BLOCK],
) -> (r: Result<(), Error<D::Error>>)
    requires
        D::BLOCK == BLOCK,
        BLOCK >= CRC_LEN,
    ensures
        final(device).content() == old(device).content().insert(id, final(device).content()[id]),
        synced_outside(&*old(device), &*final(device), id as int, id + 1),
        match r {
            Ok(()) => final(device).content()[id] == sealed(payload_of(old(buf)@)),
            Err(e) => e is Device,
        },
{
    broadcast use lemma_le_bytes_len;

    let n: usize = BLOCK - CRC_LEN;
    assert(buf@.subrange(0, n as int) =~= payload_of(buf@));
    let crc: u32 = crc32(&buf[0..n]);
    store_le(buf, n, crc as u64, 4);
    proof {
        reveal(spliced);
        assert(buf@ =~= sealed(payload_of(old(buf)@)));
    }
    match device.write_block(id, buf) {
        Ok(()) => Ok(()),
        Err(e) => Err(Error::Device(e)),
    }
}

/// Relocates a copied table to its destination block range.
///
/// The table's blocks must already sit at `[dst_base, dst_base +
/// block_count)` in writer order (data, range tombstones, bloom, index,
/// footer). Data, rdel and bloom block contents are position-independent,
/// but index entries carry absolute data-block ids and the footer carries
/// the absolute index/bloom ids of the table's *original* placement, so this
/// rewrites those pointers to the destination layout and re-seals the
/// touched blocks' CRCs. The original placement is derived from the
/// footer's own pointers and cross-checked for structural consistency: index
/// entries that do not sit inside the derived original run are
/// [`Error::CorruptBlock`], not silently mis-relocated.
///
/// # Errors
///
/// [`Error::CorruptBlock`] when a block fails its CRC, the footer magic
/// is wrong, an index entry fails to parse, or a pointer does not match
/// the table's self-described original layout; or [`Error::Device`] on
/// I/O failure.
pub fn relocate_table<D: BlockDevice, const BLOCK: usize>(
    device: &mut D,
    dst_base: u64,
    block_count: u32,
    rdel_blocks: u32,
    scratch: &mut [u8; BLOCK],
) -> (r: Result<(), Error<D::Error>>)
    requires
        D::BLOCK == BLOCK,
        BLOCK >= FOOTER_LEN + CRC_LEN,
    ensures
        synced_outside(
            &*old(device),
            &*final(device),
            dst_base as int,
            dst_base + block_count,
        ),
        relocated(
            old(device).content(),
            final(device).content(),
            dst_base,
            block_count,
            rdel_blocks,
            r,
        ),
{
    let ghost c0 = device.content();
    let ghost check = move_check(c0, dst_base, block_count, rdel_blocks);
    if (block_count as u64) < rdel_blocks as u64 + 3 {
        return Err(Error::CorruptBlock { id: dst_base });
    }
    let data_blocks: u64 = block_count as u64 - rdel_blocks as u64 - 3;
    let body: u64 = data_blocks + rdel_blocks as u64;
    let bloom_id: u64 = match dst_base.checked_add(body) {
        None => {
            return Err(Error::CorruptBlock { id: dst_base });
        },
        Some(b) => b,
    };
    if bloom_id > u64::MAX - 2 {
        return Err(Error::CorruptBlock { id: dst_base });
    }
    let index_id: u64 = bloom_id + 1;
    let footer_id: u64 = bloom_id + 2;
    // Footer first: it names the table's original bloom/index block ids,
    // from which the original table base is derived.
    match device.read_block(footer_id, scratch) {
        Ok(()) => {},
        Err(e) => {
            return Err(Error::Device(e));
        },
    }
    let foot: Footer = match parse_footer::<D::Error, BLOCK>(scratch, footer_id) {
        Ok(f) => f,
        Err(e) => {
            return Err(e);
        },
    };
    // Structural check: bloom, index, footer are consecutive, so the
    // original base is the bloom id minus the data-block count and the
    // rdel-block count.
    if foot.bloom_block == u64::MAX || foot.index_block != foot.bloom_block + 1 || foot.bloom_block
        < body {
        return Err(Error::CorruptBlock { id: footer_id });
    }
    let old_base: u64 = foot.bloom_block - body;
    // Index block: rewrite each entry's absolute data-block id from the
    // original layout to the destination layout.
    match device.read_block(index_id, scratch) {
        Ok(()) => {},
        Err(e) => {
            return Err(Error::Device(e));
        },
    }
    match check_block_crc::<D::Error, BLOCK>(scratch, index_id) {
        Ok(()) => {},
        Err(e) => {
            return Err(e);
        },
    }
    match relocate_index_entries::<D::Error, BLOCK>(
        scratch,
        index_id,
        old_base,
        data_blocks,
        dst_base,
    ) {
        Ok(()) => {},
        Err(e) => {
            return Err(e);
        },
    }
    match reseal(device, index_id, scratch) {
        Ok(()) => {},
        Err(e) => {
            return Err(e);
        },
    }
    let ghost c1 = device.content();
    // Footer: rewrite the absolute index/bloom block ids.
    match device.read_block(footer_id, scratch) {
        Ok(()) => {},
        Err(e) => {
            return Err(Error::Device(e));
        },
    }
    match check_block_crc::<D::Error, BLOCK>(scratch, footer_id) {
        Ok(()) => {},
        Err(e) => {
            assert(false);
            return Err(e);
        },
    }
    let ghost fp = payload_of(scratch@);
    store_le(scratch, 8, index_id, 8);
    store_le(scratch, 16, bloom_id, 8);
    proof {
        broadcast use lemma_le_bytes_len;

        reveal(spliced);
        assert(payload_of(scratch@) =~= moved_footer(fp, index_id, bloom_id));
    }
    let r = reseal(device, footer_id, scratch);
    proof {
        assert(device.content()[index_id] == c1[index_id]);
    }
    r
}

/// What a relocation does.
pub open spec fn relocated<E>(
    c0: Map<u64, Seq<u8>>,
    c1: Map<u64, Seq<u8>>,
    dst: u64,
    block_count: u32,
    rdel_blocks: u32,
    r: Result<(), Error<E>>,
) -> bool {
    let data = block_count - rdel_blocks - 3;
    let bloom = dst + data + rdel_blocks;
    match move_check(c0, dst, block_count, rdel_blocks) {
        Err(id) => {
            &&& r matches Err(e) && (e is Device || e == (Error::<E>::CorruptBlock { id }))
            &&& c1 == c0
        },
        Ok(old_base) => {
            &&& same_outside(c0, c1, bloom + 1, bloom + 3)
            &&& match r {
                Ok(()) => {
                    &&& c1[(bloom + 1) as u64] == sealed(
                        moved_index(
                            payload_of(c0[(bloom + 1) as u64]),
                            old_base,
                            data as u64,
                            dst,
                        )->0,
                    )
                    &&& c1[(bloom + 2) as u64] == sealed(
                        moved_footer(
                            payload_of(c0[(bloom + 2) as u64]),
                            (bloom + 1) as u64,
                            bloom as u64,
                        ),
                    )
                },
                Err(e) => e is Device,
            }
        },
    }
}

/// Index entries from position `i` on.
spec fn suffix_bytes(groups: Seq<Seq<Rec>>, base: u64, i: int) -> Seq<u8>
    decreases groups.len() - i,
{
    if i >= groups.len() || i < 0 {
        Seq::empty()
    } else {
        idx_bytes(groups[i][0].key, (base + i) as u64, group_top(groups[i])) + suffix_bytes(
            groups,
            base,
            i + 1,
        )
    }
}

proof fn lemma_suffix(groups: Seq<Seq<Rec>>, base: u64, i: int)
    requires
        0 <= i <= groups.len(),
    ensures
        index_bytes(groups, base, groups.len() as int) == index_bytes(groups, base, i)
            + suffix_bytes(groups, base, i),
    decreases groups.len() - i,
{
    if i < groups.len() {
        lemma_suffix(groups, base, i + 1);
        assert(index_bytes(groups, base, i) + suffix_bytes(groups, base, i) =~= index_bytes(
            groups,
            base,
            i + 1,
        ) + suffix_bytes(groups, base, i + 1));
    } else {
        assert(index_bytes(groups, base, i) + Seq::<u8>::empty() =~= index_bytes(groups, base, i));
    }
}

proof fn lemma_moved_suffix(groups: Seq<Seq<Rec>>, from: u64, to: u64, i: int, gap: int)
    requires
        groups_lead(groups),
        0 <= i <= groups.len(),
        0 <= gap,
        from + groups.len() <= u64::MAX,
        to + groups.len() <= u64::MAX,
    ensures
        moved_index(
            suffix_bytes(groups, from, i) + zeros(gap),
            from,
            groups.len() as u64,
            to,
        ) == Some(suffix_bytes(groups, to, i) + zeros(gap)),
    decreases groups.len() - i,
{
    broadcast use lemma_le_bytes_len;

    let s = suffix_bytes(groups, from, i) + zeros(gap);
    if i == groups.len() {
        assert(s =~= zeros(gap));
        assert(idx_parse(s) is None) by {
            if s.len() >= 2 {
                assert(s.subrange(0, 2) =~= le_bytes(0, 2)) by {
                    reveal_with_fuel(le_bytes, 3);
                }
                lemma_pow256();
                lemma_le_roundtrip(0, 2);
            }
        }
        assert(all_zeros(s));
        assert(suffix_bytes(groups, to, i) + zeros(gap) =~= zeros(gap));
    } else {
        let first = groups[i][0].key;
        let top = group_top(groups[i]);
        let rest = suffix_bytes(groups, from, i + 1) + zeros(gap);
        let a = idx_bytes(first, (from + i) as u64, top);
        let b = idx_bytes(first, (to + i) as u64, top);
        assert(ent_ok(groups[i][0]));
        lemma_idx_roundtrip(first, (from + i) as u64, top, rest);
        lemma_idx_roundtrip(first, (to + i) as u64, top, rest);
        assert(s =~= a + rest);
        let len = 18 + first.len() as int;
        assert(s.skip(len) =~= rest);
        lemma_moved_suffix(groups, from, to, i + 1, gap);
        let k = first.len() as int;
        assert(s.take(2 + k) + le_bytes((to + i) as nat, 8) + s.subrange(10 + k, len) =~= b) by {
            reveal(idx_bytes);
        }
        assert(suffix_bytes(groups, to, i) + zeros(gap) =~= b + (suffix_bytes(groups, to, i + 1)
            + zeros(gap)));
    }
}

/// A table copied block for block and then relocated is the same table at
/// its new place.
pub proof fn law_relocated_table<E>(
    t: RunV,
    c0: Map<u64, Seq<u8>>,
    c1: Map<u64, Seq<u8>>,
    src: Map<u64, Seq<u8>>,
    dst: u64,
    block_count: u32,
    r: Result<(), Error<E>>,
    block: int,
    bloom_bytes: int,
)
    requires
        t.wf(block, bloom_bytes),
        t.on(src, block, bloom_bytes),
        block_count == t.groups.len() + t.rgroups.len() + 3,
        dst + block_count <= u64::MAX,
        forall|i: int|
            0 <= i < block_count ==> c0[(dst + i) as u64] == #[trigger] src[(t.base + i) as u64],
        relocated(c0, c1, dst, block_count, t.rgroups.len() as u32, r),
    ensures
        move_check(c0, dst, block_count, t.rgroups.len() as u32) == Ok::<u64, u64>(t.base),
        r is Ok ==> (RunV { base: dst, ..t }).on(c1, block, bloom_bytes),
{
    broadcast use lemma_le_bytes_len;

    let nd = t.groups.len() as int;
    let nr = t.rgroups.len() as int;
    let bloom = dst + nd + nr;
    let ib = index_bytes(t.groups, t.base, nd);
    let jb = index_bytes(t.groups, dst, nd);
    let size = block - 4;
    assert(groups_lead(t.groups)) by {
        assert forall|i: int| 0 <= i < t.groups.len() implies (#[trigger] t.groups[i]).len() >= 1
            && ent_ok(t.groups[i][0]) by {
            assert(group_ok(t.groups[i], block));
        }
    }
    // The three blocks behind the sections.
    assert(c0[(dst + (nd + nr)) as u64] == src[(t.base + (nd + nr)) as u64]);
    assert(c0[(dst + (nd + nr + 1)) as u64] == src[(t.base + (nd + nr + 1)) as u64]);
    assert(c0[(dst + (nd + nr + 2)) as u64] == src[(t.base + (nd + nr + 2)) as u64]);
    assert(c0[(bloom + 1) as u64] == sealed(padded(ib, size as nat)));
    assert(c0[(bloom + 2) as u64] == foot_block(t.foot(), block));
    law_footer_reads_back(t.foot(), block);
    lemma_sealed(padded(ib, size as nat));
    let gap = size - ib.len();
    lemma_suffix(t.groups, t.base, 0);
    lemma_suffix(t.groups, dst, 0);
    assert(ib =~= suffix_bytes(t.groups, t.base, 0));
    assert(jb =~= suffix_bytes(t.groups, dst, 0));
    assert(padded(ib, size as nat) =~= suffix_bytes(t.groups, t.base, 0) + zeros(gap));
    lemma_moved_suffix(t.groups, t.base, dst, 0, gap);
    lemma_same_index_len(t.groups, t.base, dst, nd);
    assert(padded(jb, size as nat) =~= suffix_bytes(t.groups, dst, 0) + zeros(gap));
    if r is Ok {
        let u = RunV { base: dst, ..t };
        assert(u.recs() == t.recs());
        let fp = padded(foot_bytes(t.foot()), size as nat);
        lemma_sealed(fp);
        assert(moved_footer(fp, (bloom + 1) as u64, bloom as u64) =~= padded(
            foot_bytes(u.foot()),
            size as nat,
        )) by {
            reveal(foot_bytes);
        }
        assert(c1[bloom as u64] == c0[bloom as u64]);
        assert(u.meta_on(c1, block, bloom_bytes));
        assert forall|b: int| 0 <= b < u.groups.len() implies is_data_block(
            c1[(u.base + b) as u64],
            #[trigger] u.groups[b],
            block,
        ) by {
            assert(c1[(dst + b) as u64] == c0[(dst + b) as u64]);
            assert(c0[(dst + b) as u64] == src[(t.base + b) as u64]);
            assert(is_data_block(src[(t.base + b) as u64], t.groups[b], block));
        }
        assert forall|j: int| 0 <= j < u.rgroups.len() implies c1[(u.rdel_at() + j) as u64]
            == super::format::rdel_block(#[trigger] u.rgroups[j], block) by {
            assert(c1[(dst + (nd + j)) as u64] == c0[(dst + (nd + j)) as u64]);
            assert(c0[(dst + (nd + j)) as u64] == src[(t.base + (nd + j)) as u64]);
            assert(src[(t.rdel_at() + j) as u64] == super::format::rdel_block(
                t.rgroups[j],
                block,
            ));
        }
    }
}

/// A table's index is as long wherever the table is.
pub proof fn lemma_moved_index_len(groups: Seq<Seq<Rec>>, a: u64, b: u64, block: int)
    requires
        forall|i: int| 0 <= i < groups.len() ==> group_ok(#[trigger] groups[i], block),
    ensures
        index_bytes(groups, a, groups.len() as int).len() == index_bytes(
            groups,
            b,
            groups.len() as int,
        ).len(),
{
    assert forall|i: int| 0 <= i < groups.len() implies (#[trigger] groups[i]).len() >= 1
        && ent_ok(groups[i][0]) by {
        assert(group_ok(groups[i], block));
    }
    lemma_same_index_len(groups, a, b, groups.len() as int);
}

/// A relocated footer differs in its block pointers alone.
pub proof fn law_moved_foot(b: Seq<u8>, index: u64, bloom: u64)
    requires
        foot_of(b) is Some,
        b.len() >= FOOTER_LEN + CRC_LEN,
    ensures
        foot_of(sealed(moved_footer(payload_of(b), index, bloom))) == Some(
            FootV { index_block: index, bloom_block: bloom, ..foot_of(b)->0 },
        ),
{
    broadcast use lemma_le_bytes_len;

    lemma_pow256();
    let p = moved_footer(payload_of(b), index, bloom);
    let n = sealed(p);
    lemma_sealed(p);
    lemma_le_roundtrip(index as nat, 8);
    lemma_le_roundtrip(bloom as nat, 8);
    assert(p =~= payload_of(n));
    assert forall|i: int| 0 <= i < p.len() implies n[i] == #[trigger] p[i] by {
        assert(payload_of(n)[i] == p[i]);
    }
    assert(n.subrange(0, 8) =~= b.subrange(0, 8));
    assert(n.subrange(8, 16) =~= le_bytes(index as nat, 8));
    assert(n.subrange(16, 24) =~= le_bytes(bloom as nat, 8));
    assert(n.subrange(24, 32) =~= b.subrange(24, 32));
    assert(n[32] == b[32]);
    assert(n.subrange(33, 37) =~= b.subrange(33, 37));
    assert(n.subrange(37, 45) =~= b.subrange(37, 45));
}

proof fn lemma_same_index_len(groups: Seq<Seq<Rec>>, a: u64, b: u64, n: int)
    requires
        groups_lead(groups),
        0 <= n <= groups.len(),
    ensures
        index_bytes(groups, a, n).len() == index_bytes(groups, b, n).len(),
    decreases n,
{
    if n > 0 {
        lemma_same_index_len(groups, a, b, n - 1);
        assert(groups[n - 1].len() >= 1 && ent_ok(groups[n - 1][0]));
        let k = groups[n - 1][0].key;
        let top = group_top(groups[n - 1]);
        lemma_idx_roundtrip(k, (a + n - 1) as u64, top, Seq::empty());
        lemma_idx_roundtrip(k, (b + n - 1) as u64, top, Seq::empty());
    }
}

} // verus!
