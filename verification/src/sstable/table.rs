//! What a table is: the entries and range tombstones a written table holds,
//! and those that the blocks on a device store.

use vstd::prelude::*;

use super::bloom::{bloom_has, bloom_of, law_bloom_no_false_negative, lemma_bloom_len};
use super::format::{
    body_entries, crc_ok, ent_ok, foot_block, foot_of, group_ok, groups_lead, index_bytes,
    index_list, index_of, is_data_block, law_body_entries, law_data_block_reads_back,
    law_footer_reads_back, law_index_reads_back, law_rdel_block_reads_back, lemma_sealed,
    logical_of, payload_of, rdel_block, rdel_list, rgroup_ok, sealed, FootV, RdelV, FOOTER_LEN,
};
use super::search::{block_wf, index_sorted};
use crate::bytes::{lex_le, lex_lt};
use crate::memtable::{key_sorted, runs_newest_first, Rec};
use crate::wal::padded;

verus! {

/// The entries of all groups, in order.
pub open spec fn flat_recs(groups: Seq<Seq<Rec>>) -> Seq<Rec>
    decreases groups.len(),
{
    if groups.len() == 0 {
        Seq::empty()
    } else {
        flat_recs(groups.drop_last()) + groups.last()
    }
}

/// The range tombstones of all groups, in order.
pub open spec fn flat_rdels(groups: Seq<Seq<RdelV>>) -> Seq<RdelV>
    decreases groups.len(),
{
    if groups.len() == 0 {
        Seq::empty()
    } else {
        flat_rdels(groups.drop_last()) + groups.last()
    }
}

/// Where group `b` starts in the flat sequence.
pub open spec fn group_start(groups: Seq<Seq<Rec>>, b: int) -> int {
    flat_recs(groups.take(b)).len() as int
}

/// Entry `i` of group `b` in the flat sequence.
pub proof fn lemma_flat_at(groups: Seq<Seq<Rec>>, b: int, i: int)
    requires
        0 <= b < groups.len(),
        0 <= i < groups[b].len(),
    ensures
        0 <= group_start(groups, b) + i < flat_recs(groups).len(),
        flat_recs(groups)[group_start(groups, b) + i] == groups[b][i],
        group_start(groups, b + 1) == group_start(groups, b) + groups[b].len(),
        group_start(groups, b + 1) <= flat_recs(groups).len(),
    decreases groups.len(),
{
    let d = groups.drop_last();
    assert(groups.take(b + 1).drop_last() =~= groups.take(b));
    assert(groups.take(b + 1).last() == groups[b]);
    if b == groups.len() - 1 {
        assert(groups.take(b) =~= d);
        assert(groups.take(b + 1) =~= groups);
    } else {
        lemma_flat_at(d, b, i);
        assert(d.take(b) =~= groups.take(b));
        assert(d.take(b + 1) =~= groups.take(b + 1));
        assert(d[b] == groups[b]);
    }
}

/// The group that holds flat entry `g`.
pub proof fn lemma_flat_group(groups: Seq<Seq<Rec>>, g: int) -> (r: (int, int))
    requires
        0 <= g < flat_recs(groups).len(),
    ensures
        0 <= r.0 < groups.len(),
        0 <= r.1 < groups[r.0].len(),
        g == group_start(groups, r.0) + r.1,
        flat_recs(groups)[g] == groups[r.0][r.1],
    decreases groups.len(),
{
    let d = groups.drop_last();
    if g < flat_recs(d).len() {
        let (b, i) = lemma_flat_group(d, g);
        assert(d.take(b) =~= groups.take(b));
        assert(d[b] == groups[b]);
        (b, i)
    } else {
        let b = groups.len() - 1;
        assert(groups.take(b) =~= d);
        (b, g - flat_recs(d).len())
    }
}

/// Later groups start later.
pub proof fn lemma_group_start_mono(groups: Seq<Seq<Rec>>, a: int, b: int)
    requires
        0 <= a <= b <= groups.len(),
    ensures
        group_start(groups, a) <= group_start(groups, b),
    decreases b - a,
{
    if a < b {
        lemma_group_start_mono(groups, a, b - 1);
        assert(groups.take(b).drop_last() =~= groups.take(b - 1));
        assert(groups.take(b).last() == groups[b - 1]);
    }
}

/// The keys of entries.
pub open spec fn keys_of(es: Seq<Rec>) -> Seq<Seq<u8>> {
    Seq::new(es.len(), |i: int| es[i].key)
}

/// A written table.
#[verifier::ext_equal]
pub struct RunV {
    /// First block.
    pub base: u64,
    /// The entries of each data block.
    pub groups: Seq<Seq<Rec>>,
    /// The range tombstones of each rdel block.
    pub rgroups: Seq<Seq<RdelV>>,
    /// Bloom probes per key.
    pub k: u8,
    /// Lowest sequence number, as the footer records it.
    pub min_seq: u64,
}

impl RunV {
    /// First range-tombstone block.
    pub open spec fn rdel_at(self) -> int {
        self.base + self.groups.len()
    }

    /// The bloom block.
    pub open spec fn bloom_at(self) -> int {
        self.rdel_at() + self.rgroups.len()
    }

    /// The footer block.
    pub open spec fn footer_at(self) -> int {
        self.bloom_at() + 2
    }

    /// The entries.
    pub open spec fn recs(self) -> Seq<Rec> {
        flat_recs(self.groups)
    }

    /// The range tombstones.
    pub open spec fn rdels(self) -> Seq<RdelV> {
        flat_rdels(self.rgroups)
    }

    /// The footer.
    pub open spec fn foot(self) -> FootV {
        FootV {
            index_block: (self.bloom_at() + 1) as u64,
            bloom_block: self.bloom_at() as u64,
            entry_count: self.recs().len() as u64,
            k: self.k,
            rdel_blocks: self.rgroups.len() as u32,
            min_seq: self.min_seq,
        }
    }

    /// A table that a writer produces, and that a reference can name: its
    /// end is a block id.
    pub open spec fn wf(self, block: int, bloom_bytes: int) -> bool {
        &&& self.data_wf(block, bloom_bytes)
        &&& self.footer_at() < u64::MAX
        &&& forall|j: int|
            0 <= j < self.rgroups.len() ==> rgroup_ok(#[trigger] self.rgroups[j], block)
    }

    /// A table that a writer produces, whatever its range tombstones are.
    pub open spec fn data_wf(self, block: int, bloom_bytes: int) -> bool {
        &&& block >= FOOTER_LEN + 4
        &&& 1 <= bloom_bytes <= block - 4
        &&& bloom_bytes * 8 <= u64::MAX
        &&& forall|b: int| 0 <= b < self.groups.len() ==> group_ok(#[trigger] self.groups[b], block)
        &&& self.footer_at() <= u64::MAX
        &&& self.rgroups.len() <= u32::MAX
        &&& self.recs().len() <= u64::MAX
        &&& index_bytes(self.groups, self.base, self.groups.len() as int).len() <= block - 4
        &&& self.k >= 1
    }

    /// Keys ascend and versions of a key descend by sequence.
    pub open spec fn sorted(self) -> bool {
        key_sorted(self.recs()) && runs_newest_first(self.recs())
    }

    /// The data blocks are on the device.
    pub open spec fn data_on(self, c: Map<u64, Seq<u8>>, block: int) -> bool {
        forall|b: int|
            0 <= b < self.groups.len() ==> is_data_block(
                c[(self.base + b) as u64],
                #[trigger] self.groups[b],
                block,
            )
    }

    /// The range-tombstone blocks are on the device.
    pub open spec fn rdels_on(self, c: Map<u64, Seq<u8>>, block: int) -> bool {
        section_on(c, self.rdel_at(), self.rgroups, block)
    }

    /// Bloom, index and footer are on the device.
    pub open spec fn meta_on(self, c: Map<u64, Seq<u8>>, block: int, bloom_bytes: int) -> bool {
        &&& c[self.bloom_at() as u64] == sealed(
            padded(bloom_of(keys_of(self.recs()), self.k, bloom_bytes as nat), (block - 4) as nat),
        )
        &&& c[(self.bloom_at() + 1) as u64] == sealed(
            padded(
                index_bytes(self.groups, self.base, self.groups.len() as int),
                (block - 4) as nat,
            ),
        )
        &&& c[self.footer_at() as u64] == foot_block(self.foot(), block)
    }

    /// The whole table is on the device.
    pub open spec fn on(self, c: Map<u64, Seq<u8>>, block: int, bloom_bytes: int) -> bool {
        &&& self.data_on(c, block)
        &&& self.rdels_on(c, block)
        &&& self.meta_on(c, block, bloom_bytes)
    }
}

/// The blocks from `first` on hold the groups of range tombstones.
pub open spec fn section_on(
    c: Map<u64, Seq<u8>>,
    first: int,
    rgroups: Seq<Seq<RdelV>>,
    block: int,
) -> bool {
    forall|j: int|
        0 <= j < rgroups.len() ==> c[(first + j) as u64] == rdel_block(#[trigger] rgroups[j], block)
}

// ---------------------------------------------------------------------
// What the blocks on a device store.

/// The entries of the data block `id`.
pub open spec fn stored_group(c: Map<u64, Seq<u8>>, id: u64) -> Seq<Rec> {
    body_entries(logical_of(c[id])->0)->0
}

/// The index of a table.
pub open spec fn stored_index(c: Map<u64, Seq<u8>>, index_block: u64) -> Seq<(Seq<u8>, u64)> {
    index_list(payload_of(c[index_block]))->0
}

/// The entry groups of a table, by its index.
pub open spec fn stored_groups(c: Map<u64, Seq<u8>>, index_block: u64) -> Seq<Seq<Rec>> {
    let l = stored_index(c, index_block);
    Seq::new(l.len(), |i: int| stored_group(c, l[i].1))
}

/// The entries of a table.
pub open spec fn stored_recs(c: Map<u64, Seq<u8>>, index_block: u64) -> Seq<Rec> {
    flat_recs(stored_groups(c, index_block))
}

/// Data block `i` of the index is intact and led by its first key.
pub open spec fn stored_block_ok(
    c: Map<u64, Seq<u8>>,
    l: Seq<(Seq<u8>, u64)>,
    i: int,
    block: int,
) -> bool {
    let b = c[l[i].1];
    &&& b.len() == block
    &&& crc_ok(b)
    &&& logical_of(b) is Some
    &&& logical_of(b)->0.len() == block - 4
    &&& block_wf(logical_of(b)->0)
    &&& stored_group(c, l[i].1).len() >= 1
    &&& stored_group(c, l[i].1)[0].key == l[i].0
    &&& l[i].1 == l[0].1 + i
}

/// The blocks of a table are intact and consistent: a readable index of
/// consecutive, sorted data blocks, and a filter that denies none of the
/// keys.
pub open spec fn stored_wf(
    c: Map<u64, Seq<u8>>,
    f: FootV,
    block: int,
    bloom_bytes: int,
) -> bool {
    let l = stored_index(c, f.index_block);
    let recs = stored_recs(c, f.index_block);
    &&& c[f.index_block].len() == block
    &&& c[f.bloom_block].len() == block
    &&& crc_ok(c[f.index_block])
    &&& index_list(payload_of(c[f.index_block])) is Some
    &&& forall|i: int| 0 <= i < l.len() ==> #[trigger] stored_block_ok(c, l, i, block)
    &&& key_sorted(recs)
    &&& runs_newest_first(recs)
    &&& crc_ok(c[f.bloom_block]) ==> forall|g: int|
        0 <= g < recs.len() ==> bloom_has(
            c[f.bloom_block].take(bloom_bytes),
            #[trigger] recs[g].key,
            f.k,
        )
}

/// A written table is stored intact, and its entries are those written.
pub proof fn law_table_reads_back(t: RunV, c: Map<u64, Seq<u8>>, block: int, bloom_bytes: int)
    requires
        t.data_wf(block, bloom_bytes),
        t.sorted(),
        t.data_on(c, block),
        t.meta_on(c, block, bloom_bytes),
    ensures
        foot_of(c[t.footer_at() as u64]) == Some(t.foot()),
        stored_wf(c, t.foot(), block, bloom_bytes),
        stored_recs(c, t.foot().index_block) == t.recs(),
        stored_groups(c, t.foot().index_block) == t.groups,
        stored_index(c, t.foot().index_block) == index_of(t.groups, t.base),
{
    let f = t.foot();
    let nd = t.groups.len() as int;
    law_footer_reads_back(f, block);
    let ib = index_bytes(t.groups, t.base, nd);
    assert(groups_lead(t.groups)) by {
        assert forall|i: int| 0 <= i < t.groups.len() implies (#[trigger] t.groups[i]).len() >= 1
            && ent_ok(t.groups[i][0]) by {
            assert(group_ok(t.groups[i], block));
        }
    }
    law_index_reads_back(t.groups, t.base, (block - 4) as nat);
    lemma_sealed(padded(ib, (block - 4) as nat));
    let l = stored_index(c, f.index_block);
    assert(l == index_of(t.groups, t.base));
    let bl = bloom_of(keys_of(t.recs()), t.k, bloom_bytes as nat);
    lemma_bloom_len(keys_of(t.recs()), t.k, bloom_bytes as nat);
    let bp = padded(bl, (block - 4) as nat);
    lemma_sealed(bp);
    assert forall|i: int| 0 <= i < nd implies stored_group(c, l[i].1) == #[trigger] t.groups[i]
        && stored_block_ok(c, l, i, block) by {
        assert(group_ok(t.groups[i], block));
        law_data_block_reads_back(c[l[i].1], t.groups[i], block);
        law_body_entries(t.groups[i], block);
        super::format::lemma_body_parts(t.groups[i], block);
        lemma_group_sorted(t.groups, i);
    }
    assert(stored_groups(c, f.index_block) =~= t.groups) by {
        assert forall|i: int| 0 <= i < nd implies #[trigger] stored_groups(c, f.index_block)[i]
            == t.groups[i] by {
            assert(stored_group(c, l[i].1) == t.groups[i]);
        }
    }
    assert forall|i: int| 0 <= i < l.len() implies #[trigger] stored_block_ok(c, l, i, block) by {
        assert(stored_group(c, l[i].1) == t.groups[i]);
    }
    let recs = t.recs();
    assert forall|g: int| 0 <= g < recs.len() implies bloom_has(
        c[f.bloom_block].take(bloom_bytes),
        #[trigger] recs[g].key,
        f.k,
    ) by {
        law_bloom_no_false_negative(keys_of(recs), t.k, bloom_bytes as nat, g);
        assert(c[f.bloom_block].take(bloom_bytes) =~= bl);
    }
}

/// Each group of a sorted table is sorted.
pub proof fn lemma_group_sorted(groups: Seq<Seq<Rec>>, b: int)
    requires
        key_sorted(flat_recs(groups)),
        runs_newest_first(flat_recs(groups)),
        0 <= b < groups.len(),
    ensures
        key_sorted(groups[b]),
        runs_newest_first(groups[b]),
{
    let all = flat_recs(groups);
    let es = groups[b];
    let s = group_start(groups, b);
    assert forall|i: int, j: int| 0 <= i <= j < es.len() implies #[trigger] lex_le(
        es[i].key,
        #[trigger] es[j].key,
    ) by {
        lemma_flat_at(groups, b, i);
        lemma_flat_at(groups, b, j);
        assert(lex_le(all[s + i].key, all[s + j].key));
    }
    assert forall|i: int, j: int|
        #![trigger es[i], es[j]]
        0 <= i < j < es.len() && es[i].key == es[j].key implies es[i].seq > es[j].seq by {
        lemma_flat_at(groups, b, i);
        lemma_flat_at(groups, b, j);
        assert(all[s + i].key == all[s + j].key);
    }
}

/// The index of an intact table is sorted by first key.
pub proof fn lemma_stored_index_sorted(
    c: Map<u64, Seq<u8>>,
    f: FootV,
    block: int,
    bloom_bytes: int,
)
    requires
        stored_wf(c, f, block, bloom_bytes),
    ensures
        index_sorted(stored_index(c, f.index_block)),
{
    let l = stored_index(c, f.index_block);
    let gs = stored_groups(c, f.index_block);
    let all = stored_recs(c, f.index_block);
    assert forall|i: int, j: int| 0 <= i <= j < l.len() implies #[trigger] lex_le(
        l[i].0,
        #[trigger] l[j].0,
    ) by {
        assert(stored_block_ok(c, l, i, block));
        assert(stored_block_ok(c, l, j, block));
        assert(gs[i] == stored_group(c, l[i].1));
        assert(gs[j] == stored_group(c, l[j].1));
        lemma_flat_at(gs, i, 0);
        lemma_flat_at(gs, j, 0);
        lemma_group_start_mono(gs, i, j);
        assert(lex_le(all[group_start(gs, i)].key, all[group_start(gs, j)].key));
    }
}

// ---------------------------------------------------------------------
// The range-tombstone section.

/// The tombstones of the `n` rdel blocks from `first` on, or the id of the
/// first block that does not verify or parse.
pub open spec fn section_list(c: Map<u64, Seq<u8>>, first: u64, n: nat) -> Result<Seq<RdelV>, u64>
    decreases n,
{
    if n == 0 {
        Ok(Seq::empty())
    } else {
        match section_list(c, first, (n - 1) as nat) {
            Err(id) => Err(id),
            Ok(rs) => {
                let id = first + n - 1;
                if id > u64::MAX {
                    Err(first)
                } else {
                    match rdel_list(c[id as u64]) {
                        None => Err(id as u64),
                        Some(more) => Ok(rs + more),
                    }
                }
            },
        }
    }
}

/// The tombstones of a written section are those written.
pub proof fn law_section_reads_back(
    c: Map<u64, Seq<u8>>,
    first: u64,
    rgroups: Seq<Seq<RdelV>>,
    block: int,
)
    requires
        first + rgroups.len() <= u64::MAX,
        forall|j: int| 0 <= j < rgroups.len() ==> rgroup_ok(#[trigger] rgroups[j], block),
        section_on(c, first as int, rgroups, block),
    ensures
        section_list(c, first, rgroups.len()) == Ok::<Seq<RdelV>, u64>(flat_rdels(rgroups)),
{
    lemma_section_prefix(c, first, rgroups, block, rgroups.len());
    assert(rgroups.take(rgroups.len() as int) =~= rgroups);
}

proof fn lemma_section_prefix(
    c: Map<u64, Seq<u8>>,
    first: u64,
    rgroups: Seq<Seq<RdelV>>,
    block: int,
    n: nat,
)
    requires
        n <= rgroups.len(),
        first + rgroups.len() <= u64::MAX,
        forall|j: int| 0 <= j < rgroups.len() ==> rgroup_ok(#[trigger] rgroups[j], block),
        section_on(c, first as int, rgroups, block),
    ensures
        section_list(c, first, n) == Ok::<Seq<RdelV>, u64>(flat_rdels(rgroups.take(n as int))),
    decreases n,
{
    if n == 0 {
        assert(rgroups.take(0) =~= Seq::<Seq<RdelV>>::empty());
    } else {
        lemma_section_prefix(c, first, rgroups, block, (n - 1) as nat);
        assert(rgroup_ok(rgroups[n - 1], block));
        law_rdel_block_reads_back(rgroups[n - 1], block);
        assert(rgroups.take(n as int).drop_last() =~= rgroups.take(n - 1));
        assert(rgroups.take(n as int).last() == rgroups[n - 1]);
    }
}

/// Tombstone `i` is at or below `max_seq` and covers `key`.
pub open spec fn rdel_covers(rs: Seq<RdelV>, key: Seq<u8>, max_seq: u64, i: int) -> bool {
    &&& 0 <= i < rs.len()
    &&& rs[i].seq <= max_seq
    &&& lex_le(rs[i].start, key)
    &&& lex_lt(key, rs[i].end)
}

/// `best` is the highest sequence of a tombstone at or below `max_seq` that
/// covers `key`.
pub open spec fn rdel_best(
    rs: Seq<RdelV>,
    key: Seq<u8>,
    max_seq: u64,
    best: Option<u64>,
) -> bool {
    match best {
        Some(q) => {
            &&& exists|i: int| #[trigger] rdel_covers(rs, key, max_seq, i) && rs[i].seq == q
            &&& forall|i: int| #[trigger] rdel_covers(rs, key, max_seq, i) ==> rs[i].seq <= q
        },
        None => forall|i: int| !#[trigger] rdel_covers(rs, key, max_seq, i),
    }
}

} // verus!
