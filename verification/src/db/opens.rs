//! When an open is owed success, and where it resumes.

use vstd::prelude::*;

use super::place::{at, sits};
use super::{open_refused, opened_as, Db, OpenReport};
use crate::device::BlockDevice;
use crate::error::Error;
use crate::memtable::{
    key_sorted, law_with_rec_keeps_order, lemma_lower, lower, with_rec, Rec,
};
use crate::wal::{block_records, entry_of, replay_block, replay_log, WalRec};

verus! {

proof fn lemma_inserted(v: Seq<Rec>, r: Rec, x: Rec)
    requires
        key_sorted(v),
    ensures
        with_rec(v, r).contains(x) <==> v.contains(x) || x == r,
{
    lemma_lower(v, r.key);
    let p = lower(v, r.key);
    let w = with_rec(v, r);
    if v.contains(x) {
        let k = v.index_of(x);
        if k < p {
            assert(w[k] == x);
        } else {
            assert(w[k + 1] == x);
        }
    }
    if x == r {
        assert(w[p] == x);
    }
    if w.contains(x) {
        let k = w.index_of(x);
        if k < p {
            assert(v[k] == x);
        } else if k > p {
            assert(v[k - 1] == x);
        }
    }
}

/// Replaying a block brings back every record above the floor, and no
/// other: the memtable then holds what it held and their entries.
pub proof fn law_replay_brings_back(
    t: Seq<Rec>,
    rs: Seq<WalRec>,
    floor: u64,
    cap: usize,
    arena: usize,
    key_max: usize,
    val_max: usize,
    x: Rec,
)
    requires
        key_sorted(t),
        replay_block(t, rs, floor, cap, arena, key_max, val_max) is Some,
    ensures
        replay_block(t, rs, floor, cap, arena, key_max, val_max)->0.table.contains(x)
            <==> t.contains(x) || exists|k: int|
            0 <= k < rs.len() && (#[trigger] rs[k]).seq > floor && entry_of(rs[k]) == x,
    decreases rs.len(),
{
    if rs.len() > 0 {
        let d = rs.skip(1);
        let t1 = if rs[0].seq > floor {
            with_rec(t, entry_of(rs[0]))
        } else {
            t
        };
        if rs[0].seq > floor {
            law_with_rec_keeps_order(t, entry_of(rs[0]));
            lemma_inserted(t, entry_of(rs[0]), x);
        }
        law_replay_brings_back(t1, d, floor, cap, arena, key_max, val_max, x);
        if exists|k: int| 0 <= k < rs.len() && (#[trigger] rs[k]).seq > floor && entry_of(rs[k])
            == x {
            let k = choose|k: int|
                0 <= k < rs.len() && (#[trigger] rs[k]).seq > floor && entry_of(rs[k]) == x;
            if k > 0 {
                assert(d[k - 1] == rs[k]);
            }
        }
        if exists|k: int| 0 <= k < d.len() && (#[trigger] d[k]).seq > floor && entry_of(d[k]) == x {
            let k = choose|k: int|
                0 <= k < d.len() && (#[trigger] d[k]).seq > floor && entry_of(d[k]) == x;
            assert(rs[k + 1] == d[k]);
        }
    }
}

/// Replaying a block notes no sequence above those of its records.
proof fn lemma_block_top(
    t: Seq<Rec>,
    rs: Seq<WalRec>,
    floor: u64,
    cap: usize,
    arena: usize,
    key_max: usize,
    val_max: usize,
    m: u64,
)
    requires
        forall|k: int| 0 <= k < rs.len() ==> (#[trigger] rs[k]).seq <= m,
    ensures
        replay_block(t, rs, floor, cap, arena, key_max, val_max) matches Some(p) ==> p.max_seq <= m,
    decreases rs.len(),
{
    if rs.len() > 0 {
        let d = rs.skip(1);
        assert forall|k: int| 0 <= k < d.len() implies (#[trigger] d[k]).seq <= m by {
            assert(d[k] == rs[k + 1]);
        }
        assert(rs[0].seq <= m);
        let t1 = if rs[0].seq > floor {
            with_rec(t, entry_of(rs[0]))
        } else {
            t
        };
        lemma_block_top(t1, d, floor, cap, arena, key_max, val_max, m);
    }
}

/// Nor does replaying a log.
proof fn lemma_replayed_top(
    c: Map<u64, Seq<u8>>,
    id: int,
    end: int,
    t: Seq<Rec>,
    floor: u64,
    cap: usize,
    arena: usize,
    key_max: usize,
    val_max: usize,
    m: u64,
)
    requires
        0 <= id,
        end <= u64::MAX,
        forall|x: u64, k: int|
            #![trigger block_records(c[x]).0[k]]
            id <= x < end && 0 <= k < block_records(c[x]).0.len() ==> block_records(c[x]).0[k].seq
                <= m,
    ensures
        replay_log(c, id, end, t, floor, cap, arena, key_max, val_max) matches Ok(p) ==> p.max_seq
            <= m,
    decreases end - id,
{
    if id < end {
        let rs = block_records(c[id as u64]).0;
        assert forall|k: int| 0 <= k < rs.len() implies (#[trigger] rs[k]).seq <= m by {
            assert(block_records(c[id as u64]).0[k].seq <= m);
        }
        lemma_block_top(t, rs, floor, cap, arena, key_max, val_max, m);
        match replay_block(t, rs, floor, cap, arena, key_max, val_max) {
            None => {},
            Some(p) => {
                lemma_replayed_top(
                    c,
                    id + 1,
                    end,
                    p.table,
                    floor,
                    cap,
                    arena,
                    key_max,
                    val_max,
                    m,
                );
            },
        }
    }
}

impl<
    D: BlockDevice,
    const BLOCK: usize,
    const KEY_MAX: usize,
    const VAL_MAX: usize,
    const CAP: usize,
    const ARENA: usize,
    const LEVELS: usize,
    const TABLES: usize,
    const BLOOM_BYTES: usize,
    const CACHE: usize,
> Db<D, BLOCK, KEY_MAX, VAL_MAX, CAP, ARENA, LEVELS, TABLES, BLOOM_BYTES, CACHE> {
    /// The type parameters are admitted when the block is the device's and
    /// within 512 bytes and 448 KiB, keys and values have 16-bit lengths and
    /// fit a block with 23 bytes of frame, as do two keys with 18, the
    /// filter fits a block, there are up to 64 tables in levels of fewer
    /// than eight, and the sizes of memtable and manifest can be counted.
    pub proof fn law_parameters_admitted()
        requires
            BLOCK == D::BLOCK,
            512 <= BLOCK <= 0x7_0000,
            1 <= KEY_MAX <= 0xFFFF,
            VAL_MAX <= 0xFFFF,
            23 + KEY_MAX + VAL_MAX <= BLOCK,
            18 + 2 * KEY_MAX <= BLOCK,
            1 <= BLOOM_BYTES,
            BLOOM_BYTES + 4 <= BLOCK,
            1 <= LEVELS,
            1 <= TABLES < 8,
            LEVELS * TABLES <= 64,
            1 <= CAP,
            CAP + 3 <= 0xFFFF_FFFF,
            ARENA <= 0xFFFF_FFFF,
            32 + 4 * LEVELS + (LEVELS * TABLES) * (44 + 2 * KEY_MAX) <= 0xFFFF * (BLOCK - 28),
        ensures
            Self::shape(),
    {
        crate::manifest::law_copy_size(LEVELS, TABLES, KEY_MAX, BLOCK as nat);
        let m = Self::stride();
        assert(m <= 0xFFFF) by (nonlinear_arith)
            requires
                (m - 1) * (BLOCK - 28) < 0xFFFF * (BLOCK - 28),
                BLOCK >= 512,
        ;
    }

    /// Eight snapshots may be live, a job merges eight tables at most, and a
    /// region has up to 64 slots; an open handle keeps within all three.
    pub proof fn law_limits(&self)
        requires
            self.wf(),
            self.is_opened(),
        ensures
            crate::compact::merge::MAX_SNAPSHOTS == 8,
            crate::compact::merge::COMPACTION_KMAX == 8,
            crate::slots::MAX_SLOTS == 64,
            self.snaps().len() <= 8,
            self.slot_map().slot_count() == LEVELS * TABLES,
            LEVELS * TABLES <= 64,
    {
        self.lemma_wf();
        Self::lemma_shape();
    }

    /// A configuration is accepted when its regions are given and apart
    /// (the WAL, the tables, and each manifest copy), every copy ends
    /// inside the address space, and a slot takes one block per entry of a
    /// full memtable and three more.
    pub proof fn law_config_accepted(&self)
        requires
            self.wf(),
            self.config().wal_start < self.config().wal_end,
            self.config().tbl_start < self.config().tbl_end,
            self.config().wal_end <= self.config().tbl_start || self.config().tbl_end
                <= self.config().wal_start,
            (self.config().tbl_end - self.config().tbl_start) / (LEVELS * TABLES) >= CAP + 3,
            ({
                let cfg = self.config();
                let n: int = if cfg.manifest_ring < 2 {
                    2
                } else {
                    cfg.manifest_ring as int
                };
                let m = Self::stride();
                if cfg.manifest_ring == 0 {
                    &&& cfg.manifest_a + m <= cfg.manifest_b || cfg.manifest_b + m
                        <= cfg.manifest_a
                    &&& forall|k: int|
                        0 <= k < 2 ==> {
                            let lo = #[trigger] cfg.layout_v().start_of(k, m);
                            &&& lo + m <= u64::MAX
                            &&& lo + m <= cfg.wal_start || cfg.wal_end <= lo
                            &&& lo + m <= cfg.tbl_start || cfg.tbl_end <= lo
                        }
                } else {
                    let lo = cfg.manifest_a as int;
                    let hi = lo + n * m;
                    &&& hi <= u64::MAX
                    &&& hi <= cfg.wal_start || cfg.wal_end <= lo
                    &&& hi <= cfg.tbl_start || cfg.tbl_end <= lo
                }
            }),
        ensures
            !self.bad_config(),
    {
        self.lemma_wf();
        Self::lemma_shape();
        let cfg = self.config();
        let l = cfg.layout_v();
        let m = Self::stride();
        let n: int = if cfg.manifest_ring < 2 {
            2
        } else {
            cfg.manifest_ring as int
        };
        cfg.lemma_copy_starts(0, m);
        crate::manifest::ManifestLayout::law_copies_wrap(
            cfg.manifest_a,
            cfg.manifest_b,
            cfg.manifest_ring,
            0,
            m,
        );
        assert forall|k: int| 0 <= k < l.n() implies l.start_of(k, m) == (if cfg.manifest_ring
            == 0 {
            if k == 0 {
                cfg.manifest_a as int
            } else {
                cfg.manifest_b as int
            }
        } else {
            cfg.manifest_a + k * m
        }) && #[trigger] cfg.copy_ok(k, m) by {
            crate::manifest::ManifestLayout::law_copies_wrap(
                cfg.manifest_a,
                cfg.manifest_b,
                cfg.manifest_ring,
                k,
                m,
            );
            crate::manifest::ManifestLayout::lemma_two_copies(
                cfg.manifest_a,
                cfg.manifest_b,
                cfg.manifest_ring,
            );
            vstd::arithmetic::div_mod::lemma_small_mod(k as nat, l.n() as nat);
            if cfg.manifest_ring != 0 {
                assert(k * m + m <= n * m && 0 <= k * m) by (nonlinear_arith)
                    requires
                        0 <= k < n,
                        0 <= m,
                ;
            }
        }
        assert forall|j: int, k: int| 0 <= j < k < l.n() implies super::copies_apart(
            #[trigger] l.start_of(j, m),
            #[trigger] l.start_of(k, m),
            m,
        ) by {
            assert(cfg.copy_ok(j, m));
            assert(cfg.copy_ok(k, m));
            crate::manifest::ManifestLayout::lemma_two_copies(
                cfg.manifest_a,
                cfg.manifest_b,
                cfg.manifest_ring,
            );
            if cfg.manifest_ring != 0 {
                assert(j * m + m <= k * m) by (nonlinear_arith)
                    requires
                        0 <= j < k,
                        0 <= m,
                ;
            }
        }
    }

    /// A blank device opens: where every manifest copy's first block and
    /// the first block of the WAL read all zero or all one bits, an open of
    /// an accepted configuration fails on the device alone.
    pub proof fn law_blank_opens(&self, e: Error<D::Error>)
        requires
            self.wf(),
            open_refused(*self, e),
            !self.bad_config(),
            forall|k: int|
                0 <= k < self.config().layout_v().n() ==> {
                    let x = (#[trigger] self.config().layout_v().start_of(
                        k,
                        Self::stride(),
                    )) as u64;
                    ||| forall|i: int|
                        0 <= i < self.content()[x].len() ==> #[trigger] self.content()[x][i] == 0u8
                    ||| forall|i: int|
                        0 <= i < self.content()[x].len() ==> #[trigger] self.content()[x][i]
                            == 0xFFu8
                },
            forall|i: int|
                0 <= i < self.content()[self.config().wal_start].len()
                    ==> #[trigger] self.content()[self.config().wal_start][i] == 0u8,
        ensures
            e is Device,
    {
        let l = self.config().layout_v();
        let m = Self::stride();
        let chunk = BLOCK - crate::manifest_format::BLOCK_FRAME;
        l.lemma_n();
        assert forall|j: int| 0 <= j < l.n() implies #[trigger] crate::manifest_format::probe_of(
            self.content(),
            l.start_of(j, m) as u64,
            m,
            chunk,
        ) is Blank by {
            let x = l.start_of(j, m) as u64;
        }
        super::durable::lemma_best_blank(self.content(), l, m, chunk, l.n() as nat);
        assert(crate::manifest_format::probe_of(
            self.content(),
            l.start_of(0, m) as u64,
            m,
            chunk,
        ) is Blank);
        reveal_with_fuel(replay_log, 2);
    }

    /// An open resumes the turn of slots behind the newest table: the one
    /// with the highest id.
    pub proof fn law_open_resumes_turn(&self, rep: OpenReport, l: int, i: int, s: u32)
        requires
            self.wf(),
            self.is_opened(),
            opened_as(*self, rep),
            0 <= l < self.man().levels.len(),
            0 <= i < self.man().levels[l].len(),
            forall|m: int, j: int|
                0 <= m < self.man().levels.len() && 0 <= j < self.man().levels[m].len() && (m != l
                    || j != i) ==> (#[trigger] self.man().levels[m][j]).id
                    < self.man().levels[l][i].id,
            s < self.slot_map().slot_count(),
            self.slot_map().base_of(s as int) <= self.man().levels[l][i].first_block,
            self.man().levels[l][i].first_block + self.man().levels[l][i].block_count
                <= self.slot_map().base_of(s + 1),
        ensures
            self.slot_map().next_hint() == (if s + 1 < self.slot_map().slot_count() {
                s + 1
            } else {
                0
            }),
    {
        self.lemma_wf();
        let slots = self.slot_map();
        let levels = self.man().levels;
        let n = slots.slot_count() as int;
        assert(levels[l].len() > 0);
        let (m, j, q) = choose|m: int, j: int, q: u32| #[trigger]
            super::newest_upto(levels, m, j, levels.len() as int, 0) && #[trigger] sits(
                slots,
                levels[m][j],
                q,
            ) && slots.next_hint() == (q + 1) % (slots.slot_count() as int);
        assert(at(levels, l, i));
        assert(levels[l][i].id <= levels[m][j].id);
        assert(m == l && j == i);
        let t = levels[l][i];
        slots.law_one_slot(q, s, t.first_block, t.block_count as u64);
        assert((s + 1) % n == if s + 1 < n {
            s + 1
        } else {
            0
        }) by (nonlinear_arith)
            requires
                0 <= s < n,
        ;
    }

    /// An opened handle has no snapshot and no job; its counter is at least
    /// every sequence that a table, the log or a flush has noted.
    pub proof fn law_open_counts_on(&self, rep: OpenReport, l: int, i: int)
        requires
            self.wf(),
            self.is_opened(),
            opened_as(*self, rep),
            0 <= l < self.man().levels.len(),
            0 <= i < self.man().levels[l].len(),
        ensures
            self.issued_seq() >= self.man().levels[l][i].max_seq,
            self.issued_seq() >= self.man().seq_high,
            rep.max_seq == self.issued_seq(),
            rep.l0_tables == self.man().levels[0].len(),
    {
        super::place::lemma_top_flat(self.man().levels, self.issued_seq());
        assert(at(self.man().levels, l, i));
    }

    /// Nor is the counter of an opened handle beyond them: where no table,
    /// floor or logged record is above `m`, it is not either.
    pub proof fn law_open_counts_no_more(&self, rep: OpenReport, m: u64)
        requires
            self.wf(),
            self.is_opened(),
            opened_as(*self, rep),
            self.man().seq_high <= m,
            forall|l: int, i: int|
                0 <= l < self.man().levels.len() && 0 <= i < self.man().levels[l].len() ==> (
                #[trigger] self.man().levels[l][i]).max_seq <= m,
            forall|x: u64, k: int|
                #![trigger block_records(self.content()[x]).0[k]]
                self.man().wal_head <= x < self.config().wal_end && 0 <= k < block_records(
                    self.content()[x],
                ).0.len() ==> block_records(self.content()[x]).0[k].seq <= m,
        ensures
            self.issued_seq() <= m,
    {
        super::place::lemma_top_flat(self.man().levels, m);
        lemma_replayed_top(
            self.content(),
            self.man().wal_head as int,
            self.config().wal_end as int,
            Seq::empty(),
            self.man().flushed_seq,
            CAP,
            ARENA,
            KEY_MAX,
            VAL_MAX,
            m,
        );
    }
}

} // verus!
