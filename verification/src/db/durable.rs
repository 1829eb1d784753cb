//! What survives a restart: the log and the manifest on the device hold
//! everything that was acknowledged.

use vstd::prelude::*;

use super::flush::touches_only;
use super::place::{at, lemma_read_order, placed, sits};
use super::write::{applied, batch_arena, batch_recs, queued_ok};
use super::{
    copies_apart, housable, open_refused, opened_as, placeable, recovered_man, tables_placeable,
    Db, OpenReport,
};
use crate::batch::BatchOpV;
use crate::device::{same_blocks, same_outside, BlockDevice};
use crate::error::Error;
use crate::manifest::{
    encodable, holds_copy, law_commit_then_recover, law_recovery_reads_copies_only,
    lemma_copy_reads_back, lemma_probe_same, lemma_stride, recovery_of, Recovery,
};
use crate::manifest_format::{copy_blocks, probe_of, ManV, ProbeV, BLOCK_FRAME};
use crate::memtable::{
    arena_used, key_sorted, lemma_arena_insert, lemma_lower, lower, with_rec, Rec,
};
use crate::wal::{
    block_records, entry_of, fits_table, law_committed_block_replays, log_bytes, padded,
    rec_bytes, rec_valid, replay_block, replay_log, Replay, WalRec,
};

verus! {

/// The block holds no record, or whole records up to sequence `floor`.
pub open spec fn stale(b: Seq<u8>, floor: u64) -> bool {
    let rs = block_records(b).0;
    ||| rs.len() == 0
    ||| !block_records(b).1 && forall|i: int| 0 <= i < rs.len() ==> (#[trigger] rs[i]).seq <= floor
}

/// The block holds records, all of them whole.
pub open spec fn whole(b: Seq<u8>) -> bool {
    block_records(b).0.len() > 0 && !block_records(b).1
}

/// Records of one block that fit the table are all applied.
proof fn lemma_replay_fits(
    t: Seq<Rec>,
    rs: Seq<WalRec>,
    n: int,
    floor: u64,
    cap: usize,
    arena: usize,
    key_max: usize,
    val_max: usize,
)
    requires
        0 <= n <= rs.len(),
        forall|i: int|
            n <= i < rs.len() ==> (#[trigger] rs[i]).seq > floor && fits_table(
                applied(t, rs.take(i)),
                rs[i],
                cap,
                arena,
                key_max,
                val_max,
            ),
    ensures
        replay_block(
            applied(t, rs.take(n)),
            rs.skip(n),
            floor,
            cap,
            arena,
            key_max,
            val_max,
        ) matches Some(p) && p.table == applied(t, rs),
    decreases rs.len() - n,
{
    if n == rs.len() {
        assert(rs.take(n) =~= rs);
    } else {
        lemma_replay_fits(t, rs, n + 1, floor, cap, arena, key_max, val_max);
        assert(rs.skip(n).skip(1) =~= rs.skip(n + 1));
        assert(rs.skip(n)[0] == rs[n]);
        assert(rs.take(n + 1).drop_last() =~= rs.take(n));
        assert(rs.take(n + 1).last() == rs[n]);
    }
}

/// Stale records change nothing.
proof fn lemma_replay_stale(
    t: Seq<Rec>,
    rs: Seq<WalRec>,
    floor: u64,
    cap: usize,
    arena: usize,
    key_max: usize,
    val_max: usize,
)
    requires
        forall|i: int| 0 <= i < rs.len() ==> (#[trigger] rs[i]).seq <= floor,
    ensures
        replay_block(t, rs, floor, cap, arena, key_max, val_max) matches Some(p) && p.table == t,
    decreases rs.len(),
{
    if rs.len() > 0 {
        let s = rs.skip(1);
        assert forall|i: int| 0 <= i < s.len() implies (#[trigger] s[i]).seq <= floor by {
            assert(rs[i + 1].seq <= floor);
        }
        lemma_replay_stale(t, s, floor, cap, arena, key_max, val_max);
    }
}

/// One more block of the log.
proof fn lemma_replay_more(
    c: Map<u64, Seq<u8>>,
    id: int,
    end: int,
    t: Seq<Rec>,
    floor: u64,
    cap: usize,
    arena: usize,
    key_max: usize,
    val_max: usize,
)
    requires
        id <= end,
        0 <= id,
        end < u64::MAX,
        forall|b: u64| id <= b < end ==> whole(#[trigger] c[b]),
        replay_log(c, id, end, t, floor, cap, arena, key_max, val_max) is Ok,
    ensures
        ({
            let p = replay_log(c, id, end, t, floor, cap, arena, key_max, val_max)->Ok_0;
            let rs = block_records(c[end as u64]).0;
            &&& p.blocks == end - id
            &&& whole(c[end as u64]) ==> (replay_block(
                p.table,
                rs,
                floor,
                cap,
                arena,
                key_max,
                val_max,
            ) matches Some(q) ==> {
                &&& replay_log(c, id, end + 1, t, floor, cap, arena, key_max, val_max) matches Ok(z)
                    && z.table == q.table && z.blocks == end + 1 - id
            })
        }),
    decreases end - id,
{
    reveal_with_fuel(replay_log, 2);
    if id < end {
        assert(whole(c[id as u64]));
        let rs = block_records(c[id as u64]).0;
        let q = replay_block(t, rs, floor, cap, arena, key_max, val_max)->0;
        lemma_replay_more(c, id + 1, end, q.table, floor, cap, arena, key_max, val_max);
    }
}

/// A tail of stale blocks changes nothing.
proof fn lemma_replay_tail(
    c: Map<u64, Seq<u8>>,
    id: int,
    mid: int,
    end: int,
    t: Seq<Rec>,
    floor: u64,
    cap: usize,
    arena: usize,
    key_max: usize,
    val_max: usize,
)
    requires
        0 <= id <= mid <= end <= u64::MAX,
        forall|b: u64| id <= b < mid ==> whole(#[trigger] c[b]),
        forall|b: u64| mid <= b < end ==> stale(#[trigger] c[b], floor),
        replay_log(c, id, mid, t, floor, cap, arena, key_max, val_max) is Ok,
    ensures
        ({
            let p = replay_log(c, id, mid, t, floor, cap, arena, key_max, val_max)->Ok_0;
            &&& replay_log(c, id, end, t, floor, cap, arena, key_max, val_max) matches Ok(q) && {
                &&& q.table == p.table
                &&& mid <= id + q.blocks <= end
                &&& forall|b: u64| id <= b < id + q.blocks ==> whole(#[trigger] c[b])
            }
        }),
    decreases end - id,
{
    reveal_with_fuel(replay_log, 2);
    if id < mid {
        assert(whole(c[id as u64]));
        let rs = block_records(c[id as u64]).0;
        let q = replay_block(t, rs, floor, cap, arena, key_max, val_max)->0;
        lemma_replay_tail(c, id + 1, mid, end, q.table, floor, cap, arena, key_max, val_max);
    } else if id < end {
        assert(stale(c[id as u64], floor));
        let rs = block_records(c[id as u64]).0;
        if rs.len() > 0 {
            lemma_replay_stale(t, rs, floor, cap, arena, key_max, val_max);
            lemma_replay_tail(c, id + 1, id + 1, end, t, floor, cap, arena, key_max, val_max);
        }
    }
}

/// Every record of a replayed block is at most the highest replayed.
proof fn lemma_block_max(
    t: Seq<Rec>,
    rs: Seq<WalRec>,
    floor: u64,
    cap: usize,
    arena: usize,
    key_max: usize,
    val_max: usize,
)
    ensures
        replay_block(t, rs, floor, cap, arena, key_max, val_max) matches Some(p) ==> forall|i: int|
            0 <= i < rs.len() ==> (#[trigger] rs[i]).seq <= p.max_seq,
    decreases rs.len(),
{
    if rs.len() > 0 {
        let t1 = if rs[0].seq > floor {
            with_rec(t, entry_of(rs[0]))
        } else {
            t
        };
        lemma_block_max(t1, rs.skip(1), floor, cap, arena, key_max, val_max);
        match replay_block(t, rs, floor, cap, arena, key_max, val_max) {
            Some(p) => {
                assert forall|i: int| 0 <= i < rs.len() implies (#[trigger] rs[i]).seq
                    <= p.max_seq by {
                    if i > 0 {
                        assert(rs.skip(1)[i - 1] == rs[i]);
                    }
                }
            },
            None => {},
        }
    }
}

/// Every record of the replayed blocks is at most the highest replayed.
proof fn lemma_replay_max(
    c: Map<u64, Seq<u8>>,
    id: int,
    end: int,
    t: Seq<Rec>,
    floor: u64,
    cap: usize,
    arena: usize,
    key_max: usize,
    val_max: usize,
)
    requires
        0 <= id,
        end <= u64::MAX,
    ensures
        replay_log(c, id, end, t, floor, cap, arena, key_max, val_max) matches Ok(q) ==> forall|
            b: u64,
        |
            id <= b < id + q.blocks && whole(c[b]) ==> stale(#[trigger] c[b], q.max_seq),
    decreases end - id,
{
    reveal_with_fuel(replay_log, 2);
    let (rs, torn) = block_records(c[id as u64]);
    if id < end && rs.len() > 0 {
        lemma_block_max(t, rs, floor, cap, arena, key_max, val_max);
        match replay_block(t, rs, floor, cap, arena, key_max, val_max) {
            Some(p) => {
                if !torn {
                    lemma_replay_max(
                        c,
                        id + 1,
                        end,
                        p.table,
                        floor,
                        cap,
                        arena,
                        key_max,
                        val_max,
                    );
                    match replay_log(c, id, end, t, floor, cap, arena, key_max, val_max) {
                        Ok(q) => {
                            assert forall|b: u64|
                                id <= b < id + q.blocks && whole(c[b]) implies stale(
                                #[trigger] c[b],
                                q.max_seq,
                            ) by {
                                let z = replay_log(
                                    c,
                                    id + 1,
                                    end,
                                    p.table,
                                    floor,
                                    cap,
                                    arena,
                                    key_max,
                                    val_max,
                                )->Ok_0;
                                if b > id {
                                    assert(stale(c[b], z.max_seq));
                                }
                            }
                        },
                        Err(_) => {},
                    }
                }
            },
            None => {},
        }
    }
}

/// A replay stopped where it stops by itself gives the same.
proof fn lemma_replay_prefix(
    c: Map<u64, Seq<u8>>,
    id: int,
    end: int,
    t: Seq<Rec>,
    floor: u64,
    cap: usize,
    arena: usize,
    key_max: usize,
    val_max: usize,
)
    requires
        0 <= id,
        end <= u64::MAX,
    ensures
        replay_log(c, id, end, t, floor, cap, arena, key_max, val_max) matches Ok(q) ==> replay_log(
            c,
            id,
            id + q.blocks,
            t,
            floor,
            cap,
            arena,
            key_max,
            val_max,
        ) == Ok::<Replay, int>(q),
    decreases end - id,
{
    reveal_with_fuel(replay_log, 2);
    let (rs, torn) = block_records(c[id as u64]);
    if id < end && rs.len() > 0 {
        match replay_block(t, rs, floor, cap, arena, key_max, val_max) {
            Some(p) => {
                if !torn {
                    lemma_replay_prefix(
                        c,
                        id + 1,
                        end,
                        p.table,
                        floor,
                        cap,
                        arena,
                        key_max,
                        val_max,
                    );
                }
            },
            None => {},
        }
    }
}

/// Logs that agree on the blocks replay alike.
pub(super) proof fn lemma_replay_same(
    c0: Map<u64, Seq<u8>>,
    c1: Map<u64, Seq<u8>>,
    id: int,
    end: int,
    t: Seq<Rec>,
    floor: u64,
    cap: usize,
    arena: usize,
    key_max: usize,
    val_max: usize,
)
    requires
        0 <= id,
        end <= u64::MAX,
        same_blocks(c0, c1, id, end),
    ensures
        replay_log(c1, id, end, t, floor, cap, arena, key_max, val_max) == replay_log(
            c0,
            id,
            end,
            t,
            floor,
            cap,
            arena,
            key_max,
            val_max,
        ),
    decreases end - id,
{
    reveal_with_fuel(replay_log, 2);
    if id < end {
        assert(c0[id as u64] == c1[id as u64]);
        let rs = block_records(c0[id as u64]).0;
        match replay_block(t, rs, floor, cap, arena, key_max, val_max) {
            Some(q) => {
                lemma_replay_same(
                    c0,
                    c1,
                    id + 1,
                    end,
                    q.table,
                    floor,
                    cap,
                    arena,
                    key_max,
                    val_max,
                );
            },
            None => {},
        }
    }
}

impl<
    D: BlockDevice,
    const BLOCK: usize,
    const KEY_MAX: usize,
    const VAL_MAX: usize,
    const CAP: usize,
    const ARENA: usize,
    const LEVELS: usize,
    const TABLES: usize,
    const BLOOM_BYTES: usize,
    const CACHE: usize,
> Db<D, BLOCK, KEY_MAX, VAL_MAX, CAP, ARENA, LEVELS, TABLES, BLOOM_BYTES, CACHE> {
    /// What the manifest copy at position `k` holds.
    pub open spec fn copy_probe(&self, k: int) -> ProbeV {
        probe_of(
            self.content(),
            self.config().layout_v().start_of(k, Self::stride()) as u64,
            Self::stride(),
            BLOCK - BLOCK_FRAME,
        )
    }

    /// What a recovery of the manifest finds.
    pub open spec fn recovery(&self) -> Recovery {
        recovery_of(
            self.content(),
            self.config().layout_v(),
            LEVELS,
            TABLES,
            KEY_MAX,
            BLOCK as nat,
        )
    }

    /// The log from `wal_head` up to block `end`, replayed.
    pub open spec fn replayed(&self, end: int) -> Result<Replay, int> {
        replay_log(
            self.content(),
            self.man().wal_head as int,
            end,
            Seq::empty(),
            self.man().flushed_seq,
            CAP,
            ARENA,
            KEY_MAX,
            VAL_MAX,
        )
    }

    /// The state outlasts a power loss: the device holds it and has flushed
    /// it. A recovery finds the manifest, the log replays to the memtable,
    /// and blocks behind the log hold nothing that a replay would take.
    pub open spec fn durable(&self) -> bool {
        let m = self.man();
        let cfg = self.config();
        &&& self.settled()
        &&& recovered_man(self.recovery(), cfg, LEVELS as nat) == Some(m)
        &&& forall|k: int|
            0 <= k < cfg.layout_v().n() ==> (#[trigger] self.copy_probe(k) matches ProbeV::Intact {
                seq,
                ..
            } ==> seq <= m.seq)
        &&& cfg.wal_start <= m.wal_head <= self.wal_next() <= cfg.wal_end
        &&& forall|b: u64| m.wal_head <= b < self.wal_next() ==> whole(#[trigger] self.content()[b])
        &&& self.replayed(self.wal_next() as int) matches Ok(p) && p.table == self.mem()
        &&& forall|b: u64|
            self.wal_next() <= b < cfg.wal_end ==> stale(
                #[trigger] self.content()[b],
                m.flushed_seq,
            )
        &&& forall|b: u64|
            cfg.wal_start <= b < m.wal_head ==> stale(#[trigger] self.content()[b], m.flushed_seq)
        &&& m.flushed_seq <= m.seq_high
        &&& forall|b: u64|
            cfg.wal_start <= b < cfg.wal_end ==> stale(
                #[trigger] self.content()[b],
                self.issued_seq(),
            )
    }

    /// Blocks outside the manifest copies do not bear on its recovery.
    proof fn lemma_recovery_kept(a: &Self, b: &Self)
        requires
            a.wf(),
            a.is_opened(),
            b.config() == a.config(),
            forall|k: int|
                0 <= k < a.config().layout_v().n() ==> same_blocks(
                    a.content(),
                    b.content(),
                    #[trigger] a.config().layout_v().start_of(k, Self::stride()),
                    a.config().layout_v().start_of(k, Self::stride()) + Self::stride(),
                ),
        ensures
            b.recovery() == a.recovery(),
            forall|k: int|
                0 <= k < a.config().layout_v().n() ==> #[trigger] b.copy_probe(k) == a.copy_probe(k),
    {
        let l = a.config().layout_v();
        a.lemma_wf();
        a.manifest.lemma_wf();
        a.lemma_copy_at();
        law_recovery_reads_copies_only(
            a.content(),
            b.content(),
            l,
            LEVELS,
            TABLES,
            KEY_MAX,
            BLOCK as nat,
        );
        lemma_stride(a.man(), LEVELS, TABLES, KEY_MAX, BLOCK as nat);
        assert forall|k: int| 0 <= k < l.n() implies #[trigger] b.copy_probe(k) == a.copy_probe(
            k,
        ) by {
            l.lemma_start_nonneg(k, Self::stride());
            assert(l.start_of(k, Self::stride()) + Self::stride() <= u64::MAX);
            lemma_probe_same(
                a.content(),
                b.content(),
                l.start_of(k, Self::stride()) as u64,
                Self::stride(),
                BLOCK - BLOCK_FRAME,
            );
        }
    }

    /// With the slots as they were and nothing less synced, the state stays
    /// settled.
    proof fn lemma_settled_same(a: &Self, b: &Self)
        requires
            a.settled(),
            b.synced_since(a, 0, 0),
            b.slot_map() == a.slot_map(),
        ensures
            b.settled(),
    {
        assert forall|x: u64| #[trigger] b.synced(x) || b.spare_block(x) by {
            if !a.synced(x) {
                assert(a.spare_block(x));
            }
        }
    }

    /// Appending records to the log keeps the state durable.
    proof fn lemma_log_durable(a: &Self, b: &Self, rs: Seq<WalRec>)
        requires
            a.wf(),
            a.sound(),
            a.durable(),
            a.wal_next() < a.config().wal_end,
            rs.len() > 0,
            log_bytes(rs).len() <= BLOCK,
            forall|i: int| 0 <= i < rs.len() ==> rec_valid(#[trigger] rs[i]),
            forall|i: int|
                0 <= i < rs.len() ==> (#[trigger] rs[i]).seq > a.issued_seq() && rs[i].seq
                    <= b.issued_seq() && fits_table(
                    applied(a.mem(), rs.take(i)),
                    rs[i],
                    CAP,
                    ARENA,
                    KEY_MAX,
                    VAL_MAX,
                ),
            b.man() == a.man(),
            b.config() == a.config(),
            b.mem() == applied(a.mem(), rs),
            b.wal_next() == a.wal_next() + 1,
            b.issued_seq() >= a.issued_seq(),
            b.content() == a.content().insert(
                a.wal_next(),
                padded(log_bytes(rs), BLOCK as nat),
            ),
            b.kept() == b.content(),
        ensures
            b.durable(),
    {
        let w = a.wal_next();
        let m = a.man();
        let cfg = a.config();
        let c0 = a.content();
        let c1 = b.content();
        let l = cfg.layout_v();
        a.lemma_wf();
        assert forall|k: int| 0 <= k < l.n() implies same_blocks(
            c0,
            c1,
            #[trigger] l.start_of(k, Self::stride()),
            l.start_of(k, Self::stride()) + Self::stride(),
        ) by {
            assert(cfg.copy_ok(k, Self::stride()));
        }
        Self::lemma_recovery_kept(a, b);
        law_committed_block_replays(rs, BLOCK as nat);
        assert(block_records(c1[w]) == (rs, false));
        let head = m.wal_head as int;
        lemma_replay_same(
            c0,
            c1,
            head,
            w as int,
            Seq::empty(),
            m.flushed_seq,
            CAP,
            ARENA,
            KEY_MAX,
            VAL_MAX,
        );
        assert forall|x: u64| m.wal_head <= x < w + 1 implies whole(#[trigger] c1[x]) by {
            if x != w {
                assert(c0[x] == c1[x]);
            }
        }
        lemma_replay_more(
            c1,
            head,
            w as int,
            Seq::empty(),
            m.flushed_seq,
            CAP,
            ARENA,
            KEY_MAX,
            VAL_MAX,
        );
        assert(rs.take(0) =~= Seq::<WalRec>::empty());
        assert(rs.skip(0) =~= rs);
        lemma_replay_fits(
            a.mem(),
            rs,
            0,
            m.flushed_seq,
            CAP,
            ARENA,
            KEY_MAX,
            VAL_MAX,
        );
        assert forall|x: u64| b.wal_next() <= x < cfg.wal_end implies stale(
            #[trigger] c1[x],
            m.flushed_seq,
        ) by {
            assert(c0[x] == c1[x]);
            assert(stale(c0[x], m.flushed_seq));
        }
        assert forall|x: u64| cfg.wal_start <= x < m.wal_head implies stale(
            #[trigger] c1[x],
            m.flushed_seq,
        ) by {
            assert(c0[x] == c1[x]);
            assert(stale(c0[x], m.flushed_seq));
        }
        assert forall|x: u64| cfg.wal_start <= x < cfg.wal_end implies stale(
            #[trigger] c1[x],
            b.issued_seq(),
        ) by {
            if x != w {
                assert(c0[x] == c1[x]);
                assert(stale(c0[x], a.issued_seq()));
            }
        }
    }

    /// A write that the device did not fail leaves the state durable: what
    /// was acknowledged is in the log.
    pub proof fn law_write_durable(
        a: &Self,
        b: &Self,
        rec0: WalRec,
        r: Result<u64, Error<D::Error>>,
    )
        requires
            a.wf(),
            a.sound(),
            a.durable(),
            Self::wrote(a, b, rec0, r),
            rec0 == super::write::put_rec(rec0.key, rec0.val) || rec0 == super::write::ttl_rec(
                rec0.key,
                rec0.val,
                rec0.expire_at,
            ) || rec0 == super::write::delete_rec(rec0.key) || rec0
                == super::write::range_delete_rec(rec0.key, rec0.val),
            !(r matches Err(Error::Device(_))),
        ensures
            b.durable(),
    {
        let seq = (a.issued_seq() + 1) as u64;
        let rec = WalRec { seq, ..rec0 };
        let rs = seq![rec];
        if r is Ok {
            assert(rs.skip(1) =~= Seq::<WalRec>::empty());
            assert(log_bytes(rs) =~= rec_bytes(rec)) by {
                reveal_with_fuel(log_bytes, 2);
            }
            assert(rs.take(0) =~= Seq::<WalRec>::empty());
            assert(rs.drop_last() =~= Seq::<WalRec>::empty());
            assert(applied(a.mem(), rs.take(0)) == a.mem());
            assert(applied(a.mem(), rs) == with_rec(a.mem(), entry_of(rec))) by {
                reveal_with_fuel(applied, 2);
            }
            a.lemma_wf();
            crate::wal::law_record_roundtrip(rec, Seq::empty());
            Self::lemma_log_durable(a, b, rs);
        } else if b.content() == a.content() {
            a.lemma_wf();
            Self::lemma_recovery_kept(a, b);
            Self::lemma_settled_same(a, b);
        }
    }

    /// A batch that the device did not fail leaves the state durable.
    pub proof fn law_batch_durable(
        a: &Self,
        b: &Self,
        ops: Seq<BatchOpV>,
        r: Result<u64, Error<D::Error>>,
    )
        requires
            a.wf(),
            a.sound(),
            a.durable(),
            Self::wrote_batch(a, b, ops, r),
            forall|i: int|
                0 <= i < ops.len() ==> crate::batch::op_queued(#[trigger] ops[i], KEY_MAX, VAL_MAX),
            !(r matches Err(Error::Device(_))),
        ensures
            b.durable(),
    {
        a.lemma_wf();
        if r is Ok && ops.len() > 0 {
            let base = (a.issued_seq() + 1) as u64;
            let rs = batch_recs(ops, base);
            assert forall|i: int| 0 <= i < ops.len() implies queued_ok(#[trigger] ops[i]) by {
                assert(crate::batch::op_queued(ops[i], KEY_MAX, VAL_MAX));
            }
            super::write::lemma_log_len(ops, base, ops.len() as int);
            assert(rs.take(rs.len() as int) =~= rs);
            assert(ops.take(ops.len() as int) =~= ops);
            a.table.lemma_wf();
            assert forall|i: int| 0 <= i < rs.len() implies (#[trigger] rs[i]).seq > a.issued_seq()
                && rs[i].seq <= b.issued_seq() && rec_valid(rs[i]) && fits_table(
                applied(a.mem(), rs.take(i)),
                rs[i],
                CAP,
                ARENA,
                KEY_MAX,
                VAL_MAX,
            ) by {
                assert(crate::batch::op_queued(ops[i], KEY_MAX, VAL_MAX));
                lemma_applied_room(a.mem(), ops, base, i);
                super::write::lemma_batch_mono(ops, i + 1);
                assert(ops.take(i + 1).drop_last() =~= ops.take(i));
                assert(ops.take(i + 1).last() == ops[i]);
            }
            Self::lemma_log_durable(a, b, rs);
        } else if b.content() == a.content() {
            Self::lemma_recovery_kept(a, b);
            Self::lemma_settled_same(a, b);
        }
    }

    /// A write or batch whose log block did not reach the device leaves the
    /// state from before it durable: with the next log block in any
    /// condition in which no record of it reads, a recovery finds nothing
    /// of the write.
    pub proof fn law_torn_write_durable(a: &Self, b: &Self)
        requires
            a.wf(),
            a.is_opened(),
            a.durable(),
            a.wal_next() < a.config().wal_end,
            b.man() == a.man(),
            b.mem() == a.mem(),
            b.config() == a.config(),
            b.wal_next() == a.wal_next(),
            b.issued_seq() >= a.issued_seq(),
            forall|x: u64| x != a.wal_next() ==> #[trigger] b.content()[x] == a.content()[x],
            block_records(b.content()[a.wal_next()]).0.len() == 0,
            b.kept() == b.content(),
        ensures
            b.durable(),
    {
        let w = a.wal_next();
        let m = a.man();
        let cfg = a.config();
        let c0 = a.content();
        let c1 = b.content();
        let l = cfg.layout_v();
        a.lemma_wf();
        assert forall|k: int| 0 <= k < l.n() implies same_blocks(
            c0,
            c1,
            #[trigger] l.start_of(k, Self::stride()),
            l.start_of(k, Self::stride()) + Self::stride(),
        ) by {
            assert(cfg.copy_ok(k, Self::stride()));
        }
        Self::lemma_recovery_kept(a, b);
        assert(same_blocks(c0, c1, m.wal_head as int, w as int));
        lemma_replay_same(
            c0,
            c1,
            m.wal_head as int,
            w as int,
            Seq::empty(),
            m.flushed_seq,
            CAP,
            ARENA,
            KEY_MAX,
            VAL_MAX,
        );
        assert forall|x: u64| m.wal_head <= x < w implies whole(#[trigger] c1[x]) by {
            assert(whole(c0[x]));
        }
        assert forall|x: u64| w <= x < cfg.wal_end implies stale(
            #[trigger] c1[x],
            m.flushed_seq,
        ) by {
            assert(stale(c0[x], m.flushed_seq));
        }
        assert forall|x: u64| cfg.wal_start <= x < m.wal_head implies stale(
            #[trigger] c1[x],
            m.flushed_seq,
        ) by {
            assert(stale(c0[x], m.flushed_seq));
        }
        assert forall|x: u64| cfg.wal_start <= x < cfg.wal_end implies stale(
            #[trigger] c1[x],
            b.issued_seq(),
        ) by {
            assert(stale(c0[x], a.issued_seq()));
        }
    }

    /// A manifest commit with the log untouched keeps the state durable.
    pub(super) proof fn lemma_commit_durable(a: &Self, b: &Self, lo: int, hi: int)
        requires
            a.wf(),
            a.is_opened(),
            a.durable(),
            b.wf(),
            b.config() == a.config(),
            a.issued_seq() <= b.issued_seq(),
            a.man().seq < u64::MAX,
            b.man().seq == a.man().seq + 1,
            touches_only(
                a.content(),
                b.content(),
                lo,
                hi,
                a.copy_at(),
                a.copy_at() + Self::stride(),
            ),
            lo >= hi || (a.slot_map().base_of(0) <= lo && hi <= a.slot_map().base_of(
                a.slot_map().slot_count() as int,
            )),
            holds_copy(b.content(), b.man(), a.copy_at(), BLOCK as nat),
            b.kept() == b.content(),
            b.man().flushed_seq <= b.man().seq_high,
            // The log goes on, or starts over behind everything issued.
            (b.man().wal_head == a.man().wal_head && b.man().flushed_seq == a.man().flushed_seq
                && b.wal_next() == a.wal_next() && b.mem() == a.mem()) || (b.mem() == Seq::<
                Rec,
            >::empty() && b.wal_next() == b.man().wal_head && a.man().flushed_seq
                <= b.man().flushed_seq && a.issued_seq() <= b.man().flushed_seq && (b.wal_next()
                == a.wal_next() || b.wal_next() == a.config().wal_start)),
        ensures
            b.durable(),
    {
        let l = a.config().layout_v();
        let stride = Self::stride();
        let cfg = a.config();
        let k0 = (a.man().seq + 1) % l.n();
        let c0 = a.content();
        let c1 = b.content();
        a.lemma_wf();
        a.lemma_copy_at();
        b.manifest.lemma_wf();
        l.lemma_n();
        lemma_stride(b.man(), LEVELS, TABLES, KEY_MAX, BLOCK as nat);
        l.lemma_start_nonneg(k0, stride);
        assert(encodable(b.man(), BLOCK as nat));
        lemma_copy_reads_back(c1, b.man(), a.copy_at() as u64, stride, BLOCK as nat);
        assert forall|k: int| 0 <= k < l.n() && k != k0 implies (#[trigger] b.copy_probe(
            k,
        ) matches ProbeV::Intact { seq, .. } ==> seq < b.man().seq) by {
            assert(cfg.copy_ok(k, stride));
            assert(cfg.copy_ok(k0, stride));
            l.lemma_start_nonneg(k, stride);
            let s = l.start_of(k, stride);
            if k < k0 {
                assert(copies_apart(l.start_of(k, stride), l.start_of(k0, stride), stride));
            } else {
                assert(copies_apart(l.start_of(k0, stride), l.start_of(k, stride), stride));
            }
            assert(same_blocks(c0, c1, s, s + stride));
            lemma_probe_same(c0, c1, s as u64, stride, BLOCK - BLOCK_FRAME);
            assert(b.copy_probe(k) == a.copy_probe(k));
        }
        assert forall|j: int| 0 <= j < l.n() && j != k0 implies (#[trigger] probe_of(
            c1,
            l.start_of(j, stride) as u64,
            stride,
            BLOCK - BLOCK_FRAME,
        ) matches ProbeV::Intact { seq, .. } ==> seq < b.man().seq) by {
            assert(b.copy_probe(j) == probe_of(
                c1,
                l.start_of(j, stride) as u64,
                stride,
                BLOCK - BLOCK_FRAME,
            ));
        }
        law_commit_then_recover(
            c1,
            l,
            b.man(),
            k0,
            LEVELS,
            TABLES,
            KEY_MAX,
            BLOCK as nat,
        );
        assert forall|k: int| 0 <= k < l.n() implies (#[trigger] b.copy_probe(
            k,
        ) matches ProbeV::Intact { seq, .. } ==> seq <= b.man().seq) by {
            if k == k0 {
                assert(b.copy_probe(k) == (ProbeV::Intact {
                    seq: b.man().seq,
                    count: copy_blocks(b.man(), BLOCK as nat) as nat,
                }));
            }
        }
        assert forall|x: u64| cfg.wal_start <= x < cfg.wal_end implies #[trigger] c0[x]
            == c1[x] by {}
        assert forall|x: u64| cfg.wal_start <= x < cfg.wal_end implies stale(
            #[trigger] c1[x],
            b.issued_seq(),
        ) by {
            assert(stale(c0[x], a.issued_seq()));
        }
        assert forall|x: u64| b.wal_next() <= x < cfg.wal_end implies stale(
            #[trigger] c1[x],
            b.man().flushed_seq,
        ) by {
            assert(c0[x] == c1[x]);
            if a.wal_next() <= x {
                assert(stale(c0[x], a.man().flushed_seq));
            } else {
                assert(stale(c0[x], a.issued_seq()));
            }
        }
        assert forall|x: u64| cfg.wal_start <= x < b.man().wal_head implies stale(
            #[trigger] c1[x],
            b.man().flushed_seq,
        ) by {
            assert(c0[x] == c1[x]);
            assert(stale(c0[x], a.issued_seq()));
            if x < a.man().wal_head {
                assert(stale(c0[x], a.man().flushed_seq));
            }
        }
        if b.man().wal_head == a.man().wal_head && b.wal_next() == a.wal_next() && b.mem()
            == a.mem() && b.man().flushed_seq == a.man().flushed_seq {
            lemma_replay_same(
                c0,
                c1,
                a.man().wal_head as int,
                a.wal_next() as int,
                Seq::empty(),
                a.man().flushed_seq,
                CAP,
                ARENA,
                KEY_MAX,
                VAL_MAX,
            );
            assert forall|x: u64| b.man().wal_head <= x < b.wal_next() implies whole(
                #[trigger] c1[x],
            ) by {
                assert(c0[x] == c1[x]);
            }
        } else {
            reveal_with_fuel(replay_log, 2);
        }
    }

    /// A flush that the device did not fail leaves the state durable.
    pub proof fn law_flush_durable(a: &Self, b: &Self, r: Result<(), Error<D::Error>>)
        requires
            a.wf(),
            a.sound(),
            a.durable(),
            b.wf(),
            Self::flushed(a, b, r),
            r is Ok,
        ensures
            b.durable(),
    {
        a.lemma_wf();
        if a.mem().len() == 0 {
            if a.wal_full() {
                assert(a.mem() =~= Seq::<Rec>::empty());
                Self::lemma_commit_durable(a, b, 0, 0);
            } else {
                Self::lemma_recovery_kept(a, b);
                Self::lemma_settled_same(a, b);
            }
        } else {
            let s = choose|s: u32| #[trigger]
                super::room::next_free(a.slot_map(), s) && Self::flushed_into(a, b, s, r);
            let n = a.slot_map().slot_count() as int;
            a.slot_map().law_slots_tile(s as int, n);
            if s > 0 {
                a.slot_map().law_slots_tile(0, s as int);
            }
            Self::lemma_commit_durable(
                a,
                b,
                a.slot_map().base_of(s as int),
                a.slot_map().base_of(s + 1),
            );
        }
    }

    /// A power loss leaves the log, the manifest copies and the live tables
    /// of a settled database.
    pub(super) proof fn lemma_kept_blocks(&self)
        requires
            self.wf(),
            self.is_opened(),
            self.settled(),
            self.tidy(),
        ensures
            same_blocks(
                self.content(),
                self.kept(),
                self.config().wal_start as int,
                self.config().wal_end as int,
            ),
            forall|k: int|
                0 <= k < self.config().layout_v().n() ==> same_blocks(
                    self.content(),
                    self.kept(),
                    #[trigger] self.config().layout_v().start_of(k, Self::stride()),
                    self.config().layout_v().start_of(k, Self::stride()) + Self::stride(),
                ),
            forall|l: int, i: int|
                at(self.man().levels, l, i) ==> same_blocks(
                    self.content(),
                    self.kept(),
                    (#[trigger] self.man().levels[l][i]).first_block as int,
                    self.man().levels[l][i].first_block + self.man().levels[l][i].block_count,
                ),
    {
        reveal(Db::tidy);
        let slots = self.slot_map();
        let cfg = self.config();
        let c = self.content();
        let levels = self.man().levels;
        let n = slots.slot_count() as int;
        self.lemma_wf();
        assert forall|x: u64| self.spare_block(x) implies slots.base_of(0) <= x
            < slots.base_of(n) by {
            let s = choose|s: u32|
                s < slots.slot_count() && !(#[trigger] slots.used(s)) && slots.base_of(s as int)
                    <= x < slots.base_of(s + 1);
            slots.law_slots_tile(s as int, n);
            if s > 0 {
                slots.law_slots_tile(0, s as int);
            }
        }
        assert forall|x: u64| cfg.wal_start <= x < cfg.wal_end implies #[trigger] c[x]
            == self.kept()[x] by {
            assert(self.synced(x) || self.spare_block(x));
        }
        assert forall|k: int| 0 <= k < cfg.layout_v().n() implies same_blocks(
            c,
            self.kept(),
            #[trigger] cfg.layout_v().start_of(k, Self::stride()),
            cfg.layout_v().start_of(k, Self::stride()) + Self::stride(),
        ) by {
            assert(cfg.copy_ok(k, Self::stride()));
            let lo = cfg.layout_v().start_of(k, Self::stride());
            assert forall|x: u64| lo <= x < lo + Self::stride() implies #[trigger] c[x]
                == self.kept()[x] by {
                assert(self.synced(x) || self.spare_block(x));
            }
        }
        assert forall|l: int, i: int| at(levels, l, i) implies same_blocks(
            c,
            self.kept(),
            (#[trigger] levels[l][i]).first_block as int,
            levels[l][i].first_block + levels[l][i].block_count,
        ) by {
            let t = levels[l][i];
            assert forall|x: u64|
                t.first_block <= x < t.first_block + t.block_count implies #[trigger] c[x]
                == self.kept()[x] by {
                if !self.synced(x) {
                    assert(self.spare_block(x));
                    let s = choose|s: u32|
                        s < slots.slot_count() && !(#[trigger] slots.used(s)) && slots.base_of(
                            s as int,
                        ) <= x < slots.base_of(s + 1);
                    super::place::lemma_slot_apart(slots, levels, l, i, s);
                }
            }
        }
    }

    /// A step of a compaction that is not its last keeps the state durable:
    /// what it wrote is in a spare slot.
    pub proof fn law_step_durable(a: &Self, b: &Self, slot: u32)
        requires
            a.wf(),
            a.is_opened(),
            a.durable(),
            b.worked_on(a, slot),
            b.synced_since(
                a,
                a.slot_map().base_of(slot as int),
                a.slot_map().base_of(slot + 1),
            ),
            same_outside(
                a.content(),
                b.content(),
                a.slot_map().base_of(slot as int),
                a.slot_map().base_of(slot + 1),
            ),
            slot < a.slot_map().slot_count(),
            !a.slot_map().used(slot),
        ensures
            b.durable(),
    {
        let m = a.man();
        let cfg = a.config();
        let c0 = a.content();
        let c1 = b.content();
        let l = cfg.layout_v();
        let slots = a.slot_map();
        let n = slots.slot_count() as int;
        a.lemma_wf();
        slots.law_slots_tile(slot as int, n);
        if slot > 0 {
            slots.law_slots_tile(0, slot as int);
        }
        assert forall|k: int| 0 <= k < l.n() implies same_blocks(
            c0,
            c1,
            #[trigger] l.start_of(k, Self::stride()),
            l.start_of(k, Self::stride()) + Self::stride(),
        ) by {
            assert(cfg.copy_ok(k, Self::stride()));
        }
        Self::lemma_recovery_kept(a, b);
        assert(same_blocks(c0, c1, cfg.wal_start as int, cfg.wal_end as int));
        Self::lemma_log_kept(a, b);
        assert forall|x: u64| #[trigger] b.synced(x) || b.spare_block(x) by {
            if slots.base_of(slot as int) <= x < slots.base_of(slot + 1) {
                assert(!b.slot_map().used(slot));
                assert(b.spare_block(x));
            } else if !a.synced(x) {
                assert(a.spare_block(x));
                let s = choose|s: u32|
                    s < slots.slot_count() && !(#[trigger] slots.used(s)) && slots.base_of(s as int)
                        <= x < slots.base_of(s + 1);
                assert(!b.slot_map().used(s));
                assert(b.spare_block(x));
            }
        }
    }

    /// The log's part of durability depends on the log's blocks alone.
    proof fn lemma_log_kept(a: &Self, b: &Self)
        requires
            a.durable(),
            b.man() == a.man(),
            b.mem() == a.mem(),
            b.config() == a.config(),
            b.wal_next() == a.wal_next(),
            a.issued_seq() <= b.issued_seq(),
            same_blocks(
                a.content(),
                b.content(),
                a.config().wal_start as int,
                a.config().wal_end as int,
            ),
        ensures
            ({
                let m = b.man();
                let cfg = b.config();
                &&& forall|x: u64|
                    m.wal_head <= x < b.wal_next() ==> whole(#[trigger] b.content()[x])
                &&& b.replayed(b.wal_next() as int) matches Ok(p) && p.table == b.mem()
                &&& forall|x: u64|
                    b.wal_next() <= x < cfg.wal_end ==> stale(
                        #[trigger] b.content()[x],
                        m.flushed_seq,
                    )
                &&& forall|x: u64|
                    cfg.wal_start <= x < m.wal_head ==> stale(
                        #[trigger] b.content()[x],
                        m.flushed_seq,
                    )
                &&& forall|x: u64|
                    cfg.wal_start <= x < cfg.wal_end ==> stale(
                        #[trigger] b.content()[x],
                        b.issued_seq(),
                    )
            }),
    {
        let m = a.man();
        let cfg = a.config();
        let c0 = a.content();
        let c1 = b.content();
        assert forall|x: u64| cfg.wal_start <= x < cfg.wal_end implies #[trigger] c1[x]
            == c0[x] by {
            assert(c0[x] == c1[x]);
        }
        assert(same_blocks(c0, c1, m.wal_head as int, a.wal_next() as int));
        lemma_replay_same(
            c0,
            c1,
            m.wal_head as int,
            a.wal_next() as int,
            Seq::empty(),
            m.flushed_seq,
            CAP,
            ARENA,
            KEY_MAX,
            VAL_MAX,
        );
        assert forall|x: u64| cfg.wal_start <= x < cfg.wal_end implies stale(
            #[trigger] c1[x],
            b.issued_seq(),
        ) by {
            assert(stale(c0[x], a.issued_seq()));
        }
    }

    /// A database opened on what a power loss leaves of a durable one's
    /// device is the same database: same manifest, same memtable, and every
    /// read gives the same. Its state is durable and sound in turn.
    pub proof fn law_reopen(a: &Self, b: &Self, rep: OpenReport)
        requires
            a.wf(),
            a.sound(),
            a.durable(),
            b.wf(),
            b.is_opened(),
            b.content() == a.kept(),
            b.kept() == b.content(),
            b.config() == a.config(),
            b.images() =~= Map::<(u32, u64), Seq<u8>>::empty(),
            opened_as(*b, rep),
        ensures
            b.mem() == a.mem(),
            b.man() == a.man(),
            b.reads_as(a),
            b.sound(),
            b.durable(),
    {
        reveal(Db::tidy);
        let c = b.content();
        let m = a.man();
        a.lemma_wf();
        b.lemma_wf();
        a.lemma_kept_blocks();
        assert(b.recovery() == a.recovery()) by {
            Self::lemma_recovery_kept(a, b);
        }
        assert forall|x: u64|
            a.config().wal_start <= x < a.config().wal_end implies #[trigger] c[x]
            == a.content()[x] by {
            assert(a.content()[x] == c[x]);
        }
        lemma_replay_same(
            a.content(),
            c,
            m.wal_head as int,
            a.wal_next() as int,
            Seq::empty(),
            m.flushed_seq,
            CAP,
            ARENA,
            KEY_MAX,
            VAL_MAX,
        );
        lemma_replay_tail(
            c,
            m.wal_head as int,
            a.wal_next() as int,
            a.config().wal_end as int,
            Seq::empty(),
            m.flushed_seq,
            CAP,
            ARENA,
            KEY_MAX,
            VAL_MAX,
        );
        lemma_replay_max(
            c,
            m.wal_head as int,
            a.config().wal_end as int,
            Seq::empty(),
            m.flushed_seq,
            CAP,
            ARENA,
            KEY_MAX,
            VAL_MAX,
        );
        assert forall|x: u64| a.config().wal_start <= x < a.config().wal_end implies stale(
            #[trigger] c[x],
            b.issued_seq(),
        ) by {
            if x < m.wal_head {
                assert(stale(c[x], m.flushed_seq));
            } else if x >= b.wal_next() {
                assert(stale(c[x], m.flushed_seq));
            } else {
                assert(whole(c[x]));
            }
        }
        lemma_replay_prefix(
            c,
            m.wal_head as int,
            a.config().wal_end as int,
            Seq::empty(),
            m.flushed_seq,
            CAP,
            ARENA,
            KEY_MAX,
            VAL_MAX,
        );
        assert forall|k: int| 0 <= k < a.config().layout_v().n() implies (#[trigger] b.copy_probe(
            k,
        ) matches ProbeV::Intact { seq, .. } ==> seq <= m.seq) by {
            Self::lemma_recovery_kept(a, b);
            assert(b.copy_probe(k) == a.copy_probe(k));
        }
        assert(b.durable());
        assert forall|key: Seq<u8>, max_seq: u64, now: u64| #[trigger]
            b.value_at(key, max_seq, now) == a.value_at(key, max_seq, now) by {
            Self::lemma_same_tables_read(a, b, key, max_seq, now);
        }
        assert forall|l: int, i: int| at(m.levels, l, i) implies super::view::tab_sound(
            c,
            #[trigger] m.levels[l][i],
            Self::dims(),
        ) by {
            super::view::lemma_tab_kept(a.content(), c, m.levels[l][i], Self::dims());
        }
        assert(b.sound()) by {
            assert forall|l: int, i: int| at(m.levels, l, i) implies super::view::tab_sound(
                c,
                #[trigger] m.levels[l][i],
                Self::dims(),
            ) && super::cached_ok(b.images(), c, m.levels[l][i]) by {}
        }
    }

    /// Opening what a power loss leaves of a durable database's device fails
    /// on I/O only.
    pub proof fn law_open_recovers(a: &Self, h: &Self, e: Error<D::Error>)
        requires
            a.wf(),
            a.sound(),
            a.durable(),
            h.content() == a.kept(),
            h.config() == a.config(),
            open_refused(*h, e),
        ensures
            e is Device,
    {
        reveal(Db::tidy);
        let m = a.man();
        let n = LEVELS * TABLES;
        let cfg = a.config();
        a.lemma_wf();
        a.lemma_kept_blocks();
        Self::lemma_recovery_kept(a, h);
        assert forall|x: u64| cfg.wal_start <= x < cfg.wal_end implies #[trigger] h.content()[x]
            == a.content()[x] by {
            assert(a.content()[x] == h.content()[x]);
        }
        lemma_replay_same(
            a.content(),
            h.content(),
            m.wal_head as int,
            a.wal_next() as int,
            Seq::empty(),
            m.flushed_seq,
            CAP,
            ARENA,
            KEY_MAX,
            VAL_MAX,
        );
        lemma_replay_tail(
            h.content(),
            m.wal_head as int,
            a.wal_next() as int,
            cfg.wal_end as int,
            Seq::empty(),
            m.flushed_seq,
            CAP,
            ARENA,
            KEY_MAX,
            VAL_MAX,
        );
        assert(h.recovery() == a.recovery());
        assert(tables_placeable(cfg, n, m.levels)) by {
            assert forall|s: crate::slots::SlotMap|
                #![trigger s.slot_count()]
                s.slot_count() == n && (forall|i: int| #[trigger]
                    s.base_of(i) == cfg.tbl_start + i * ((cfg.tbl_end - cfg.tbl_start)
                        / n)) implies placeable(s, m.levels) by {
                lemma_placeable(a.slot_map(), s, m.levels, cfg.tbl_start as int, n);
            }
        }
    }

    /// A database opened on a blank device is empty, sound, durable and
    /// traced.
    pub proof fn law_open_blank(b: &Self, rep: OpenReport)
        requires
            b.wf(),
            b.is_opened(),
            opened_as(*b, rep),
            b.images() =~= Map::<(u32, u64), Seq<u8>>::empty(),
            b.kept() == b.content(),
            forall|k: int|
                0 <= k < b.config().layout_v().n() ==> #[trigger] b.copy_probe(k) is Blank,
            forall|x: u64|
                b.config().wal_start <= x < b.config().wal_end ==> block_records(
                    #[trigger] b.content()[x],
                ).0.len() == 0,
        ensures
            b.sound(),
            b.durable(),
            b.mem() == Seq::<Rec>::empty(),
            b.issued_seq() == 0,
            b.traced(),
            forall|key: Seq<u8>, max_seq: u64, now: u64| #[trigger]
                b.value_at(key, max_seq, now) is None,
    {
        reveal(Db::tidy);
        let l = b.config().layout_v();
        let cfg = b.config();
        b.lemma_wf();
        l.lemma_n();
        let stride = Self::stride();
        let chunk = BLOCK - BLOCK_FRAME;
        assert forall|j: int| 0 <= j < l.n() implies #[trigger] probe_of(
            b.content(),
            l.start_of(j, stride) as u64,
            stride,
            chunk,
        ) is Blank by {
            assert(b.copy_probe(j) is Blank);
        }
        lemma_best_blank(b.content(), l, stride, chunk, l.n() as nat);
        assert(probe_of(b.content(), l.start_of(0, stride) as u64, stride, chunk) is Blank);
        assert(b.recovery() == Recovery::Fresh);
        let m = b.man();
        assert(m == (ManV {
            wal_head: cfg.wal_start,
            ..crate::manifest_format::fresh_manifest(LEVELS as nat)
        }));
        assert(block_records(b.content()[cfg.wal_start]).0.len() == 0);
        reveal_with_fuel(replay_log, 2);
        lemma_flat_none(m.levels);
        Self::lemma_empty_traced(b);
        assert forall|key: Seq<u8>, max_seq: u64, now: u64| #[trigger]
            b.value_at(key, max_seq, now) is None by {
            if super::view::read_order(m.levels).len() > 0 {
                let (x, y) = lemma_read_order(m.levels, 0);
            }
        }
        assert(b.durable());
    }
}

proof fn lemma_flat_none(levels: Seq<Seq<crate::manifest_format::TabV>>)
    requires
        forall|l: int| 0 <= l < levels.len() ==> (#[trigger] levels[l]).len() == 0,
    ensures
        crate::manifest::flat(levels).len() == 0,
    decreases levels.len(),
{
    if levels.len() > 0 {
        let d = levels.drop_last();
        assert forall|l: int| 0 <= l < d.len() implies (#[trigger] d[l]).len() == 0 by {
            assert(levels[l].len() == 0);
        }
        lemma_flat_none(d);
        assert(levels[levels.len() - 1].len() == 0);
    }
}

/// Without an intact copy there is no best one.
pub(super) proof fn lemma_best_blank(
    c: Map<u64, Seq<u8>>,
    layout: crate::manifest::ManifestLayout,
    stride: int,
    chunk: int,
    n: nat,
)
    requires
        forall|j: int|
            0 <= j < n ==> #[trigger] probe_of(
                c,
                layout.start_of(j, stride) as u64,
                stride,
                chunk,
            ) is Blank,
    ensures
        crate::manifest::best_copy(c, layout, stride, chunk, n) is None,
    decreases n,
{
    if n > 0 {
        lemma_best_blank(c, layout, stride, chunk, (n - 1) as nat);
        assert(probe_of(c, layout.start_of(n - 1, stride) as u64, stride, chunk) is Blank);
    }
}

/// Slots tile the region from its first block.
proof fn lemma_base_at(s: crate::slots::SlotMap, i: int)
    requires
        s.wf(),
        0 <= i <= s.slot_count(),
    ensures
        s.base_of(i) == s.base_of(0) + i * s.blocks_per_slot(),
    decreases i,
{
    if i > 0 {
        lemma_base_at(s, i - 1);
        s.law_slots_tile(i - 1, i);
        assert((i - 1) * s.blocks_per_slot() + s.blocks_per_slot() == i * s.blocks_per_slot())
            by (nonlinear_arith);
    } else {
        assert(i * s.blocks_per_slot() == 0) by (nonlinear_arith)
            requires
                i == 0,
        ;
    }
}

/// Tables that sit in slots of their own can do so in any slots laid alike.
proof fn lemma_placeable(
    a: crate::slots::SlotMap,
    s: crate::slots::SlotMap,
    levels: Seq<Seq<crate::manifest_format::TabV>>,
    start: int,
    n: int,
)
    requires
        a.wf(),
        placed(a, levels),
        a.slot_count() == n,
        s.slot_count() == n,
        a.base_of(0) == start,
        forall|i: int| #[trigger] s.base_of(i) == start + i * a.blocks_per_slot(),
    ensures
        placeable(s, levels),
{
    assert forall|i: int| 0 <= i <= n implies #[trigger] s.base_of(i) == a.base_of(i) by {
        lemma_base_at(a, i);
    }
    assert forall|l: int, i: int| at(levels, l, i) implies housable(s, #[trigger] levels[l][i]) by {
        let t = levels[l][i];
        assert(super::place::housed(a, t));
        let u = choose|u: u32| #[trigger] sits(a, t, u) && a.used(u);
        assert(s.base_of(u as int) == a.base_of(u as int));
        assert(s.base_of(u + 1) == a.base_of(u + 1));
        assert(sits(s, t, u));
    }
    assert forall|l: int, i: int, m: int, j: int, u: u32|
        at(levels, l, i) && at(levels, m, j) && #[trigger] sits(s, levels[l][i], u)
            && #[trigger] sits(s, levels[m][j], u) implies l == m && i == j by {
        assert(s.base_of(u as int) == a.base_of(u as int));
        assert(s.base_of(u + 1) == a.base_of(u + 1));
        assert(sits(a, levels[l][i], u) && sits(a, levels[m][j], u));
    }
}

/// Room for op `i` of a batch that fits.
proof fn lemma_applied_room(mem: Seq<Rec>, ops: Seq<BatchOpV>, base: u64, i: int)
    requires
        key_sorted(mem),
        0 <= i <= ops.len(),
        forall|k: int| 0 <= k < ops.len() ==> queued_ok(#[trigger] ops[k]),
    ensures
        ({
            let v = applied(mem, batch_recs(ops, base).take(i));
            &&& key_sorted(v)
            &&& v.len() == mem.len() + i
            &&& arena_used(v) == arena_used(mem) + batch_arena(ops.take(i))
        }),
    decreases i,
{
    let rs = batch_recs(ops, base);
    if i == 0 {
        assert(rs.take(0) =~= Seq::<WalRec>::empty());
        assert(ops.take(0) =~= Seq::<BatchOpV>::empty());
    } else {
        lemma_applied_room(mem, ops, base, i - 1);
        let v = applied(mem, rs.take(i - 1));
        assert(rs.take(i).drop_last() =~= rs.take(i - 1));
        assert(rs.take(i).last() == rs[i - 1]);
        assert(ops.take(i).drop_last() =~= ops.take(i - 1));
        assert(ops.take(i).last() == ops[i - 1]);
        assert(queued_ok(ops[i - 1]));
        let e = entry_of(rs[i - 1]);
        crate::memtable::law_with_rec_keeps_order(v, e);
        lemma_lower(v, e.key);
        lemma_arena_insert(v, lower(v, e.key), e);
    }
}

} // verus!
