//! Ingest: re-attaching an archived table from a source device.

use vstd::prelude::*;

use super::archive::SealedTable;
use super::commit::next_copy;
use super::flush::touches_only;
use super::place::{at, lemma_place_insert, lemma_tables_kept_both, lemma_top_flat, sits};
use super::room::next_free;
use super::view::{is_run_of, lemma_tab_is, tab_sound, DimsV};
use super::{cached_ok, ids_ok, images_live, issued, live_id, Db};
use crate::bytes::bytes_eq;
use crate::device::{same_blocks, same_outside, BlockDevice};
use crate::error::Error;
use crate::manifest::{holds_copy, Manifest, TableRef};
use crate::manifest_format::{total_tables, ManV, TabV};
use crate::sstable::block::check_block_crc;
use crate::sstable::format::{crc_ok, foot_of, payload_of, sealed};
use crate::sstable::reader::TableReader;
use crate::sstable::relocate::{
    law_moved_foot, law_relocated_table, move_check, moved_footer, moved_index, relocate_table,
    relocated,
};
use crate::sstable::table::RunV;
use crate::wal::seq_max;

verus! {

/// The first of `n` source blocks that cannot be copied, and why.
pub open spec fn copy_check<E>(src: Map<u64, Seq<u8>>, src_base: u64, n: nat) -> Result<
    (),
    Error<E>,
>
    decreases n,
{
    if n == 0 {
        Ok(())
    } else {
        match copy_check::<E>(src, src_base, (n - 1) as nat) {
            Err(e) => Err(e),
            Ok(()) => {
                let id = src_base + n - 1;
                if id > u64::MAX {
                    Err(Error::CorruptManifest)
                } else if !crc_ok(src[id as u64]) {
                    Err(Error::CorruptBlock { id: id as u64 })
                } else {
                    Ok(())
                }
            },
        }
    }
}

/// A source block that cannot be copied stops every longer copy.
proof fn lemma_copy_check<E>(src: Map<u64, Seq<u8>>, src_base: u64, k: nat, n: nat)
    requires
        k <= n,
        copy_check::<E>(src, src_base, k) is Err,
    ensures
        copy_check::<E>(src, src_base, n) == copy_check::<E>(src, src_base, k),
    decreases n - k,
{
    if k < n {
        lemma_copy_check::<E>(src, src_base, k, (n - 1) as nat);
    }
}

/// The source blocks from `src_base` on, moved to `dst`.
pub open spec fn shifted(src: Map<u64, Seq<u8>>, src_base: u64, dst: u64) -> Map<u64, Seq<u8>> {
    Map::new(
        |id: u64| dst <= id && src_base + (id - dst) <= u64::MAX,
        |id: u64| src[(src_base + (id - dst)) as u64],
    )
}

/// The blocks of a table copied to `dst` and relocated there.
pub open spec fn grafted(
    src: Map<u64, Seq<u8>>,
    src_base: u64,
    c: Map<u64, Seq<u8>>,
    dst: u64,
    n: int,
    rdel_blocks: int,
) -> bool {
    let foot = src[(src_base + n - 1) as u64];
    let index = src[(src_base + n - 2) as u64];
    let old_base = (foot_of(foot)->0.bloom_block - (n - 3)) as u64;
    &&& forall|i: int|
        0 <= i < n - 2 ==> c[(dst + i) as u64] == #[trigger] src[(src_base + i) as u64]
    &&& c[(dst + n - 2) as u64] == sealed(
        moved_index(payload_of(index), old_base, (n - 3 - rdel_blocks) as u64, dst)->0,
    )
    &&& c[(dst + n - 1) as u64] == sealed(
        moved_footer(payload_of(foot), (dst + n - 2) as u64, (dst + n - 3) as u64),
    )
}

/// Why the table that `src` holds from `src_base` on cannot be attached at
/// `dst`.
pub open spec fn ingest_check<E, const KEY_MAX: usize>(
    src: Map<u64, Seq<u8>>,
    src_base: u64,
    dst: u64,
    t: SealedTable<KEY_MAX>,
) -> Result<(), Error<E>> {
    match copy_check::<E>(src, src_base, t.block_count as nat) {
        Err(e) => Err(e),
        Ok(()) => match move_check(
            shifted(src, src_base, dst),
            dst,
            t.block_count,
            t.rdel_blocks,
        ) {
            Err(id) => Err(Error::CorruptBlock { id }),
            Ok(_) => {
                let f = foot_of(src[(src_base + t.block_count - 1) as u64])->0;
                if f.k == 0 || f.entry_count != t.entry_count || f.rdel_blocks != t.rdel_blocks
                    || f.min_seq != t.min_seq {
                    Err(Error::CorruptBlock { id: (dst + t.block_count - 1) as u64 })
                } else {
                    Ok(())
                }
            },
        },
    }
}

/// The source holds table `t` from `src_base` on: the blocks that `run`
/// once was, on a device with content `home`.
pub open spec fn holds_table<const KEY_MAX: usize>(
    src: Map<u64, Seq<u8>>,
    src_base: u64,
    t: SealedTable<KEY_MAX>,
    d: DimsV,
    run: RunV,
    home: Map<u64, Seq<u8>>,
) -> bool {
    &&& is_run_of(run, home, t.placed_at(run.base), d)
    &&& forall|i: int|
        0 <= i < t.block_count ==> #[trigger] src[(src_base + i) as u64] == home[(run.base
            + i) as u64]
}

/// Blocks that copy whole have ids.
pub(super) proof fn lemma_copy_range<E>(src: Map<u64, Seq<u8>>, src_base: u64, n: nat)
    requires
        copy_check::<E>(src, src_base, n) is Ok,
    ensures
        n > 0 ==> src_base + n - 1 <= u64::MAX,
{
}

/// A table of a new id joins level 0: ids stay issued and distinct.
pub(super) proof fn lemma_ids_joined(
    l0: Seq<Seq<TabV>>,
    l1: Seq<Seq<TabV>>,
    u: TabV,
    id: u32,
    next_id: u32,
)
    requires
        l0.len() >= 1,
        l1 == l0.update(0, l0[0].push(u)),
        ids_ok(l0, id),
        !live_id(l0, u.id),
        issued(u.id, next_id),
        forall|x: u32| #[trigger] issued(x, id) ==> issued(x, next_id),
    ensures
        ids_ok(l1, next_id),
{
    let n = l0[0].len() as int;
    assert forall|l: int, i: int| at(l1, l, i) && !(l == 0 && i == n) implies at(l0, l, i)
        && #[trigger] l1[l][i] == l0[l][i] by {}
    assert forall|l: int, i: int| at(l1, l, i) implies issued(
        (#[trigger] l1[l][i]).id,
        next_id,
    ) by {
        if !(l == 0 && i == n) {
            assert(issued(l0[l][i].id, id));
        }
    }
    assert forall|l: int, i: int, m: int, j: int|
        at(l1, l, i) && at(l1, m, j) && (#[trigger] l1[l][i]).id == (
        #[trigger] l1[m][j]).id implies l == m && i == j by {
        if l == 0 && i == n {
            if !(m == 0 && j == n) {
                assert(l0[m][j].id == u.id);
            }
        } else if m == 0 && j == n {
            assert(l0[l][i].id == u.id);
        }
    }
}

/// What is cached of live tables is so once one joined.
proof fn lemma_images_joined(
    images: Map<(u32, u64), Seq<u8>>,
    l0: Seq<Seq<TabV>>,
    l1: Seq<Seq<TabV>>,
    u: TabV,
)
    requires
        l0.len() >= 1,
        l1 == l0.update(0, l0[0].push(u)),
        images_live(images, l0),
    ensures
        images_live(images, l1),
{
    assert forall|x: (u32, u64)| #[trigger] images.dom().contains(x) implies live_id(
        l1,
        x.0,
    ) by {
        assert(live_id(l0, x.0));
        let (m, y) = choose|m: int, y: int| at(l0, m, y) && (#[trigger] l0[m][y]).id == x.0;
        assert(at(l1, m, y) && l1[m][y] == l0[m][y]);
    }
}

impl<
    D: BlockDevice,
    const BLOCK: usize,
    const KEY_MAX: usize,
    const VAL_MAX: usize,
    const CAP: usize,
    const ARENA: usize,
    const LEVELS: usize,
    const TABLES: usize,
    const BLOOM_BYTES: usize,
    const CACHE: usize,
> Db<D, BLOCK, KEY_MAX, VAL_MAX, CAP, ARENA, LEVELS, TABLES, BLOOM_BYTES, CACHE> {
    /// Copies `count` blocks from `remote` at `src_base` to the local
    /// device at `dst_base`, verifying each block's CRC as it lands.
    fn copy_verified_blocks<R>(
        device: &mut D,
        remote: &R,
        src_base: u64,
        dst_base: u64,
        count: u32,
        buf: &mut [u8; BLOCK],
    ) -> (r: Result<(), Error<D::Error>>) where R: BlockDevice, R::Error: Into<D::Error>
        requires
            D::BLOCK == BLOCK,
            R::BLOCK == BLOCK,
            BLOCK >= 512,
            dst_base + count <= u64::MAX,
        ensures
            same_outside(
                old(device).content(),
                final(device).content(),
                dst_base as int,
                dst_base + count,
            ),
            match r {
                Ok(()) => {
                    &&& copy_check::<D::Error>(remote.content(), src_base, count as nat) is Ok
                    &&& count > 0 ==> src_base + count - 1 <= u64::MAX
                    &&& forall|i: int|
                        0 <= i < count ==> {
                            &&& final(device).content()[(dst_base + i) as u64]
                                == #[trigger] remote.content()[(src_base + i) as u64]
                            &&& remote.content()[(src_base + i) as u64].len() == BLOCK
                        }
                },
                Err(e) => e is Device || copy_check::<D::Error>(
                    remote.content(),
                    src_base,
                    count as nat,
                ) == Err::<(), Error<D::Error>>(e),
            },
    {
        let ghost c0 = device.content();
        let ghost src = remote.content();
        let mut k: u32 = 0;
        while k < count
            invariant
                k <= count,
                D::BLOCK == BLOCK,
                R::BLOCK == BLOCK,
                BLOCK >= 512,
                dst_base + count <= u64::MAX,
                c0 == old(device).content(),
                src == remote.content(),
                copy_check::<D::Error>(src, src_base, k as nat) is Ok,
                k > 0 ==> src_base + k - 1 <= u64::MAX,
                same_outside(c0, device.content(), dst_base as int, dst_base + count),
                forall|i: int|
                    0 <= i < k ==> {
                        &&& device.content()[(dst_base + i) as u64] == #[trigger] src[(src_base
                            + i) as u64]
                        &&& src[(src_base + i) as u64].len() == BLOCK
                    },
            decreases count - k,
        {
            let id: u64 = match src_base.checked_add(k as u64) {
                Some(x) => x,
                None => {
                    proof {
                        assert(copy_check::<D::Error>(src, src_base, (k + 1) as nat) is Err);
                        lemma_copy_check::<D::Error>(
                            src,
                            src_base,
                            (k + 1) as nat,
                            count as nat,
                        );
                    }
                    return Err(Error::CorruptManifest);
                },
            };
            match remote.read_block(id, buf) {
                Ok(()) => {},
                Err(e) => {
                    return Err(Error::Device(e.into()));
                },
            }
            match check_block_crc::<D::Error, BLOCK>(buf, id) {
                Ok(()) => {},
                Err(e) => {
                    proof {
                        assert(copy_check::<D::Error>(src, src_base, (k + 1) as nat) is Err);
                        lemma_copy_check::<D::Error>(
                            src,
                            src_base,
                            (k + 1) as nat,
                            count as nat,
                        );
                    }
                    return Err(e);
                },
            }
            let dst: u64 = dst_base + k as u64;
            let ghost c1 = device.content();
            match device.write_block(dst, buf) {
                Ok(()) => {},
                Err(e) => {
                    return Err(Error::Device(e));
                },
            }
            proof {
                assert forall|i: int| 0 <= i < k + 1 implies device.content()[(dst_base + i) as u64]
                    == #[trigger] src[(src_base + i) as u64] && src[(src_base + i) as u64].len()
                    == BLOCK by {
                    if i < k {
                        assert(c1[(dst_base + i) as u64] == src[(src_base + i) as u64]);
                    }
                }
            }
            k = k + 1;
        }
        Ok(())
    }

    /// Copies the table to `base`, relocates it there, and validates the
    /// copy against its descriptor.
    #[verifier::rlimit(40)]
    fn graft<R>(
        &mut self,
        t: &SealedTable<KEY_MAX>,
        remote: &R,
        src_base: u64,
        base: u64,
    ) -> (r: Result<(), Error<D::Error>>) where R: BlockDevice, R::Error: Into<D::Error>
        requires
            old(self).wf(),
            R::BLOCK == BLOCK,
            base + t.block_count <= u64::MAX,
        ensures
            *final(self) == (Db {
                wal: final(self).wal,
                get_scratch: final(self).get_scratch,
                ..*old(self)
            }),
            final(self).wal.wf(),
            final(self).wal.same_region(&old(self).wal),
            final(self).wal.next() == old(self).wal.next(),
            final(self).wal.staged() == old(self).wal.staged(),
            same_outside(
                old(self).content(),
                final(self).content(),
                base as int,
                base + t.block_count,
            ),
            match r {
                Ok(()) => {
                    &&& ingest_check::<D::Error, KEY_MAX>(
                        remote.content(),
                        src_base,
                        base,
                        *t,
                    ) is Ok
                    &&& t.block_count >= t.rdel_blocks + 3
                    &&& grafted(
                        remote.content(),
                        src_base,
                        final(self).content(),
                        base,
                        t.block_count as int,
                        t.rdel_blocks as int,
                    )
                    &&& exists|c0: Map<u64, Seq<u8>>|
                        #![trigger relocated::<D::Error>(
                            c0,
                            final(self).content(),
                            base,
                            t.block_count,
                            t.rdel_blocks,
                            Ok(()),
                        )]
                        (forall|i: int|
                            0 <= i < t.block_count ==> c0[(base + i) as u64]
                                == #[trigger] remote.content()[(src_base + i) as u64])
                            && relocated::<D::Error>(
                            c0,
                            final(self).content(),
                            base,
                            t.block_count,
                            t.rdel_blocks,
                            Ok(()),
                        )
                },
                Err(e) => e is Device || ingest_check::<D::Error, KEY_MAX>(
                    remote.content(),
                    src_base,
                    base,
                    *t,
                ) == Err::<(), Error<D::Error>>(e),
            },
    {
        let ghost src = remote.content();
        let ghost n = t.block_count as int;
        proof {
            self.lemma_wf();
            Self::lemma_shape();
        }
        // Stream the blocks from the source device, verifying each block's
        // CRC as it lands so remote corruption fails fast, before the
        // manifest commit.
        match Self::copy_verified_blocks(
            self.wal.device_mut(),
            remote,
            src_base,
            base,
            t.block_count,
            &mut self.get_scratch,
        ) {
            Ok(()) => {},
            Err(e) => {
                return Err(e);
            },
        }
        let ghost c0 = self.content();
        let ghost sh = shifted(src, src_base, base);
        proof {
            if n >= t.rdel_blocks + 3 {
                let f = (base + n - 1) as u64;
                let x = (base + n - 2) as u64;
                assert(c0[(base + (n - 1)) as u64] == src[(src_base + (n - 1)) as u64]);
                assert(c0[(base + (n - 2)) as u64] == src[(src_base + (n - 2)) as u64]);
                assert(sh.dom().contains(f) && sh[f] == c0[f]);
                assert(sh.dom().contains(x) && sh[x] == c0[x]);
            }
            assert(move_check(c0, base, t.block_count, t.rdel_blocks) == move_check(
                sh,
                base,
                t.block_count,
                t.rdel_blocks,
            ));
        }
        // Relocate the copy: index entries and the footer carry the
        // absolute block ids of the table's original placement, which are
        // rewritten to the destination layout and re-sealed.
        match relocate_table(
            self.wal.device_mut(),
            base,
            t.block_count,
            t.rdel_blocks,
            &mut self.get_scratch,
        ) {
            Ok(()) => {},
            Err(e) => {
                return Err(e);
            },
        }
        let ghost c1 = self.content();
        proof {
            assert(relocated::<D::Error>(c0, c1, base, t.block_count, t.rdel_blocks, Ok(())));
            assert forall|i: int| 0 <= i < n - 2 implies c1[(base + i) as u64]
                == #[trigger] src[(src_base + i) as u64] by {
                assert(c0[(base + i) as u64] == src[(src_base + i) as u64]);
            }
            let foot = src[(src_base + (n - 1)) as u64];
            law_moved_foot(foot, (base + n - 2) as u64, (base + n - 3) as u64);
            assert(grafted(src, src_base, c1, base, n, t.rdel_blocks as int));
        }
        // Validate the relocated copy: footer magic/CRC plus the
        // descriptor's entry count.
        let footer: u64 = base + t.block_count as u64 - 1;
        let rdel_first: u64 = base + (t.block_count - t.rdel_blocks - 3) as u64;
        let reader: TableReader<'_, D, BLOCK, BLOOM_BYTES> = match TableReader::open(
            self.wal.device(),
            &mut self.get_scratch,
            footer,
            rdel_first,
        ) {
            Ok(x) => x,
            Err(e) => {
                return Err(e);
            },
        };
        if reader.entry_count() != t.entry_count as u64 || reader.rdel_blocks() != t.rdel_blocks
            || reader.min_seq() != t.min_seq {
            return Err(Error::CorruptBlock { id: footer });
        }
        proof {
            assert(self.content() == c1);
            assert(ingest_check::<D::Error, KEY_MAX>(src, src_base, base, *t) is Ok);
            assert(relocated::<D::Error>(
                c0,
                self.content(),
                base,
                t.block_count,
                t.rdel_blocks,
                Ok(()),
            ));
        }
        Ok(())
    }

    /// The manifest after table `t` was attached at `base`.
    pub open spec fn ingest_man(&self, t: SealedTable<KEY_MAX>, base: u64) -> ManV {
        let m = self.man();
        let past = if t.id == u32::MAX {
            t.id
        } else {
            (t.id + 1) as u32
        };
        next_copy(
            ManV {
                next_table_id: if past > m.next_table_id {
                    past
                } else {
                    m.next_table_id
                },
                seq_high: seq_max(seq_max(self.issued_seq(), t.max_seq), m.seq_high),
                levels: m.levels.update(0, m.levels[0].push(t.placed_at(base))),
                ..m
            },
        )
    }

    /// What attaching table `t` in slot `s` does.
    pub open spec fn ingested_into(
        a: &Self,
        b: &Self,
        t: SealedTable<KEY_MAX>,
        src: Map<u64, Seq<u8>>,
        src_base: u64,
        s: u32,
        r: Result<bool, Error<D::Error>>,
    ) -> bool {
        let base = a.slot_map().base_of(s as int) as u64;
        let check = ingest_check::<D::Error, KEY_MAX>(src, src_base, base, t);
        match r {
            Ok(added) => {
                &&& added
                &&& check is Ok
                &&& a.man().seq < u64::MAX
                &&& b.man() == a.ingest_man(t, base)
                &&& b.mem() == a.mem()
                &&& b.issued_seq() == seq_max(a.issued_seq(), t.max_seq)
                &&& b.snaps() == a.snaps()
                &&& b.is_opened()
                &&& b.config() == a.config()
                &&& b.wal_next() == a.wal_next()
                &&& b.images() == a.images()
                &&& b.job() == (false, a.job().1)
                &&& b.slot_map().same_layout(&a.slot_map())
                &&& forall|i: u32| #[trigger]
                    b.slot_map().used(i) == (a.slot_map().used(i) || i == s)
                &&& forall|i: u32| !#[trigger] b.slot_map().reserved(i)
                &&& b.slot_map().next_hint() == (s + 1) % (a.slot_map().slot_count() as int)
                &&& touches_only(
                    a.content(),
                    b.content(),
                    a.slot_map().base_of(s as int),
                    a.slot_map().base_of(s + 1),
                    a.copy_at(),
                    a.copy_at() + Self::stride(),
                )
                &&& grafted(
                    src,
                    src_base,
                    b.content(),
                    base,
                    t.block_count as int,
                    t.rdel_blocks as int,
                )
                &&& holds_copy(b.content(), b.man(), a.copy_at(), BLOCK as nat)
                &&& b.kept() == b.content()
            },
            Err(e) => {
                &&& e is Device || check == Err::<(), Error<D::Error>>(e) || (check is Ok && e
                    == Error::<D::Error>::NoSpace && (total_tables(a.man().levels) >= LEVELS
                    * TABLES || a.man().seq == u64::MAX))
                &&& b.worked_on(a, s)
                &&& b.slot_map().next_hint() == a.slot_map().next_hint()
                &&& b.job() == a.job() || b.job() == (false, a.job().1)
                &&& check is Err ==> b.job() == a.job()
            },
        }
    }

    /// What an ingest of table `t` does.
    pub open spec fn ingested(
        a: &Self,
        b: &Self,
        t: SealedTable<KEY_MAX>,
        src: Map<u64, Seq<u8>>,
        src_base: u64,
        src_block: usize,
        r: Result<bool, Error<D::Error>>,
    ) -> bool {
        if !a.is_opened() {
            r == Err::<bool, Error<D::Error>>(Error::NotOpen) && *b == *a
        } else if src_block != BLOCK {
            r == Err::<bool, Error<D::Error>>(Error::BadBufferLen) && *b == *a
        } else if live_id(a.man().levels, t.id) {
            &&& *b == *a
            &&& exists|l: int, i: int|
                {
                    let u = #[trigger] a.man().levels[l][i];
                    &&& at(a.man().levels, l, i)
                    &&& u.id == t.id
                    &&& r == (if u == t.placed_at(u.first_block) {
                        Ok::<bool, Error<D::Error>>(false)
                    } else {
                        Err(Error::IngestConflict { id: t.id })
                    })
                }
        } else if a.man().levels[0].len() >= TABLES {
            r == Err::<bool, Error<D::Error>>(a.no_room_error()) && *b == *a
        } else if t.block_count > a.slot_map().blocks_per_slot() {
            r == Err::<bool, Error<D::Error>>(Error::TableTooLarge) && *b == *a
        } else if !a.has_room() {
            r == Err::<bool, Error<D::Error>>(a.no_room_error()) && *b == *a
        } else {
            exists|s: u32| #[trigger]
                next_free(a.slot_map(), s) && Self::ingested_into(a, b, t, src, src_base, s, r)
        }
    }

    /// Re-attaches an archived table from a source device.
    ///
    /// `t` is the placement-free descriptor from
    /// [`ArchivePlan::sealed`](super::archive::ArchivePlan::sealed);
    /// `remote` holds the table's blocks laid out contiguously starting at
    /// `src_base`. The table is copied into a free local table slot, its
    /// block CRCs are verified as they land, its index/footer block
    /// pointers are relocated to the destination layout, and the copy is
    /// validated (footer magic/CRC plus the descriptor's entry count)
    /// before it is grafted into L0 through one atomic manifest commit, the
    /// same visibility point flush uses. Data/index/bloom block CRCs are
    /// re-verified on the read paths, exactly as for flushed tables.
    ///
    /// Returns `Ok(true)` when the table was attached, `Ok(false)` when a
    /// table with the same id and an identical descriptor is already
    /// attached (idempotent retry). The re-attached table joins L0, not its
    /// former level: L0 tolerates overlap and highest-sequence-wins stays
    /// exact.
    ///
    /// Crash safety: the slot is claimed only once the manifest commit
    /// lands, so a crash before the commit leaves only unreferenced blocks
    /// in a free slot; a crash after it leaves the table fully attached.
    /// Retrying after any crash converges to exactly one copy. A successful
    /// ingest aborts any in-flight compaction job (the job's tombstone-drop
    /// floor predates the ingested table).
    ///
    /// # Errors
    ///
    /// [`Error::NotOpen`] before [`open`](Db::open).
    /// [`Error::BadBufferLen`] when the source device has another block
    /// size. [`Error::IngestConflict`] when the id is already attached with
    /// a *different* descriptor, [`Error::NeedsCompaction`] when L0 is full
    /// (or no slot is free until compaction frees one),
    /// [`Error::RegionFull`] when no slot is free at all,
    /// [`Error::TableTooLarge`] when the table is larger than a slot,
    /// [`Error::CorruptBlock`] when the source bytes fail validation (the
    /// manifest is untouched), or [`Error::Device`] on I/O failure from
    /// either device.
    #[verifier::rlimit(40)]
    pub fn ingest_table<R>(&mut self, t: &SealedTable<KEY_MAX>, remote: &R, src_base: u64) -> (r:
        Result<bool, Error<D::Error>>) where R: BlockDevice, R::Error: Into<D::Error>
        requires
            old(self).wf(),
            t.wf(),
        ensures
            final(self).wf(),
            Self::ingested(
                old(self),
                final(self),
                *t,
                remote.content(),
                src_base,
                R::BLOCK,
                r,
            ),
            old(self).sound() && (exists|run: RunV, home: Map<u64, Seq<u8>>| #[trigger]
                holds_table(remote.content(), src_base, *t, Self::dims(), run, home))
                ==> final(self).sound(),
            old(self).sound() && r is Err ==> final(self).sound() && final(self).reads_as(
                old(self),
            ),
    {
        match self.ensure_open() {
            Ok(()) => {},
            Err(e) => {
                return Err(e);
            },
        }
        // The source device must speak the same block size: the copy
        // buffer is `BLOCK` bytes.
        if R::BLOCK != BLOCK {
            return Err(Error::BadBufferLen);
        }
        let ghost a = *self;
        let ghost levels = self.man().levels;
        let ghost src = remote.content();
        proof {
            self.lemma_wf();
        }
        // Idempotency: the same descriptor attaches exactly once; a
        // conflicting descriptor under a live id is refused.
        match self.manifest.find_table(t.id) {
            Some(u) => {
                let same: bool = u.block_count == t.block_count && bytes_eq(
                    u.first_key.as_slice(),
                    t.first_key.as_slice(),
                ) && bytes_eq(u.last_key.as_slice(), t.last_key.as_slice()) && u.max_seq
                    == t.max_seq && u.min_seq == t.min_seq && u.entry_count == t.entry_count
                    && u.rdel_blocks == t.rdel_blocks;
                proof {
                    let (l, i) = choose|l: int, i: int|
                        0 <= l < levels.len() && 0 <= i < levels[l].len()
                            && #[trigger] levels[l][i] == u@;
                    assert(at(levels, l, i) && levels[l][i].id == t.id);
                    assert(live_id(levels, t.id));
                    assert(same == (u@ == t.placed_at(u@.first_block)));
                }
                return if same {
                    Ok(false)
                } else {
                    Err(Error::IngestConflict { id: t.id })
                };
            },
            None => {},
        }
        assert(!live_id(levels, t.id));
        // L0 must have room: like flush, a full L0 is the caller's signal
        // to compact first.
        if self.manifest.l0_is_full() {
            return Err(self.no_room());
        }
        // Pick a free slot (mirrors flush). It is claimed only after the
        // manifest commit below lands, so a crash mid-copy leaves nothing
        // but unreferenced blocks in a free slot.
        let slot: u32 = match self.free_slot_for(t.block_count as u64) {
            Ok(s) => s,
            Err(e) => {
                return Err(e);
            },
        };
        proof {
            self.lemma_copy_at();
            self.slots.law_slots_tile(slot as int, slot + 1);
            self.slots.law_slots_tile(slot as int, self.slots.slot_count() as int);
            if slot > 0 {
                self.slots.law_slots_tile(0, slot as int);
            }
        }
        let base: u64 = self.slots.slot_base(slot);
        let grafted_ok = self.graft(t, remote, src_base, base);
        let ghost mid = *self;
        proof {
            Self::lemma_open_kept(&a, self);
            assert(self.worked_on(&a, slot));
            if a.sound() {
                Self::lemma_aside_reads(&a, self, slot);
            }
        }
        match grafted_ok {
            Ok(()) => {},
            Err(e) => {
                assert(Self::ingested_into(&a, self, *t, src, src_base, slot, Err(e)));
                return Err(e);
            },
        }
        self.attach(t, base, slot, Ghost(a), Ghost(src), Ghost(src_base))
    }

    /// Publishes the copied table: the manifest commit, then the claim of
    /// its slot.
    #[verifier::rlimit(40)]
    fn attach(
        &mut self,
        t: &SealedTable<KEY_MAX>,
        base: u64,
        slot: u32,
        Ghost(a): Ghost<Self>,
        Ghost(src): Ghost<Map<u64, Seq<u8>>>,
        Ghost(src_base): Ghost<u64>,
    ) -> (r: Result<bool, Error<D::Error>>)
        requires
            a.wf(),
            a.is_opened(),
            old(self).wf(),
            old(self).worked_on(&a, slot),
            old(self).slot_map() == a.slot_map(),
            old(self).job() == a.job(),
            same_outside(
                a.content(),
                old(self).content(),
                a.slot_map().base_of(slot as int),
                a.slot_map().base_of(slot + 1),
            ),
            a.sound() ==> old(self).sound() && old(self).reads_as(&a),
            t.wf(),
            !live_id(a.man().levels, t.id),
            a.man().levels[0].len() < TABLES,
            next_free(a.slot_map(), slot),
            base == a.slot_map().base_of(slot as int),
            base + t.block_count <= a.slot_map().base_of(slot + 1),
            t.block_count >= t.rdel_blocks + 3,
            ingest_check::<D::Error, KEY_MAX>(src, src_base, base, *t) is Ok,
            grafted(
                src,
                src_base,
                old(self).content(),
                base,
                t.block_count as int,
                t.rdel_blocks as int,
            ),
            exists|c0: Map<u64, Seq<u8>>|
                #![trigger relocated::<D::Error>(
                    c0,
                    old(self).content(),
                    base,
                    t.block_count,
                    t.rdel_blocks,
                    Ok(()),
                )]
                (forall|i: int|
                    0 <= i < t.block_count ==> c0[(base + i) as u64] == #[trigger] src[(src_base
                        + i) as u64]) && relocated::<D::Error>(
                    c0,
                    old(self).content(),
                    base,
                    t.block_count,
                    t.rdel_blocks,
                    Ok(()),
                ),
        ensures
            final(self).wf(),
            Self::ingested_into(&a, final(self), *t, src, src_base, slot, r),
            a.sound() && (exists|run: RunV, home: Map<u64, Seq<u8>>| #[trigger]
                holds_table(src, src_base, *t, Self::dims(), run, home)) ==> final(self).sound(),
            a.sound() && r is Err ==> final(self).sound() && final(self).reads_as(&a),
    {
        let ghost levels = a.man().levels;
        proof {
            self.lemma_wf();
            a.lemma_wf();
            a.lemma_copy_at();
            assert(self.copy_at() == a.copy_at());
            a.slot_map().law_slots_tile(slot as int, slot + 1);
            a.slot_map().law_slots_tile(slot as int, a.slot_map().slot_count() as int);
            if slot > 0 {
                a.slot_map().law_slots_tile(0, slot as int);
            }
        }
        let ghost mid = *self;
        // The ingested table may hold versions older than tombstones an
        // in-flight compaction job is about to drop (the job's drop floor
        // predates it), so the job restarts from scratch.
        self.abort_job();
        let ghost idle = *self;
        // Graft into L0 through the atomic manifest commit. Future local
        // tables must never collide with the ingested id, so the id floor
        // advances past it (monotone; never lowers the counter).
        let mut staged: Manifest<LEVELS, TABLES, KEY_MAX> = self.manifest.duplicate();
        staged.advance_next_table_id(
            if t.id == 0xFFFF_FFFF {
                t.id
            } else {
                t.id + 1
            },
        );
        // The table may carry sequences from another history: the counter
        // must resume above them, or a later local write could lose to an
        // older ingested version under highest-sequence-wins.
        let top: u64 = if t.max_seq > self.next_seq {
            t.max_seq
        } else {
            self.next_seq
        };
        staged.raise_seq_high(top);
        let tref = TableRef {
            id: t.id,
            first_block: base,
            block_count: t.block_count,
            first_key: t.first_key,
            last_key: t.last_key,
            max_seq: t.max_seq,
            min_seq: t.min_seq,
            entry_count: t.entry_count,
            rdel_blocks: t.rdel_blocks,
        };
        assert(tref@ == t.placed_at(base));
        match staged.add_l0_table::<D::Error>(tref) {
            Ok(()) => {},
            Err(e) => {
                proof {
                    assert(self.worked_on(&a, slot));
                }
                return Err(e);
            },
        }
        assert(next_copy(staged@) == a.ingest_man(*t, base));
        match self.commit_manifest(staged) {
            Ok(()) => {},
            Err(e) => {
                proof {
                    Self::lemma_open_kept(&idle, self);
                    assert(self.worked_on(&a, slot));
                    if a.sound() {
                        Self::lemma_copy_reads(&idle, self);
                    }
                }
                return Err(e);
            },
        }
        // Commit point passed: the edit is applied; claim the slot,
        // strictly after the visibility point.
        self.next_seq = top;
        self.slots.claim(slot);
        proof {
            assert(self.snaps() == a.snaps());
            assert(self.slots.same_layout(&a.slots));
            assert forall|i: u32| #[trigger]
                self.slots.used(i) == (a.slots.used(i) || i == slot) by {
                assert(idle.slots.used(i) == a.slots.used(i));
            }
            assert forall|i: u32| !#[trigger] self.slots.reserved(i) by {
                assert(!idle.slots.reserved(i));
            }
            assert(self.open_wf()) by {
                assert(self.slots_laid()) by {
                    assert(self.slots.base_of(0) == a.slots.base_of(0));
                    assert(self.slots.base_of(LEVELS * TABLES) == a.slots.base_of(
                        LEVELS * TABLES,
                    ));
                }
                assert forall|i: int| 0 <= i < self.snaps().len() implies #[trigger] self.snaps()[i]
                    <= self.issued_seq() by {
                    assert(a.snaps()[i] <= a.issued_seq());
                }
            }
            assert(grafted(
                src,
                src_base,
                self.content(),
                base,
                t.block_count as int,
                t.rdel_blocks as int,
            )) by {
                assert forall|i: int| 0 <= i < t.block_count - 2 implies self.content()[(base
                    + i) as u64] == #[trigger] src[(src_base + i) as u64] by {
                    assert(mid.content()[(base + i) as u64] == src[(src_base + i) as u64]);
                }
                assert(mid.content()[(base + t.block_count - 2) as u64] == self.content()[(base
                    + t.block_count - 2) as u64]);
                assert(mid.content()[(base + t.block_count - 1) as u64] == self.content()[(base
                    + t.block_count - 1) as u64]);
            }
            assert(Self::ingested_into(&a, self, *t, src, src_base, slot, Ok(true)));
            if a.sound() && (exists|run: RunV, home: Map<u64, Seq<u8>>| #[trigger]
                holds_table(src, src_base, *t, Self::dims(), run, home)) {
                let (run, home) = choose|run: RunV, home: Map<u64, Seq<u8>>| #[trigger]
                    holds_table(src, src_base, *t, Self::dims(), run, home);
                let c0 = choose|c0: Map<u64, Seq<u8>>|
                    #![trigger relocated::<D::Error>(
                        c0,
                        mid.content(),
                        base,
                        t.block_count,
                        t.rdel_blocks,
                        Ok(()),
                    )]
                    (forall|i: int|
                        0 <= i < t.block_count ==> c0[(base + i) as u64] == #[trigger] src[(
                        src_base + i) as u64]) && relocated::<D::Error>(
                        c0,
                        mid.content(),
                        base,
                        t.block_count,
                        t.rdel_blocks,
                        Ok(()),
                    );
                Self::lemma_grafted_run(*t, src, src_base, c0, mid.content(), base, run, home);
                Self::lemma_ingest_sound(&a, &mid, self, *t, src, src_base, slot, run);
            }
        }
        Ok(true)
    }

    /// The relocated copy of a table is that table.
    pub(super) proof fn lemma_grafted_run(
        t: SealedTable<KEY_MAX>,
        src: Map<u64, Seq<u8>>,
        src_base: u64,
        c0: Map<u64, Seq<u8>>,
        c1: Map<u64, Seq<u8>>,
        base: u64,
        run: RunV,
        home: Map<u64, Seq<u8>>,
    )
        requires
            holds_table(src, src_base, t, Self::dims(), run, home),
            base + t.block_count <= u64::MAX,
            forall|i: int|
                0 <= i < t.block_count ==> c0[(base + i) as u64] == #[trigger] src[(src_base
                    + i) as u64],
            relocated::<D::Error>(c0, c1, base, t.block_count, t.rdel_blocks, Ok(())),
        ensures
            is_run_of(RunV { base, ..run }, c1, t.placed_at(base), Self::dims()),
    {
        let d = Self::dims();
        let moved = RunV { base, ..run };
        assert forall|i: int| 0 <= i < t.block_count implies c0[(base + i) as u64]
            == #[trigger] home[(run.base + i) as u64] by {
            assert(c0[(base + i) as u64] == src[(src_base + i) as u64]);
        }
        law_relocated_table::<D::Error>(
            run,
            c0,
            c1,
            home,
            base,
            t.block_count,
            Ok(()),
            d.block,
            d.bloom,
        );
        crate::sstable::relocate::lemma_moved_index_len(run.groups, run.base, base, d.block);
        assert(moved.recs() == run.recs());
        assert(moved.rdels() == run.rdels());
        assert(moved.wf(d.block, d.bloom));
        assert forall|g: int| 0 <= g < moved.recs().len() implies super::view::rec_inside(
            t.placed_at(base),
            #[trigger] moved.recs()[g],
        ) by {
            assert(super::view::rec_inside(t.placed_at(run.base), run.recs()[g]));
        }
        assert forall|g: int| 0 <= g < moved.rdels().len() implies super::view::rdel_inside(
            t.placed_at(base),
            #[trigger] moved.rdels()[g],
        ) by {
            assert(super::view::rdel_inside(t.placed_at(run.base), run.rdels()[g]));
        }
    }

    /// An attached table leaves every live table intact.
    #[verifier::spinoff_prover]
    #[verifier::rlimit(60)]
    proof fn lemma_ingest_sound(
        a: &Self,
        mid: &Self,
        b: &Self,
        t: SealedTable<KEY_MAX>,
        src: Map<u64, Seq<u8>>,
        src_base: u64,
        s: u32,
        run: RunV,
    )
        requires
            a.wf(),
            a.sound(),
            next_free(a.slot_map(), s),
            !live_id(a.man().levels, t.id),
            Self::ingested_into(a, b, t, src, src_base, s, Ok(true)),
            t.block_count >= 3,
            a.slot_map().base_of(s as int) + t.block_count <= a.slot_map().base_of(s + 1),
            same_outside(mid.content(), b.content(), a.copy_at(), a.copy_at() + Self::stride()),
            is_run_of(
                RunV { base: a.slot_map().base_of(s as int) as u64, ..run },
                mid.content(),
                t.placed_at(a.slot_map().base_of(s as int) as u64),
                Self::dims(),
            ),
        ensures
            b.sound(),
    {
        reveal(Db::tidy);
        let base = a.slot_map().base_of(s as int) as u64;
        let u = t.placed_at(base);
        let d = Self::dims();
        let l0 = a.man().levels;
        let l1 = b.man().levels;
        let n = l0[0].len() as int;
        let id = a.man().next_table_id;
        a.lemma_wf();
        a.lemma_copy_at();
        a.slot_map().law_slots_tile(s as int, s + 1);
        a.slot_map().law_slots_tile(s as int, a.slot_map().slot_count() as int);
        if s > 0 {
            a.slot_map().law_slots_tile(0, s as int);
        }
        assert(same_blocks(
            mid.content(),
            b.content(),
            u.first_block as int,
            u.first_block + u.block_count,
        ));
        super::view::lemma_run_kept(
            RunV { base, ..run },
            mid.content(),
            b.content(),
            u,
            d,
        );
        lemma_tab_is(RunV { base, ..run }, b.content(), u, d);
        lemma_tables_kept_both(
            a.slot_map(),
            a.images(),
            a.content(),
            b.content(),
            l0,
            d,
            s,
            a.copy_at(),
            a.copy_at() + Self::stride(),
        );
        lemma_top_flat(l0, a.issued_seq());
        lemma_top_flat(l1, b.issued_seq());
        assert forall|l: int, i: int| at(l1, l, i) implies tab_sound(
            b.content(),
            #[trigger] l1[l][i],
            d,
        ) && cached_ok(b.images(), b.content(), l1[l][i]) && l1[l][i].max_seq
            <= b.issued_seq() by {
            if l == 0 && i == n {
                assert(l1[l][i] == u);
                assert forall|x: u64| !#[trigger] b.images().dom().contains((u.id, x)) by {
                    if b.images().dom().contains((u.id, x)) {
                        assert(live_id(l0, u.id));
                    }
                }
            } else {
                assert(l1[l][i] == l0[l][i]);
                assert(at(l0, l, i));
            }
        }
        lemma_ids_joined(l0, l1, u, id, b.man().next_table_id);
        lemma_images_joined(b.images(), l0, l1, u);
        assert(sits(a.slot_map(), u, s));
        lemma_place_insert(a.slot_map(), b.slot_map(), l0, 0, n, u, s);
        assert(l0[0].insert(n, u) =~= l0[0].push(u));
    }
}

} // verus!
