//! Lookups in a table just written.

use vstd::prelude::*;

use super::format::{foot_of, FOOTER_LEN};
use super::reader::{looked_up, Lookup};
use super::table::stored_recs;
use super::writer::{law_written_table_reads_back, stored_all, write_done};
use crate::error::Error;
use crate::memtable::{is_hit, key_sorted, runs_newest_first, visible_version, Rec};

verus! {

/// Entry `i` is the newest version of `key` at or below `max_seq`.
pub open spec fn is_newest(es: Seq<Rec>, key: Seq<u8>, max_seq: u64, i: int) -> bool {
    &&& visible_version(es, key, max_seq, i)
    &&& forall|j: int| #[trigger]
        visible_version(es, key, max_seq, j) ==> es[j].seq <= es[i].seq
}

/// What a lookup that met no device failure answers for entry `e`.
pub open spec fn answers<E>(r: Result<Lookup, Error<E>>, e: Rec, buf: Seq<u8>) -> bool {
    if e.tombstone {
        r == Ok::<Lookup, Error<E>>(Lookup::Tombstone { seq: e.seq })
    } else if e.val.len() > buf.len() {
        r == Err::<Lookup, Error<E>>(Error::BufferTooSmall { need: e.val.len() as usize })
    } else {
        &&& r == Ok::<Lookup, Error<E>>(
            Lookup::Value { len: e.val.len() as usize, seq: e.seq, expire_at: e.expire_at },
        )
        &&& buf.take(e.val.len() as int) == e.val
    }
}

/// A lookup in a table just written finds what was written: the newest
/// version of the key at or below the limit, its tombstone, or nothing where
/// there is none. That a key's versions lie in several blocks, or that
/// blocks are compressed, makes no difference.
pub proof fn law_written_table_looks_up<E>(
    base: u64,
    k: u8,
    es: Seq<Rec>,
    key_max: usize,
    c0: Map<u64, Seq<u8>>,
    c1: Map<u64, Seq<u8>>,
    rdel_blocks: u32,
    block: int,
    bloom_bytes: int,
    n: u64,
    key: Seq<u8>,
    max_seq: u64,
    r: Result<Lookup, Error<E>>,
    buf: Seq<u8>,
)
    requires
        k >= 1,
        block >= FOOTER_LEN + 4,
        1 <= bloom_bytes <= block - 4,
        bloom_bytes * 8 <= u64::MAX,
        es.len() <= u64::MAX,
        key_sorted(es),
        runs_newest_first(es),
        write_done::<E>(base, k, es, key_max, c0, c1, rdel_blocks, block, bloom_bytes, Ok(n)),
        looked_up(
            stored_recs(
                c1,
                (foot_of(c1[(base + n + rdel_blocks - 1) as u64])->0).index_block,
            ),
            key,
            max_seq,
            r,
            buf,
        ),
        !(r matches Err(Error::Device(_))),
    ensures
        forall|i: int| #[trigger] is_newest(es, key, max_seq, i) ==> answers(r, es[i], buf),
        (forall|i: int| !#[trigger] visible_version(es, key, max_seq, i)) ==> r == Ok::<
            Lookup,
            Error<E>,
        >(Lookup::Missing),
{
    law_written_table_reads_back::<E>(
        base,
        k,
        es,
        key_max,
        c0,
        c1,
        rdel_blocks,
        block,
        bloom_bytes,
        n,
    );
    let recs = stored_all(es);
    assert forall|i: int| #[trigger] visible_version(recs, key, max_seq, i) == visible_version(
        es,
        key,
        max_seq,
        i,
    ) by {}
    assert forall|i: int| #[trigger] is_newest(es, key, max_seq, i) implies answers(
        r,
        es[i],
        buf,
    ) by {
        assert(visible_version(recs, key, max_seq, i));
        assert forall|h: int| #[trigger] is_hit(recs, key, max_seq, h) implies h == i by {
            assert(visible_version(es, key, max_seq, h));
            if h < i {
                assert(es[h].seq > es[i].seq);
            }
            if i < h {
                assert(!visible_version(recs, key, max_seq, i));
            }
        }
    }
    if forall|i: int| !#[trigger] visible_version(es, key, max_seq, i) {
        assert forall|i: int| !#[trigger] is_hit(recs, key, max_seq, i) by {
            assert(visible_version(recs, key, max_seq, i) == visible_version(es, key, max_seq, i));
        }
    }
}

} // verus!
