//! Atomic write batches: caller-owned, fixed-capacity.
//!
//! A [`WriteBatch`] queues up to `OPS` puts and deletes in caller-owned
//! storage. [`Db::write`](crate::db::Db::write) then applies every queued op
//! atomically: all become durable and visible together, or none does.
//! Sequence numbers are assigned at write time, consecutively, in queue
//! order: a batch never reserves sequences it does not use.

use core::convert::Infallible;

use vstd::prelude::*;

use crate::bytes::{copy_into, spliced};
use crate::error::Error;
use crate::wal::Op;

verus! {

/// One queued operation, as a value.
#[verifier::ext_equal]
pub struct BatchOpV {
    pub kind: Op,
    pub key: Seq<u8>,
    pub val: Seq<u8>,
}

/// One queued operation: the kind plus its key/value bytes.
#[derive(Debug, Clone, Copy)]
pub struct BatchOp<const KEY_MAX: usize, const VAL_MAX: usize> {
    kind: Op,
    key_len: u16,
    key: [u8; KEY_MAX],
    val_len: u16,
    val: [u8; VAL_MAX],
}

impl<const KEY_MAX: usize, const VAL_MAX: usize> View for BatchOp<KEY_MAX, VAL_MAX> {
    type V = BatchOpV;

    closed spec fn view(&self) -> BatchOpV {
        BatchOpV {
            kind: self.kind,
            key: self.key@.take(self.key_len as int),
            val: self.val@.take(self.val_len as int),
        }
    }
}

impl<const KEY_MAX: usize, const VAL_MAX: usize> BatchOp<KEY_MAX, VAL_MAX> {
    /// The lengths lie in the capacities.
    pub closed spec fn wf(&self) -> bool {
        self.key_len <= KEY_MAX && self.val_len <= VAL_MAX
    }

    /// The mutation kind.
    pub fn kind(&self) -> (r: Op)
        ensures
            r == self@.kind,
    {
        self.kind
    }

    /// The key bytes.
    pub fn key(&self) -> (r: &[u8])
        requires
            self.wf(),
        ensures
            r@ == self@.key,
            r@.len() <= KEY_MAX,
    {
        assert(self.key@.subrange(0, self.key_len as int) =~= self@.key);
        &self.key[0..self.key_len as usize]
    }

    /// The value bytes (empty for deletes).
    pub fn val(&self) -> (r: &[u8])
        requires
            self.wf(),
        ensures
            r@ == self@.val,
            r@.len() <= VAL_MAX,
    {
        assert(self.val@.subrange(0, self.val_len as int) =~= self@.val);
        &self.val[0..self.val_len as usize]
    }
}

/// A queued op is a put or a delete of a non-empty key within the limits; a
/// delete carries no value.
pub open spec fn op_queued(o: BatchOpV, key_max: usize, val_max: usize) -> bool {
    &&& o.kind == Op::Put || (o.kind == Op::Delete && o.val.len() == 0)
    &&& 1 <= o.key.len() <= key_max
    &&& o.key.len() <= 0xFFFF
    &&& o.val.len() <= val_max
    &&& o.val.len() <= 0xFFFF
}

/// What queueing gives: the op, or the first rule it breaks.
pub open spec fn queue_check(
    queued: int,
    ops: usize,
    klen: nat,
    vlen: nat,
    key_max: usize,
    val_max: usize,
) -> Result<(), Error<Infallible>> {
    if queued >= ops {
        Err(Error::BatchFull)
    } else if klen == 0 {
        Err(Error::EmptyKey)
    } else if klen > 0xFFFF {
        Err(Error::KeyTooLarge { len: klen as usize, max: 0xFFFF })
    } else if klen > key_max {
        Err(Error::KeyTooLarge { len: klen as usize, max: key_max })
    } else if vlen > 0xFFFF {
        Err(Error::ValueTooLarge { len: vlen as usize, max: 0xFFFF })
    } else if vlen > val_max {
        Err(Error::ValueTooLarge { len: vlen as usize, max: val_max })
    } else {
        Ok(())
    }
}

/// A fixed-capacity batch of puts and deletes, owned by the caller.
///
/// Created empty with [`new`](WriteBatch::new); ops are queued with
/// [`put`](WriteBatch::put) / [`delete`](WriteBatch::delete) and applied
/// atomically with [`Db::write`](crate::db::Db::write). The batch borrows
/// nothing, it copies key/value bytes into its own storage, so it can be
/// built once and reused via [`clear`](WriteBatch::clear).
///
/// Queueing validates sizes eagerly, so a batch handed to
/// [`Db::write`](crate::db::Db::write) is already well-formed; the write then
/// checks only capacity (memtable slots/arena, one WAL block).
pub struct WriteBatch<const KEY_MAX: usize, const VAL_MAX: usize, const OPS: usize> {
    ops: [BatchOp<KEY_MAX, VAL_MAX>; OPS],
    len: usize,
}

impl<const KEY_MAX: usize, const VAL_MAX: usize, const OPS: usize> View for WriteBatch<
    KEY_MAX,
    VAL_MAX,
    OPS,
> {
    type V = Seq<BatchOpV>;

    /// The queued operations in queue order.
    closed spec fn view(&self) -> Seq<BatchOpV> {
        Seq::new(self.len as nat, |i: int| self.ops@[i]@)
    }
}

impl<const KEY_MAX: usize, const VAL_MAX: usize, const OPS: usize> Default for WriteBatch<
    KEY_MAX,
    VAL_MAX,
    OPS,
> {
    fn default() -> (r: Self)
        ensures
            r.wf(),
            r@ == Seq::<BatchOpV>::empty(),
    {
        WriteBatch::new()
    }
}

impl<const KEY_MAX: usize, const VAL_MAX: usize, const OPS: usize> WriteBatch<
    KEY_MAX,
    VAL_MAX,
    OPS,
> {
    /// At most `OPS` operations are queued, each one within the limits.
    pub closed spec fn wf(&self) -> bool {
        &&& self.len <= OPS
        &&& forall|i: int|
            0 <= i < self.len ==> (#[trigger] self.ops@[i]).wf() && op_queued(
                self.ops@[i]@,
                KEY_MAX,
                VAL_MAX,
            )
    }

    /// What every well-formed batch satisfies.
    pub proof fn lemma_wf(&self)
        requires
            self.wf(),
        ensures
            self@.len() <= OPS,
            forall|i: int| 0 <= i < self@.len() ==> op_queued(#[trigger] self@[i], KEY_MAX, VAL_MAX),
    {
        assert forall|i: int| 0 <= i < self@.len() implies op_queued(
            #[trigger] self@[i],
            KEY_MAX,
            VAL_MAX,
        ) by {
            assert(self.ops@[i].wf());
        }
    }

    /// An empty batch.
    #[must_use]
    pub fn new() -> (r: Self)
        ensures
            r.wf(),
            r@ == Seq::<BatchOpV>::empty(),
    {
        let op: BatchOp<KEY_MAX, VAL_MAX> = BatchOp {
            kind: Op::Put,
            key_len: 0,
            key: [0u8; KEY_MAX],
            val_len: 0,
            val: [0u8; VAL_MAX],
        };
        let r = WriteBatch { ops: [op; OPS], len: 0 };
        assert(r@ =~= Seq::<BatchOpV>::empty());
        r
    }

    /// Number of queued operations.
    #[must_use]
    pub fn len(&self) -> (r: usize)
        ensures
            r == self@.len(),
    {
        self.len
    }

    /// Whether no operations are queued.
    #[must_use]
    pub fn is_empty(&self) -> (r: bool)
        ensures
            r == (self@.len() == 0),
    {
        self.len == 0
    }

    /// Maximum number of queued operations.
    #[must_use]
    pub fn capacity(&self) -> (r: usize)
        ensures
            r == OPS,
    {
        OPS
    }

    /// Discards all queued operations; the batch can be refilled.
    pub fn clear(&mut self)
        ensures
            final(self).wf(),
            final(self)@ == Seq::<BatchOpV>::empty(),
    {
        self.len = 0;
        assert(self@ =~= Seq::<BatchOpV>::empty());
    }

    /// Queues a put of `key` and `val`.
    ///
    /// # Errors
    ///
    /// [`Error::BatchFull`] when `OPS` ops are already queued,
    /// [`Error::EmptyKey`], [`Error::KeyTooLarge`], or
    /// [`Error::ValueTooLarge`]. A batch touches no device, so its error
    /// type is `Error<Infallible>`.
    pub fn put(&mut self, key: &[u8], val: &[u8]) -> (r: Result<(), Error<Infallible>>)
        requires
            old(self).wf(),
        ensures
            final(self).wf(),
            r == queue_check(
                old(self)@.len() as int,
                OPS,
                key@.len(),
                val@.len(),
                KEY_MAX,
                VAL_MAX,
            ),
            final(self)@ == (if r is Ok {
                old(self)@.push(BatchOpV { kind: Op::Put, key: key@, val: val@ })
            } else {
                old(self)@
            }),
    {
        self.push(Op::Put, key, val)
    }

    /// Queues a delete (tombstone) of `key`.
    ///
    /// # Errors
    ///
    /// [`Error::BatchFull`] when `OPS` ops are already queued,
    /// [`Error::EmptyKey`], or [`Error::KeyTooLarge`].
    pub fn delete(&mut self, key: &[u8]) -> (r: Result<(), Error<Infallible>>)
        requires
            old(self).wf(),
        ensures
            final(self).wf(),
            r == queue_check(old(self)@.len() as int, OPS, key@.len(), 0, KEY_MAX, VAL_MAX),
            final(self)@ == (if r is Ok {
                old(self)@.push(BatchOpV { kind: Op::Delete, key: key@, val: Seq::empty() })
            } else {
                old(self)@
            }),
    {
        let none: [u8; 0] = [];
        assert(none@ =~= Seq::<u8>::empty());
        self.push(Op::Delete, key, &none)
    }

    /// The queued operation at `i`.
    pub fn op(&self, i: usize) -> (r: &BatchOp<KEY_MAX, VAL_MAX>)
        requires
            self.wf(),
            i < self@.len(),
        ensures
            r@ == self@[i as int],
            r.wf(),
    {
        assert(self.ops@[i as int].wf());
        &self.ops[i]
    }

    fn push(&mut self, kind: Op, key: &[u8], val: &[u8]) -> (r: Result<(), Error<Infallible>>)
        requires
            old(self).wf(),
            kind == Op::Put || (kind == Op::Delete && val@.len() == 0),
        ensures
            final(self).wf(),
            r == queue_check(
                old(self)@.len() as int,
                OPS,
                key@.len(),
                val@.len(),
                KEY_MAX,
                VAL_MAX,
            ),
            final(self)@ == (if r is Ok {
                old(self)@.push(BatchOpV { kind, key: key@, val: val@ })
            } else {
                old(self)@
            }),
    {
        let klen: usize = key.len();
        let vlen: usize = val.len();
        if self.len >= OPS {
            return Err(Error::BatchFull);
        }
        if klen == 0 {
            return Err(Error::EmptyKey);
        }
        if klen > 0xFFFF {
            return Err(Error::KeyTooLarge { len: klen, max: 0xFFFF });
        }
        if klen > KEY_MAX {
            return Err(Error::KeyTooLarge { len: klen, max: KEY_MAX });
        }
        if vlen > 0xFFFF {
            return Err(Error::ValueTooLarge { len: vlen, max: 0xFFFF });
        }
        if vlen > VAL_MAX {
            return Err(Error::ValueTooLarge { len: vlen, max: VAL_MAX });
        }
        let mut op: BatchOp<KEY_MAX, VAL_MAX> = BatchOp {
            kind,
            key_len: klen as u16,
            key: [0u8; KEY_MAX],
            val_len: vlen as u16,
            val: [0u8; VAL_MAX],
        };
        copy_into(&mut op.key, 0, key);
        copy_into(&mut op.val, 0, val);
        proof {
            reveal(spliced);
            assert(op@.key =~= key@);
            assert(op@.val =~= val@);
        }
        let ghost before = self@;
        self.ops[self.len] = op;
        self.len = self.len + 1;
        proof {
            assert(self@ =~= before.push(BatchOpV { kind, key: key@, val: val@ }));
            assert forall|i: int| 0 <= i < self.len implies (#[trigger] self.ops@[i]).wf()
                && op_queued(self.ops@[i]@, KEY_MAX, VAL_MAX) by {
                if i < self.len - 1 {
                    assert(old(self).ops@[i].wf());
                }
            }
        }
        Ok(())
    }
}

} // verus!
