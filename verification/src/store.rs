//! The linear store abstraction: a byte-addressable memory surface with
//! copy-on-read views and in-place writes, plus a verified in-memory
//! implementation of it.

use vstd::prelude::*;

use crate::ShaleError;
use crate::StoreId;

verus! {

/// The byte sequence `bytes` with the range starting at `off` replaced by
/// `data`; everything outside that range is kept.
pub open spec fn splice_bytes(bytes: Seq<u8>, off: int, data: Seq<u8>) -> Seq<u8> {
    bytes.subrange(0, off) + data + bytes.subrange(off + data.len(), bytes.len() as int)
}

/// The byte sequence `bytes` after the writes `ws` have landed in order:
/// each write is a splice of its data at its offset.
pub open spec fn apply_writes(bytes: Seq<u8>, ws: Seq<(int, Seq<u8>)>) -> Seq<u8>
    decreases ws.len(),
{
    if ws.len() == 0 {
        bytes
    } else {
        apply_writes(splice_bytes(bytes, ws[0].0, ws[0].1), ws.drop_first())
    }
}

/// Every write of `ws` lies inside a store of length `n`.
pub open spec fn writes_in_bounds(ws: Seq<(int, Seq<u8>)>, n: int) -> bool {
    forall|k: int| 0 <= k < ws.len() ==> 0 <= #[trigger] ws[k].0 && ws[k].0 + ws[k].1.len() <= n
}

/// No two writes of `ws` overlap.
pub open spec fn writes_disjoint(ws: Seq<(int, Seq<u8>)>) -> bool {
    forall|j: int, k: int|
        0 <= j < ws.len() && 0 <= k < ws.len() && j != k ==> (#[trigger] ws[j].0 + ws[j].1.len()
            <= #[trigger] ws[k].0 || ws[k].0 + ws[k].1.len() <= ws[j].0)
}

/// Appending one more write applies it last.
pub proof fn lemma_apply_writes_push(bytes: Seq<u8>, ws: Seq<(int, Seq<u8>)>, w: (int, Seq<u8>))
    ensures
        apply_writes(bytes, ws.push(w)) == splice_bytes(apply_writes(bytes, ws), w.0, w.1),
    decreases ws.len(),
{
    if ws.len() == 0 {
        assert(ws.push(w).drop_first() =~= Seq::<(int, Seq<u8>)>::empty());
        assert(ws.push(w)[0] == w);
        assert(apply_writes(splice_bytes(bytes, w.0, w.1), Seq::<(int, Seq<u8>)>::empty())
            == splice_bytes(bytes, w.0, w.1));
        assert(apply_writes(bytes, ws) == bytes);
    } else {
        assert(ws.push(w).drop_first() =~= ws.drop_first().push(w));
        assert(ws.push(w)[0] == ws[0]);
        lemma_apply_writes_push(splice_bytes(bytes, ws[0].0, ws[0].1), ws.drop_first(), w);
    }
}

/// In-bounds writes keep the store length.
pub proof fn lemma_apply_writes_len(bytes: Seq<u8>, ws: Seq<(int, Seq<u8>)>)
    requires
        writes_in_bounds(ws, bytes.len() as int),
    ensures
        apply_writes(bytes, ws).len() == bytes.len(),
    decreases ws.len(),
{
    if ws.len() > 0 {
        lemma_splice_bytes(bytes, ws[0].0, ws[0].1);
        assert(forall|k: int|
            0 <= k < ws.drop_first().len() ==> #[trigger] ws.drop_first()[k] == ws[k + 1]);
        lemma_apply_writes_len(splice_bytes(bytes, ws[0].0, ws[0].1), ws.drop_first());
    }
}

/// Bytes no write of `ws` covers are left as they were.
pub proof fn lemma_apply_writes_untouched(bytes: Seq<u8>, ws: Seq<(int, Seq<u8>)>, i: int)
    requires
        writes_in_bounds(ws, bytes.len() as int),
        0 <= i < bytes.len(),
        forall|k: int| 0 <= k < ws.len() ==> !(#[trigger] ws[k].0 <= i < ws[k].0 + ws[k].1.len()),
    ensures
        apply_writes(bytes, ws).len() == bytes.len(),
        apply_writes(bytes, ws)[i] == bytes[i],
    decreases ws.len(),
{
    lemma_apply_writes_len(bytes, ws);
    if ws.len() > 0 {
        let b1 = splice_bytes(bytes, ws[0].0, ws[0].1);
        lemma_splice_bytes(bytes, ws[0].0, ws[0].1);
        assert(forall|k: int|
            0 <= k < ws.drop_first().len() ==> #[trigger] ws.drop_first()[k] == ws[k + 1]);
        lemma_apply_writes_untouched(b1, ws.drop_first(), i);
    }
}

/// When the writes are disjoint, each one's data is found intact in the
/// result, whatever order they landed in.
pub proof fn lemma_apply_writes_disjoint(bytes: Seq<u8>, ws: Seq<(int, Seq<u8>)>, k: int)
    requires
        writes_in_bounds(ws, bytes.len() as int),
        writes_disjoint(ws),
        0 <= k < ws.len(),
    ensures
        apply_writes(bytes, ws).len() == bytes.len(),
        apply_writes(bytes, ws).subrange(ws[k].0, ws[k].0 + ws[k].1.len()) == ws[k].1,
    decreases ws.len(),
{
    lemma_apply_writes_len(bytes, ws);
    let b1 = splice_bytes(bytes, ws[0].0, ws[0].1);
    lemma_splice_bytes(bytes, ws[0].0, ws[0].1);
    let tail = ws.drop_first();
    assert(forall|j: int| 0 <= j < tail.len() ==> #[trigger] tail[j] == ws[j + 1]);
    if k == 0 {
        assert forall|i: int| ws[0].0 <= i < ws[0].0 + ws[0].1.len() implies apply_writes(
            bytes,
            ws,
        )[i] == b1[i] by {
            lemma_apply_writes_untouched(b1, tail, i);
        }
        assert(apply_writes(bytes, ws).subrange(ws[0].0, ws[0].0 + ws[0].1.len()) =~= ws[0].1);
    } else {
        lemma_apply_writes_disjoint(b1, tail, k - 1);
        assert(tail[k - 1] == ws[k]);
    }
}

/// Splicing keeps the store length, plants `data` at `off`, and leaves every
/// byte outside `[off, off + data.len())` unchanged.
pub proof fn lemma_splice_bytes(bytes: Seq<u8>, off: int, data: Seq<u8>)
    requires
        0 <= off,
        off + data.len() <= bytes.len(),
    ensures
        splice_bytes(bytes, off, data).len() == bytes.len(),
        splice_bytes(bytes, off, data).subrange(off, off + data.len()) == data,
        forall|i: int|
            0 <= i < bytes.len() && !(off <= i < off + data.len()) ==> splice_bytes(
                bytes,
                off,
                data,
            )[i] == bytes[i],
{
    let s = splice_bytes(bytes, off, data);
    assert(s.subrange(off, off + data.len()) =~= data);
}

/// A byte-addressable, shared-access memory surface. Reads hand out copied
/// views; writes land in place and are immediately visible to later views of
/// the same store value. Implementations must prove the contracts below, so
/// everything built on this trait holds of every store the crate admits.
pub trait LinearStore: Sized {
    /// The current content of the store, as a mathematical byte sequence.
    spec fn bytes(&self) -> Seq<u8>;

    /// Whether writes are admitted.
    spec fn writeable(&self) -> bool;

    /// The store's identity tag.
    spec fn id_spec(&self) -> StoreId;

    /// A pinned, copied view of `length` bytes starting at `offset`, or
    /// `None` when the range is not readable, rather than a panic.
    fn get_view(&self, offset: usize, length: u64) -> (r: Option<Vec<u8>>)
        ensures
            offset + length <= self.bytes().len() ==> (r matches Some(v) && v@ == self.bytes()
                .subrange(offset as int, offset + length)),
            offset + length > self.bytes().len() ==> r is None,
    ;

    /// Writes `change` in place at `offset`. Succeeds exactly when the store
    /// is writeable and the range lies inside it; a rejected write changes
    /// nothing and reports the immutability or I/O kind.
    fn write(&mut self, offset: usize, change: &Vec<u8>) -> (r: Result<(), ShaleError>)
        ensures
            final(self).writeable() == old(self).writeable(),
            final(self).id_spec() == old(self).id_spec(),
            old(self).writeable() && offset + change@.len() <= old(self).bytes().len() ==> (r
                is Ok && final(self).bytes() == splice_bytes(
                old(self).bytes(),
                offset as int,
                change@,
            )),
            !old(self).writeable() ==> (r == Result::<(), ShaleError>::Err(
                ShaleError::ImmutableWrite,
            ) && final(self).bytes() == old(self).bytes()),
            old(self).writeable() && offset + change@.len() > old(self).bytes().len() ==> (r
                == Result::<(), ShaleError>::Err(ShaleError::Io) && final(self).bytes() == old(
                self,
            ).bytes()),
    ;

    /// The store's extent in bytes.
    fn size(&self) -> (r: usize)
        ensures
            r as int == self.bytes().len(),
    ;

    /// The store's identity tag.
    fn id(&self) -> (r: StoreId)
        ensures
            r == self.id_spec(),
    ;

    /// Whether writes are admitted.
    fn is_writeable(&self) -> (r: bool)
        ensures
            r == self.writeable(),
    ;
}

/// A linear store held entirely in memory: a byte vector, a writability
/// flag, and an identity tag.
#[derive(Debug)]
pub struct InMemLinearStore {
    pub data: Vec<u8>,
    pub can_write: bool,
    pub store_id: StoreId,
}

impl InMemLinearStore {
    /// A store over the given bytes.
    pub fn new(data: Vec<u8>, can_write: bool, store_id: StoreId) -> (r: Self)
        ensures
            r.bytes() == data@,
            r.writeable() == can_write,
            r.id_spec() == store_id,
    {
        InMemLinearStore { data, can_write, store_id }
    }

    /// A writeable store of `size` zero bytes.
    pub fn zeroed(size: usize, store_id: StoreId) -> (r: Self)
        ensures
            r.bytes() == Seq::<u8>::new(size as nat, |i: int| 0u8),
            r.writeable(),
            r.id_spec() == store_id,
    {
        let mut data: Vec<u8> = Vec::new();
        let mut i: usize = 0;
        while i < size
            invariant
                i <= size,
                data@ == Seq::<u8>::new(i as nat, |j: int| 0u8),
            decreases size - i,
        {
            data.push(0u8);
            assert(data@ =~= Seq::<u8>::new((i + 1) as nat, |j: int| 0u8));
            i = i + 1;
        }
        InMemLinearStore { data, can_write: true, store_id }
    }
}

impl LinearStore for InMemLinearStore {
    open spec fn bytes(&self) -> Seq<u8> {
        self.data@
    }

    open spec fn writeable(&self) -> bool {
        self.can_write
    }

    open spec fn id_spec(&self) -> StoreId {
        self.store_id
    }

    fn get_view(&self, offset: usize, length: u64) -> (r: Option<Vec<u8>>) {
        let dlen = self.data.len();
        if length > usize::MAX as u64 {
            return None;
        }
        let len: usize = length as usize;
        if offset > dlen || len > dlen - offset {
            return None;
        }
        let mut out: Vec<u8> = Vec::new();
        let mut i: usize = 0;
        while i < len
            invariant
                i <= len,
                offset + len <= self.data.len(),
                out@ == self.data@.subrange(offset as int, offset + i),
            decreases len - i,
        {
            out.push(self.data[offset + i]);
            assert(out@ =~= self.data@.subrange(offset as int, offset + i + 1));
            i = i + 1;
        }
        Some(out)
    }

    fn write(&mut self, offset: usize, change: &Vec<u8>) -> (r: Result<(), ShaleError>) {
        if !self.can_write {
            return Err(ShaleError::ImmutableWrite);
        }
        let dlen = self.data.len();
        if offset > dlen || change.len() > dlen - offset {
            return Err(ShaleError::Io);
        }
        let ghost bytes0 = self.data@;
        let mut i: usize = 0;
        while i < change.len()
            invariant
                i <= change@.len(),
                offset + change@.len() <= bytes0.len(),
                bytes0.len() <= usize::MAX,
                self.data@.len() == bytes0.len(),
                forall|j: int| offset <= j < offset + i ==> self.data@[j] == change@[j - offset],
                forall|j: int|
                    0 <= j < bytes0.len() && !(offset <= j < offset + i) ==> self.data@[j]
                        == bytes0[j],
                self.can_write == old(self).can_write,
                self.store_id == old(self).store_id,
            decreases change@.len() - i,
        {
            let b = change[i];
            self.data.set(offset + i, b);
            i = i + 1;
        }
        proof {
            lemma_splice_bytes(bytes0, offset as int, change@);
            assert(self.data@ =~= splice_bytes(bytes0, offset as int, change@));
        }
        Ok(())
    }

    fn size(&self) -> (r: usize) {
        self.data.len()
    }

    fn id(&self) -> (r: StoreId) {
        self.store_id
    }

    fn is_writeable(&self) -> (r: bool) {
        self.can_write
    }
}

} // verus!
