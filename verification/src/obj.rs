//! Stored views and object handles: a stored view binds one decoded record
//! to the offset it came from and a length ceiling; an object handle adds
//! dirty tracking and flushes a mutated record back to the store.

use vstd::prelude::*;

use crate::storable::Storable;
use crate::store::splice_bytes;
use crate::store::LinearStore;
use crate::DiskAddress;
use crate::ObjWriteSizeError;
use crate::ShaleError;

verus! {

/// One decoded record, the offset it was read from, and the ceiling its
/// serialized length must stay under to be persisted there.
#[derive(Debug)]
pub struct StoredView<T> {
    pub item: T,
    pub offset: usize,
    pub len_limit: u64,
}

impl<T: Storable> StoredView<T> {
    /// The item is one the encoding is defined on.
    pub open spec fn wf(&self) -> bool {
        self.item.valid()
    }

    /// The offset this view was read from.
    pub fn get_offset(&self) -> (r: usize)
        ensures
            r == self.offset,
    {
        self.offset
    }

    /// The would-be serialized length of the item, or `None` when it exceeds
    /// the ceiling and the item is too large to persist here.
    pub fn serialized_len(&self) -> (r: Option<u64>)
        requires
            self.wf(),
        ensures
            self.item.serial().len() <= self.len_limit ==> r == Some(
                self.item.serial().len() as u64,
            ),
            self.item.serial().len() > self.len_limit ==> r is None,
    {
        let len = self.item.serialized_len();
        if len > self.len_limit {
            None
        } else {
            Some(len)
        }
    }

    /// The serialized bytes of the item.
    pub fn serialize(&self) -> (r: Vec<u8>)
        requires
            self.wf(),
        ensures
            r@ == self.item.serial(),
    {
        self.item.serialize()
    }

    /// Mutable access to the item; the caller sees exactly how the view
    /// afterwards relates to what it writes through the reference.
    pub fn mut_item_ref(&mut self) -> (r: &mut T)
        ensures
            *r == old(self).item,
            final(self).item == *final(r),
            final(self).offset == old(self).offset,
            final(self).len_limit == old(self).len_limit,
    {
        &mut self.item
    }

    /// Reads the record stored at `offset` of `store`. Succeeds exactly when
    /// the bytes there are a well-formed encoding; the decoded item is then
    /// what those bytes encode.
    pub fn new<S: LinearStore>(offset: usize, len_limit: u64, store: &S) -> (r: Result<
        Self,
        ShaleError,
    >)
        ensures
            offset <= store.bytes().len() ==> ((r is Ok) <==> T::parseable(
                store.bytes().subrange(offset as int, store.bytes().len() as int),
            )),
            offset > store.bytes().len() ==> r is Err,
            r matches Ok(v) ==> v.wf() && v.offset == offset && v.len_limit == len_limit && offset
                + v.item.serial().len() <= store.bytes().len() && v.item.serial() == store.bytes()
                .subrange(offset as int, offset + v.item.serial().len()),
    {
        let item = T::deserialize(offset, store)?;
        Ok(StoredView { item, offset, len_limit })
    }

    /// Binds an already-constructed item to a fresh offset, without reading
    /// the store.
    pub fn from_hydrated(offset: usize, len_limit: u64, item: T) -> (r: Self)
        requires
            item.valid(),
        ensures
            r.wf(),
            r.item == item,
            r.offset == offset,
            r.len_limit == len_limit,
    {
        StoredView { item, offset, len_limit }
    }

    /// Binds an already-decoded item to a sub-range of a parent record.
    pub fn new_from_slice(offset: usize, len_limit: u64, item: T) -> (r: Self)
        requires
            item.valid(),
        ensures
            r.wf(),
            r.item == item,
            r.offset == offset,
            r.len_limit == len_limit,
    {
        StoredView { item, offset, len_limit }
    }

    /// Reads the record at `ptr` of `store` and wraps it in an object
    /// handle; success is exactly that of `new`.
    pub fn addr_to_obj<S: LinearStore>(store: &S, ptr: DiskAddress, len_limit: u64) -> (r: Result<
        Obj<T>,
        ShaleError,
    >)
        ensures
            ptr.0 <= store.bytes().len() ==> ((r is Ok) <==> T::parseable(
                store.bytes().subrange(ptr.0 as int, store.bytes().len() as int),
            )),
            ptr.0 > store.bytes().len() ==> r is Err,
            r matches Ok(o) ==> o.wf() && o.dirty is None && o.value.offset == ptr.0
                && o.value.len_limit == len_limit && ptr.0 + o.value.item.serial().len()
                <= store.bytes().len() && o.value.item.serial() == store.bytes().subrange(
                ptr.0 as int,
                ptr.0 + o.value.item.serial().len(),
            ),
    {
        let view = Self::new(ptr.get(), len_limit, store)?;
        Ok(Obj::from_stored_view(view))
    }

    /// Wraps an already-constructed item destined for `addr` in an object
    /// handle, without reading the store.
    pub fn item_to_obj(addr: usize, len_limit: u64, item: T) -> (r: Obj<T>)
        requires
            item.valid(),
        ensures
            r.wf(),
            r.dirty is None,
            r.value.item == item,
            r.value.offset == addr,
            r.value.len_limit == len_limit,
    {
        Obj::from_stored_view(Self::from_hydrated(addr, len_limit, item))
    }

    /// Derives a child handle over a sub-range of `parent`. A dirty parent
    /// is rejected as invalid: its byte layout on disk is stale, so a child
    /// offset into it would be meaningless.
    pub fn slice<U: Storable>(parent: &Obj<T>, offset: usize, length: u64, item: U) -> (r: Result<
        Obj<U>,
        ShaleError,
    >)
        requires
            item.valid(),
            parent.value.offset + offset <= usize::MAX,
        ensures
            parent.dirty is Some ==> r == Result::<Obj<U>, ShaleError>::Err(
                ShaleError::InvalidObj { addr: offset },
            ),
            parent.dirty is None ==> (r matches Ok(o) && o.wf() && o.dirty is None
                && o.value.item == item && o.value.offset == parent.value.offset + offset
                && o.value.len_limit == length),
    {
        if parent.dirty.is_some() {
            return Err(ShaleError::InvalidObj { addr: offset });
        }
        let child_offset = parent.value.get_offset() + offset;
        let view = StoredView::new_from_slice(child_offset, length, item);
        Ok(Obj::from_stored_view(view))
    }
}

/// An object handle: owns one stored view plus a dirty marker. The marker is
/// `None` while the in-memory item matches what was last flushed, and holds
/// the item's serialized length from the moment a mutation lands; a dirty
/// handle must be flushed before it is let go.
#[derive(Debug)]
pub struct Obj<T: Storable> {
    pub value: StoredView<T>,
    pub dirty: Option<u64>,
}

impl<T: Storable> Obj<T> {
    /// The view is well formed, and a recorded dirty length is exactly the
    /// item's serialized length and fits the ceiling, so whatever is flushed
    /// is the item's true encoding.
    pub open spec fn wf(&self) -> bool {
        &&& self.value.wf()
        &&& (self.dirty matches Some(l) ==> l == self.value.item.serial().len()
            && l <= self.value.len_limit)
    }

    /// The address this handle stands at.
    pub open spec fn spec_addr(&self) -> DiskAddress {
        DiskAddress(self.value.offset)
    }

    /// The address this handle stands at.
    pub fn as_addr(&self) -> (r: DiskAddress)
        ensures
            r == self.spec_addr(),
    {
        DiskAddress(self.value.get_offset())
    }

    /// Wraps a stored view in a clean handle.
    pub fn from_stored_view(value: StoredView<T>) -> (r: Self)
        ensures
            r.value == value,
            r.dirty is None,
    {
        Obj { value, dirty: None }
    }

    /// Replaces the item and marks the handle dirty with the new serialized
    /// length. When that length exceeds the ceiling the replacement still
    /// happens, but the handle reports the oversize error and the dirty
    /// marker is left unset, so the oversized value never reaches disk
    /// silently.
    pub fn modify(&mut self, new_item: T) -> (r: Result<(), ObjWriteSizeError>)
        requires
            old(self).wf(),
            new_item.valid(),
        ensures
            final(self).wf(),
            final(self).value.item == new_item,
            final(self).value.offset == old(self).value.offset,
            final(self).value.len_limit == old(self).value.len_limit,
            new_item.serial().len() <= old(self).value.len_limit ==> (r is Ok && final(self).dirty == Some(new_item.serial().len() as u64)),
            new_item.serial().len() > old(self).value.len_limit ==> (r == Result::<
                (),
                ObjWriteSizeError,
            >::Err(ObjWriteSizeError) && final(self).dirty is None),
    {
        let slot = self.value.mut_item_ref();
        *slot = new_item;
        match self.value.serialized_len() {
            Some(len) => {
                self.dirty = Some(len);
                Ok(())
            },
            None => {
                self.dirty = None;
                Err(ObjWriteSizeError)
            },
        }
    }

    /// Flushes a pending mutation: serializes the item and writes it at the
    /// handle's offset, then clears the dirty marker. A clean handle is left
    /// alone, so flushing twice is the same as flushing once. A rejected
    /// write changes neither the store nor the handle and reports why.
    pub fn flush_dirty<S: LinearStore>(&mut self, store: &mut S) -> (r: Result<(), ShaleError>)
        requires
            old(self).wf(),
        ensures
            final(self).wf(),
            final(store).writeable() == old(store).writeable(),
            final(store).id_spec() == old(store).id_spec(),
            final(self).value == old(self).value,
            old(self).dirty is None ==> r is Ok && *final(self) == *old(self) && final(store).bytes() == old(store).bytes(),
            old(self).dirty is Some && old(store).writeable() && old(self).value.offset + old(self).value.item.serial().len() <= old(store).bytes().len() ==> (r is Ok && final(self).dirty is None && final(store).bytes() == splice_bytes(
                old(store).bytes(),
                old(self).value.offset as int,
                old(self).value.item.serial(),
            )),
            old(self).dirty is Some && !old(store).writeable() ==> (r == Result::<
                (),
                ShaleError,
            >::Err(ShaleError::ImmutableWrite) && *final(self) == *old(self) && final(store).bytes()
                == old(store).bytes()),
            old(self).dirty is Some && old(store).writeable() && old(self).value.offset + old(self).value.item.serial().len() > old(store).bytes().len() ==> (r == Result::<
                (),
                ShaleError,
            >::Err(ShaleError::Io) && *final(self) == *old(self) && final(store).bytes() == old(store).bytes()),
    {
        if self.dirty.is_none() {
            return Ok(());
        }
        let buf = self.value.serialize();
        let offset = self.value.get_offset();
        match store.write(offset, &buf) {
            Ok(()) => {
                self.dirty = None;
                Ok(())
            },
            Err(e) => Err(e),
        }
    }

    /// Moves the item out, consuming the handle; any pending dirty state is
    /// discarded with it, so a caller who wants the mutation persisted
    /// flushes first.
    pub fn into_inner(self) -> (r: T)
        ensures
            r == self.value.item,
    {
        let Obj { value, dirty: _ } = self;
        let StoredView { item, offset: _, len_limit: _ } = value;
        item
    }
}

/// Write-through: a flush leaves the store spliced with the handle's
/// serialized item at its offset — and in those bytes, the handle's range
/// reads back as exactly that serialization, with everything else untouched.
/// Together with the contracts of `modify`, `flush_dirty` and `get_view`,
/// a mutation followed by a flush makes a fresh read of the same address
/// yield the serialized bytes of the mutated value.
pub proof fn lemma_write_through<T: Storable>(o: Obj<T>, bytes0: Seq<u8>)
    requires
        o.wf(),
        o.value.offset + o.value.item.serial().len() <= bytes0.len(),
    ensures
        splice_bytes(bytes0, o.value.offset as int, o.value.item.serial()).len() == bytes0.len(),
        splice_bytes(bytes0, o.value.offset as int, o.value.item.serial()).subrange(
            o.value.offset as int,
            o.value.offset + o.value.item.serial().len(),
        ) == o.value.item.serial(),
        forall|i: int|
            0 <= i < bytes0.len() && !(o.value.offset <= i < o.value.offset
                + o.value.item.serial().len()) ==> splice_bytes(
                bytes0,
                o.value.offset as int,
                o.value.item.serial(),
            )[i] == bytes0[i],
{
    crate::store::lemma_splice_bytes(bytes0, o.value.offset as int, o.value.item.serial());
}

} // verus!
