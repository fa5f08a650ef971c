//! The serialization contract every persisted record type implements, and
//! the round-trip guarantee that follows from it.

use vstd::prelude::*;

use crate::store::LinearStore;
use crate::ShaleError;

verus! {

/// A record type that can be encoded to and decoded from on-disk bytes.
///
/// `serial` is the canonical encoding of a value, as a mathematical byte
/// sequence; the executable methods are held to it, and the view (`@`) is
/// the abstract value a record stands for. Decoding is total on well-formed
/// bytes and fails with a decode error on malformed bytes, never silently
/// producing a default; and encodings are prefix-free, so a decode that sees
/// the bytes of a value recovers exactly that value.
pub trait Storable: View + Sized {
    /// Values the encoding is defined on.
    spec fn valid(&self) -> bool;

    /// The canonical serialized bytes of this value.
    spec fn serial(&self) -> Seq<u8>;

    /// Whether a decode succeeds at the start of `tail`.
    spec fn parseable(tail: Seq<u8>) -> bool;

    /// No encoding is a strict prefix of another: two values whose encodings
    /// both start the same byte sequence stand for the same abstract value.
    /// Implementations prove this; it is what turns "decoded bytes match"
    /// into "decoded value matches".
    proof fn lemma_serial_prefix_free(a: Self, b: Self, bytes: Seq<u8>)
        requires
            a.valid(),
            b.valid(),
            a.serial().len() <= bytes.len(),
            b.serial().len() <= bytes.len(),
            a.serial() == bytes.subrange(0, a.serial().len() as int),
            b.serial() == bytes.subrange(0, b.serial().len() as int),
        ensures
            a@ == b@,
            a.serial() == b.serial(),
    ;

    /// The exact length of the serialized value.
    fn serialized_len(&self) -> (r: u64)
        requires
            self.valid(),
        ensures
            r as int == self.serial().len(),
    ;

    /// The serialized bytes of this value.
    fn serialize(&self) -> (r: Vec<u8>)
        requires
            self.valid(),
        ensures
            r@ == self.serial(),
    ;

    /// Decodes a value starting at `addr` of `mem`. Succeeds exactly when
    /// the bytes from `addr` on are a well-formed encoding, and the decoded
    /// value is then exactly what the bytes there encode.
    fn deserialize<S: LinearStore>(addr: usize, mem: &S) -> (r: Result<Self, ShaleError>)
        ensures
            addr <= mem.bytes().len() ==> ((r is Ok) <==> Self::parseable(
                mem.bytes().subrange(addr as int, mem.bytes().len() as int),
            )),
            addr > mem.bytes().len() ==> r is Err,
            r matches Ok(v) ==> v.valid() && addr + v.serial().len() <= mem.bytes().len()
                && v.serial() == mem.bytes().subrange(addr as int, addr + v.serial().len()),
    ;
}

/// The serialized bytes of `item`, as a fresh buffer.
pub fn to_dehydrated<T: Storable>(item: &T) -> (r: Vec<u8>)
    requires
        item.valid(),
    ensures
        r@ == item.serial(),
{
    item.serialize()
}

/// Round trip: when the store holds the encoding of `v` at `addr` and a
/// decode at `addr` returned `w`, then `w` stands for the same abstract
/// value as `v`. The premises are exactly what `serialize` (written at
/// `addr`) and `deserialize` (returning `Ok(w)`) ensure, so any
/// serialize-then-deserialize pair of calls recovers the value it started
/// from.
pub proof fn lemma_round_trip<T: Storable>(v: T, w: T, bytes: Seq<u8>, addr: int)
    requires
        v.valid(),
        w.valid(),
        0 <= addr,
        addr + v.serial().len() <= bytes.len(),
        v.serial() == bytes.subrange(addr, addr + v.serial().len()),
        addr + w.serial().len() <= bytes.len(),
        w.serial() == bytes.subrange(addr, addr + w.serial().len()),
    ensures
        w@ == v@,
        w.serial() == v.serial(),
{
    let tail = bytes.subrange(addr, bytes.len() as int);
    assert(v.serial() =~= tail.subrange(0, v.serial().len() as int));
    assert(w.serial() =~= tail.subrange(0, w.serial().len() as int));
    T::lemma_serial_prefix_free(v, w, tail);
}

} // verus!
