//! A concrete persisted record type: a short byte string stored under a
//! one-byte length prefix. The trie nodes that normally live in this layer
//! are external collaborators; this record exercises the layer end to end.

use vstd::prelude::*;

use crate::storable::Storable;
use crate::store::LinearStore;
use crate::ShaleError;

verus! {

/// A record holding up to 255 bytes of payload. On disk it is encoded as a
/// one-byte length followed by the payload, so its serialized length changes
/// with the payload and an oversized mutation can be provoked.
#[derive(Debug)]
pub struct Blob {
    pub data: Vec<u8>,
}

impl Blob {
    /// A record over the given payload.
    pub fn new(data: Vec<u8>) -> (r: Self)
        requires
            data@.len() <= 255,
        ensures
            r@ == data@,
            r.valid(),
    {
        Blob { data }
    }
}

impl View for Blob {
    type V = Seq<u8>;

    open spec fn view(&self) -> Seq<u8> {
        self.data@
    }
}

impl Storable for Blob {
    open spec fn valid(&self) -> bool {
        self.data@.len() <= 255
    }

    open spec fn serial(&self) -> Seq<u8> {
        seq![self.data@.len() as u8] + self.data@
    }

    open spec fn parseable(tail: Seq<u8>) -> bool {
        tail.len() >= 1 && 1 + tail[0] <= tail.len()
    }

    proof fn lemma_serial_prefix_free(a: Self, b: Self, bytes: Seq<u8>) {
        assert(a.serial()[0] == bytes[0]);
        assert(b.serial()[0] == bytes[0]);
        assert(a.data@.len() == b.data@.len());
        assert(a.data@ =~= b.data@) by {
            assert forall|i: int| 0 <= i < a.data@.len() implies a.data@[i] == b.data@[i] by {
                assert(a.serial()[i + 1] == bytes[i + 1]);
                assert(b.serial()[i + 1] == bytes[i + 1]);
            }
        }
        assert(a.serial() =~= b.serial());
    }

    fn serialized_len(&self) -> (r: u64) {
        1 + self.data.len() as u64
    }

    fn serialize(&self) -> (r: Vec<u8>) {
        let n = self.data.len();
        let mut out: Vec<u8> = Vec::new();
        out.push(n as u8);
        let mut i: usize = 0;
        while i < n
            invariant
                i <= n,
                n == self.data@.len() <= 255,
                out@ == self.serial().subrange(0, i + 1),
            decreases n - i,
        {
            out.push(self.data[i]);
            assert(out@ =~= self.serial().subrange(0, i + 2));
            i = i + 1;
        }
        assert(out@ =~= self.serial());
        out
    }

    fn deserialize<S: LinearStore>(addr: usize, mem: &S) -> (r: Result<Self, ShaleError>) {
        let head = match mem.get_view(addr, 1) {
            Some(h) => h,
            None => {
                return Err(ShaleError::InvalidCacheView { offset: addr, size: 1 });
            },
        };
        let n = head[0];
        let whole = match mem.get_view(addr, 1 + n as u64) {
            Some(w) => w,
            None => {
                return Err(ShaleError::InvalidAddressLength {
                    expected: 1 + n as u64,
                    found: 0,
                });
            },
        };
        let mut data: Vec<u8> = Vec::new();
        let mut i: usize = 1;
        while i < whole.len()
            invariant
                1 <= i <= whole@.len(),
                data@ == whole@.subrange(1, i as int),
            decreases whole@.len() - i,
        {
            data.push(whole[i]);
            assert(data@ =~= whole@.subrange(1, i + 1));
            i = i + 1;
        }
        let blob = Blob { data };
        proof {
            let tail = mem.bytes().subrange(addr as int, mem.bytes().len() as int);
            assert(whole@.len() == 1 + n);
            assert(whole@[0] == mem.bytes()[addr as int]);
            assert(tail[0] == mem.bytes()[addr as int]);
            assert(Self::parseable(tail));
            assert(blob.serial() =~= mem.bytes().subrange(addr as int, addr + 1 + n));
        }
        Ok(blob)
    }
}

} // verus!
