use shale::cache::ObjCache;
use shale::cache::ObjRef;
use shale::obj::StoredView;
use shale::record::Blob;
use shale::storable::Storable;
use shale::store::InMemLinearStore;
use shale::store::LinearStore;
use shale::DiskAddress;
use shale::ShaleError;

const A: DiskAddress = DiskAddress(1);
const B: DiskAddress = DiskAddress(4);
const C: DiskAddress = DiskAddress(7);

/// A store holding one two-byte record at each of A, B and C.
fn three_record_store() -> InMemLinearStore {
    let mut store = InMemLinearStore::zeroed(16, 1);
    store.write(A.get(), &Blob::new(vec![11, 11]).serialize()).unwrap();
    store.write(B.get(), &Blob::new(vec![22, 22]).serialize()).unwrap();
    store.write(C.get(), &Blob::new(vec![33, 33]).serialize()).unwrap();
    store
}

/// Checks an address out of the cache, reading it from the store on a miss.
fn checkout(
    cache: &mut ObjCache<Blob>,
    store: &InMemLinearStore,
    addr: DiskAddress,
) -> ObjRef<Blob> {
    let obj = match cache.get(addr) {
        Some(obj) => obj,
        None => cache.put(StoredView::addr_to_obj(store, addr, 3).unwrap()),
    };
    ObjRef::new(obj)
}

#[test]
fn get_misses_on_an_empty_cache() {
    let mut cache: ObjCache<Blob> = ObjCache::new(2);
    assert!(cache.get(A).is_none());
}

#[test]
fn release_makes_an_address_resident_again() {
    let mut store = three_record_store();
    let mut cache: ObjCache<Blob> = ObjCache::new(2);
    let r = checkout(&mut cache, &store, A);
    r.release(&mut cache, &mut store).unwrap();
    let hit = cache.get(A).unwrap();
    assert_eq!(hit.as_addr(), A);
    assert_eq!(hit.value.item.data, vec![11, 11]);
}

#[test]
fn at_most_one_checkout_per_address() {
    let mut store = three_record_store();
    let mut cache: ObjCache<Blob> = ObjCache::new(2);
    let r = checkout(&mut cache, &store, A);
    // while A is out, the cache cannot hand A out again: only a miss
    assert!(cache.get(A).is_none());
    r.release(&mut cache, &mut store).unwrap();
    // once released, A is resident and can be checked out again
    assert!(cache.get(A).is_some());
}

#[test]
fn capacity_bound_holds_under_pressure() {
    let mut store = three_record_store();
    let mut cache: ObjCache<Blob> = ObjCache::new(2);
    for addr in [A, B, C] {
        let r = checkout(&mut cache, &store, addr);
        r.release(&mut cache, &mut store).unwrap();
    }
    // only two of the three can be resident
    let mut hits = 0;
    for addr in [A, B, C] {
        if let Some(obj) = cache.get(addr) {
            hits += 1;
            ObjRef::new(obj).release(&mut cache, &mut store).unwrap();
        }
    }
    assert_eq!(hits, 2);
}

#[test]
fn eviction_flushes_the_least_recently_used() {
    let mut store = three_record_store();
    let mut cache: ObjCache<Blob> = ObjCache::new(2);
    // dirty A, release it: A resident and dirty
    let mut r = checkout(&mut cache, &store, A);
    r.write(&mut cache, Blob::new(vec![99, 99])).unwrap();
    r.release(&mut cache, &mut store).unwrap();
    assert_eq!(store.get_view(A.get(), 3), Some(vec![2, 11, 11]));
    // fill the cache past capacity: A is evicted and its mutation flushed
    for addr in [B, C] {
        let r = checkout(&mut cache, &store, addr);
        r.release(&mut cache, &mut store).unwrap();
    }
    assert_eq!(store.get_view(A.get(), 3), Some(vec![2, 99, 99]));
    assert!(cache.get(A).is_none());
}

#[test]
fn discard_dominates_release() {
    let mut store = three_record_store();
    let mut cache: ObjCache<Blob> = ObjCache::new(2);
    let mut r = checkout(&mut cache, &store, A);
    r.write(&mut cache, Blob::new(vec![99, 99])).unwrap();
    // a third party invalidates A while it is checked out
    cache.pop(A);
    let before = store.get_view(0, 16).unwrap();
    r.release(&mut cache, &mut store).unwrap();
    // the stale value was not written back and A was not reinserted
    assert_eq!(store.get_view(0, 16).unwrap(), before);
    assert!(cache.get(A).is_none());
}

#[test]
fn pop_drops_a_resident_entry_without_flushing() {
    let mut store = three_record_store();
    let mut cache: ObjCache<Blob> = ObjCache::new(2);
    let mut r = checkout(&mut cache, &store, A);
    r.write(&mut cache, Blob::new(vec![99, 99])).unwrap();
    r.release(&mut cache, &mut store).unwrap();
    let before = store.get_view(0, 16).unwrap();
    cache.pop(A);
    assert!(cache.get(A).is_none());
    // the dirty resident entry was dropped, not flushed
    assert_eq!(cache.flush_dirty(&mut store).unwrap(), Some(()));
    assert_eq!(store.get_view(0, 16).unwrap(), before);
}

#[test]
fn barrier_is_busy_while_anything_is_checked_out() {
    let mut store = three_record_store();
    let mut cache: ObjCache<Blob> = ObjCache::new(2);
    let r = checkout(&mut cache, &store, A);
    assert_eq!(cache.flush_dirty(&mut store).unwrap(), None);
    r.release(&mut cache, &mut store).unwrap();
    assert_eq!(cache.flush_dirty(&mut store).unwrap(), Some(()));
}

#[test]
fn barrier_reports_an_immutable_store() {
    let store = three_record_store();
    let mut cache: ObjCache<Blob> = ObjCache::new(2);
    let mut frozen = InMemLinearStore::new(store.get_view(0, 16).unwrap(), false, 1);
    let mut r = checkout(&mut cache, &frozen, A);
    r.write(&mut cache, Blob::new(vec![99, 99])).unwrap();
    r.release(&mut cache, &mut frozen).unwrap();
    assert_eq!(cache.flush_dirty(&mut frozen), Err(ShaleError::ImmutableWrite));
    // nothing was applied: the address is still dirty on a writeable store
    let mut thawed = InMemLinearStore::new(frozen.get_view(0, 16).unwrap(), true, 1);
    assert_eq!(cache.flush_dirty(&mut thawed).unwrap(), Some(()));
    assert_eq!(thawed.get_view(A.get(), 3), Some(vec![2, 99, 99]));
}

#[test]
fn write_oversize_is_reported_and_not_marked_dirty() {
    let mut store = three_record_store();
    let mut cache: ObjCache<Blob> = ObjCache::new(2);
    let mut r = checkout(&mut cache, &store, A);
    assert!(r.write(&mut cache, Blob::new(vec![1, 2, 3, 4])).is_err());
    assert!(r.inner.dirty.is_none());
    let before = store.get_view(0, 16).unwrap();
    r.release(&mut cache, &mut store).unwrap();
    assert_eq!(cache.flush_dirty(&mut store).unwrap(), Some(()));
    // the oversized value never reached the disk
    assert_eq!(store.get_view(0, 16).unwrap(), before);
}

#[test]
fn scenario_capacity_two_barrier() {
    let mut store = three_record_store();
    let mut cache: ObjCache<Blob> = ObjCache::new(2);
    // make A and B resident
    for addr in [A, B] {
        let r = checkout(&mut cache, &store, addr);
        r.release(&mut cache, &mut store).unwrap();
    }
    // check out C; mutate B and release it (B dirty and resident)
    let c_ref = checkout(&mut cache, &store, C);
    let mut b_ref = checkout(&mut cache, &store, B);
    b_ref.write(&mut cache, Blob::new(vec![77, 77])).unwrap();
    b_ref.release(&mut cache, &mut store).unwrap();
    // the barrier is busy while C is still out
    assert_eq!(cache.flush_dirty(&mut store).unwrap(), None);
    assert_eq!(store.get_view(B.get(), 3), Some(vec![2, 22, 22]));
    // releasing C overfills the cache: A, the least recently used, is evicted
    c_ref.release(&mut cache, &mut store).unwrap();
    assert!(cache.get(A).is_none());
    // now the barrier succeeds and B's bytes are updated on disk
    assert_eq!(cache.flush_dirty(&mut store).unwrap(), Some(()));
    assert_eq!(store.get_view(B.get(), 3), Some(vec![2, 77, 77]));
    // and the dirty set is empty: a second barrier changes nothing
    let after = store.get_view(0, 16).unwrap();
    assert_eq!(cache.flush_dirty(&mut store).unwrap(), Some(()));
    assert_eq!(store.get_view(0, 16).unwrap(), after);
}

#[test]
fn objref_into_inner_hands_the_handle_over() {
    let store = three_record_store();
    let mut cache: ObjCache<Blob> = ObjCache::new(2);
    let r = checkout(&mut cache, &store, A);
    assert_eq!(r.as_addr(), A);
    let obj = r.into_inner();
    assert_eq!(obj.as_addr(), A);
    assert_eq!(obj.into_inner().data, vec![11, 11]);
}
