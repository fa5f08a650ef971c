use shale::obj::StoredView;
use shale::record::Blob;
use shale::storable::to_dehydrated;
use shale::storable::Storable;
use shale::store::InMemLinearStore;
use shale::store::LinearStore;
use shale::DiskAddress;
use shale::ShaleError;

fn store_with(bytes: Vec<u8>) -> InMemLinearStore {
    InMemLinearStore::new(bytes, true, 1)
}

#[test]
fn blob_serialize_has_length_prefix() {
    let b = Blob::new(vec![7, 9]);
    assert_eq!(b.serialize(), vec![2, 7, 9]);
    assert_eq!(b.serialized_len(), 3);
    assert_eq!(to_dehydrated(&b), vec![2, 7, 9]);
}

#[test]
fn blob_round_trip() {
    let b = Blob::new(vec![10, 20, 30]);
    let mut store = InMemLinearStore::zeroed(16, 1);
    store.write(5, &b.serialize()).unwrap();
    let back = Blob::deserialize(5, &store).unwrap();
    assert_eq!(back.data, vec![10, 20, 30]);
}

#[test]
fn blob_round_trip_empty() {
    let b = Blob::new(Vec::new());
    let mut store = InMemLinearStore::zeroed(4, 1);
    store.write(0, &b.serialize()).unwrap();
    let back = Blob::deserialize(0, &store).unwrap();
    assert_eq!(back.data, Vec::<u8>::new());
}

#[test]
fn blob_decode_rejects_truncated_payload() {
    // length prefix says 5 bytes follow, but only 2 do
    let store = store_with(vec![5, 1, 2]);
    assert!(Blob::deserialize(0, &store).is_err());
}

#[test]
fn blob_decode_rejects_address_past_end() {
    let store = store_with(vec![1, 2]);
    assert!(matches!(
        Blob::deserialize(9, &store),
        Err(ShaleError::InvalidCacheView { offset: 9, size: 1 })
    ));
}

#[test]
fn get_view_copies_range_or_refuses() {
    let store = store_with(vec![1, 2, 3, 4]);
    assert_eq!(store.get_view(1, 2), Some(vec![2, 3]));
    assert_eq!(store.get_view(3, 2), None);
    assert_eq!(store.size(), 4);
    assert_eq!(store.id(), 1);
    assert!(store.is_writeable());
}

#[test]
fn write_refused_on_immutable_store() {
    let mut store = InMemLinearStore::new(vec![0, 0, 0], false, 2);
    assert_eq!(store.write(0, &vec![1]), Err(ShaleError::ImmutableWrite));
    assert_eq!(store.get_view(0, 3), Some(vec![0, 0, 0]));
    assert!(!store.is_writeable());
}

#[test]
fn write_refused_out_of_bounds() {
    let mut store = InMemLinearStore::zeroed(2, 1);
    assert_eq!(store.write(1, &vec![1, 2]), Err(ShaleError::Io));
    assert_eq!(store.get_view(0, 2), Some(vec![0, 0]));
}

#[test]
fn addr_to_obj_reads_the_record() {
    let store = store_with(vec![0, 2, 8, 9]);
    let obj = StoredView::<Blob>::addr_to_obj(&store, DiskAddress(1), 8).unwrap();
    assert_eq!(obj.as_addr(), DiskAddress(1));
    assert_eq!(obj.value.item.data, vec![8, 9]);
    assert!(obj.dirty.is_none());
}

#[test]
fn modify_marks_dirty_and_flush_writes_through() {
    let mut store = InMemLinearStore::zeroed(8, 1);
    store.write(2, &Blob::new(vec![1]).serialize()).unwrap();
    let mut obj = StoredView::<Blob>::addr_to_obj(&store, DiskAddress(2), 4).unwrap();
    obj.modify(Blob::new(vec![6, 7])).unwrap();
    assert_eq!(obj.dirty, Some(3));
    obj.flush_dirty(&mut store).unwrap();
    assert!(obj.dirty.is_none());
    // a fresh read of the same address yields the mutated serialization
    assert_eq!(store.get_view(2, 3), Some(vec![2, 6, 7]));
    let back = Blob::deserialize(2, &store).unwrap();
    assert_eq!(back.data, vec![6, 7]);
}

#[test]
fn flush_is_idempotent_and_clean_flush_is_a_no_op() {
    let mut store = InMemLinearStore::zeroed(8, 1);
    let mut obj = StoredView::item_to_obj(1, 4, Blob::new(vec![5]));
    obj.modify(Blob::new(vec![6])).unwrap();
    obj.flush_dirty(&mut store).unwrap();
    let snapshot = store.get_view(0, 8).unwrap();
    obj.flush_dirty(&mut store).unwrap();
    assert_eq!(store.get_view(0, 8).unwrap(), snapshot);
}

#[test]
fn oversize_modify_fails_and_leaves_marker_unset() {
    let mut obj = StoredView::item_to_obj(1, 3, Blob::new(vec![5, 5]));
    // the new record serializes to 4 bytes, past the ceiling of 3
    let r = obj.modify(Blob::new(vec![1, 2, 3]));
    assert!(r.is_err());
    assert!(obj.dirty.is_none());
    // the in-memory value stays mutated, but a flush writes nothing
    assert_eq!(obj.value.item.data, vec![1, 2, 3]);
    let mut store = InMemLinearStore::zeroed(8, 1);
    obj.flush_dirty(&mut store).unwrap();
    assert_eq!(store.get_view(0, 8), Some(vec![0; 8]));
}

#[test]
fn serialized_len_respects_ceiling() {
    let view = StoredView::from_hydrated(0, 2, Blob::new(vec![1, 2]));
    assert_eq!(view.serialized_len(), None);
    let view = StoredView::from_hydrated(0, 3, Blob::new(vec![1, 2]));
    assert_eq!(view.serialized_len(), Some(3));
}

#[test]
fn slice_rejects_dirty_parent() {
    let mut parent = StoredView::item_to_obj(4, 8, Blob::new(vec![1, 2]));
    let child = StoredView::slice(&parent, 1, 2, Blob::new(vec![9])).unwrap();
    assert_eq!(child.value.offset, 5);
    assert_eq!(child.value.len_limit, 2);
    parent.modify(Blob::new(vec![3])).unwrap();
    let refused = StoredView::slice(&parent, 1, 2, Blob::new(vec![9]));
    assert!(matches!(refused, Err(ShaleError::InvalidObj { addr: 1 })));
}

#[test]
fn into_inner_moves_the_item_out() {
    let obj = StoredView::item_to_obj(1, 4, Blob::new(vec![3, 4]));
    let item = obj.into_inner();
    assert_eq!(item.data, vec![3, 4]);
}

#[test]
fn null_address_is_offset_zero() {
    assert_eq!(DiskAddress::null().get(), 0);
    assert_eq!(DiskAddress(3).get(), 3);
}

#[test]
fn stored_view_new_decodes_and_binds_the_offset() {
    let store = store_with(vec![0, 1, 42]);
    let view = StoredView::<Blob>::new(1, 8, &store).unwrap();
    assert_eq!(view.get_offset(), 1);
    assert_eq!(view.len_limit, 8);
    assert_eq!(view.item.data, vec![42]);
    assert!(StoredView::<Blob>::new(2, 8, &store).is_err());
}

#[test]
fn mut_item_ref_edits_the_item_in_place() {
    let mut view = StoredView::from_hydrated(0, 8, Blob::new(vec![1]));
    mut_item_ref_helper(&mut view);
    assert_eq!(view.item.data, vec![1, 2]);
}

fn mut_item_ref_helper(view: &mut StoredView<Blob>) {
    let item = view.mut_item_ref();
    item.data.push(2);
}
