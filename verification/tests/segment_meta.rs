use fastfield::segment_meta::{SegmentId, SegmentMeta};

#[test]
fn new_segment_is_empty() {
    let id = SegmentId { uuid: 0x1234_5678_9ABC_DEF0_1234_5678_9ABC_DEF0 };
    let meta = SegmentMeta::new(id);
    assert_eq!(meta.id(), id);
    assert_eq!(meta.max_doc(), 0);
    assert_eq!(meta.num_docs(), 0);
    assert_eq!(meta.num_deleted_docs(), 0);
    assert_eq!(meta.delete_opstamp(), None);
    assert!(!meta.has_deletes());
}

#[test]
fn deletes_are_counted_off() {
    let mut meta = SegmentMeta::new(SegmentId { uuid: 7 });
    meta.set_max_doc(100);
    assert_eq!(meta.max_doc(), 100);
    assert_eq!(meta.num_docs(), 100);
    meta.set_delete_meta(30, 5);
    assert!(meta.has_deletes());
    assert_eq!(meta.num_deleted_docs(), 30);
    assert_eq!(meta.delete_opstamp(), Some(5));
    assert_eq!(meta.num_docs(), 70);
    meta.set_delete_meta(100, 5);
    assert_eq!(meta.num_docs(), 0);
    assert_eq!(meta.delete_opstamp(), Some(5));
    meta.set_max_doc(u32::MAX);
    meta.set_delete_meta(100, u64::MAX);
    assert_eq!(meta.num_docs(), u32::MAX - 100);
    assert_eq!(meta.delete_opstamp(), Some(u64::MAX));
    assert_eq!(meta.id(), SegmentId { uuid: 7 });
    let copy = meta.clone();
    assert_eq!(copy.num_docs(), meta.num_docs());
}

#[test]
fn deletes_of_nothing() {
    let mut meta = SegmentMeta::new(SegmentId { uuid: 1 });
    meta.set_delete_meta(0, 0);
    assert!(meta.has_deletes());
    assert_eq!(meta.num_deleted_docs(), 0);
    assert_eq!(meta.delete_opstamp(), Some(0));
    assert_eq!(meta.num_docs(), 0);
}

fn deleted_count_of(meta: &SegmentMeta) -> (bool, u32, u32) {
    (meta.has_deletes(), meta.num_deleted_docs(), meta.num_docs())
}

#[test]
fn without_deletes_nothing_is_deleted() {
    let mut meta = SegmentMeta::new(SegmentId { uuid: 2 });
    assert_eq!(deleted_count_of(&meta), (false, 0, 0));
    meta.set_max_doc(41);
    assert_eq!(deleted_count_of(&meta), (false, 0, 41));
    meta.set_delete_meta(40, 3);
    assert_eq!(deleted_count_of(&meta), (true, 40, 1));
    meta.set_delete_meta(7, 3);
    assert_eq!(deleted_count_of(&meta), (true, 7, 34));
}
