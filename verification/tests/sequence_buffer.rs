use renet::sequence_buffer::{sequence_greater_than, sequence_less_than, SequenceBuffer};

#[derive(Clone, Default)]
struct DataStub;

#[test]
fn max_sequence_not_exists_by_default() {
    let buffer: SequenceBuffer<DataStub> = SequenceBuffer::with_capacity(8);
    assert!(!buffer.contains(u64::max_value()));
}

#[test]
fn insert() {
    let mut buffer: SequenceBuffer<DataStub> = SequenceBuffer::with_capacity(2);
    buffer.insert(0, DataStub).unwrap();
    assert!(buffer.contains(0));
}

#[test]
fn remove() {
    let mut buffer: SequenceBuffer<DataStub> = SequenceBuffer::with_capacity(2);
    buffer.insert(0, DataStub).unwrap();
    let removed = buffer.remove(0);
    assert!(removed.is_some());
    assert!(!buffer.contains(0));
}

#[test]
fn insert_over_older_entries() {
    let mut buffer: SequenceBuffer<DataStub> = SequenceBuffer::with_capacity(8);
    buffer.insert(8, DataStub).unwrap();
    buffer.insert(0, DataStub);
    assert!(!buffer.contains(0));

    buffer.insert(16, DataStub);
    assert!(buffer.contains(16));

    assert_eq!(buffer.num_entries(), 1);
}

#[test]
fn insert_old_entries() {
    let mut buffer: SequenceBuffer<DataStub> = SequenceBuffer::with_capacity(8);
    buffer.insert(11, DataStub);
    buffer.insert(2, DataStub);
    assert!(!buffer.contains(2));

    buffer.insert(u64::max_value(), DataStub);
    assert!(!buffer.contains(u64::max_value()));

    assert_eq!(buffer.num_entries(), 1);
}

#[test]
fn available() {
    let mut buffer: SequenceBuffer<DataStub> = SequenceBuffer::with_capacity(2);
    buffer.insert(0, DataStub).unwrap();
    buffer.insert(1, DataStub).unwrap();
    assert!(!buffer.available(2));
}

#[test]
fn get_returns_inserted_value() {
    let mut buffer: SequenceBuffer<u32> = SequenceBuffer::with_capacity(4);
    buffer.insert(5, 50).unwrap();
    assert_eq!(buffer.get(5), Some(&50));
    assert_eq!(buffer.get(1), None);
    *buffer.get_mut(5).unwrap() = 51;
    assert_eq!(buffer.get(5), Some(&51));
    assert_eq!(buffer.sequence(), 6);
    assert_eq!(buffer.size(), 4);
    assert_eq!(buffer.index(6), 2);
}

#[test]
fn get_or_insert_with_keeps_existing() {
    let mut buffer: SequenceBuffer<u32> = SequenceBuffer::with_capacity(4);
    buffer.insert(3, 30).unwrap();
    assert_eq!(*buffer.get_or_insert_with(3, || 99).unwrap(), 30);
    assert_eq!(*buffer.get_or_insert_with(4, || 40).unwrap(), 40);
    assert_eq!(buffer.num_entries(), 2);
}

#[test]
fn too_old_sequence_is_refused() {
    let mut buffer: SequenceBuffer<u32> = SequenceBuffer::with_capacity(4);
    buffer.insert(0, 0).unwrap();
    buffer.insert(1, 1).unwrap();
    buffer.insert(6, 6).unwrap();
    assert!(buffer.contains(1));
    assert!(buffer.contains(6));
    assert_eq!(buffer.sequence(), 7);
    assert!(buffer.insert(2, 2).is_none());
    assert!(!buffer.contains(2));
    assert!(buffer.insert(3, 3).is_some());
}

#[test]
fn sequence_order_wraps_around() {
    assert!(sequence_greater_than(1, 0));
    assert!(sequence_greater_than(0, u16::MAX));
    assert!(!sequence_greater_than(0, 0));
    assert!(sequence_less_than(u16::MAX, 0));
    assert!(sequence_less_than(10, 20));
    assert!(!sequence_less_than(20, 10));
}

#[test]
fn removed_slot_is_available_and_insert_keeps_other_slots() {
    let mut buffer: SequenceBuffer<u8> = SequenceBuffer::with_capacity(4);
    buffer.insert(1, 10).unwrap();
    buffer.insert(2, 20).unwrap();
    assert!(!buffer.available(5));
    buffer.remove(1);
    assert!(buffer.available(5));
    buffer.insert(6, 60).unwrap();
    assert!(!buffer.contains(2));
    assert!(buffer.contains(6));
    assert_eq!(buffer.sequence(), 7);
    assert_eq!(*buffer.get_or_insert_with(7, || 70).unwrap(), 70);
    assert_eq!(buffer.sequence(), 8);
    assert_eq!(*buffer.get_or_insert_with(7, || 71).unwrap(), 70);
    assert!(buffer.get_or_insert_with(3, || 30).is_none());
    assert_eq!(buffer.sequence(), 8);
}
