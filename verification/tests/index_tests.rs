use fafka::error::StorageError;
use fafka::index::Entry;
use fafka::index::Index;

fn persisted_form(entries: &[Entry]) -> Vec<u8> {
    let mut bytes = Vec::new();
    for e in entries {
        bytes.extend_from_slice(&e.offset.to_le_bytes());
        bytes.extend_from_slice(&e.start.to_le_bytes());
        bytes.extend_from_slice(&e.size.to_le_bytes());
    }
    bytes
}

#[test]
fn index_test_write() {
    let mut index = Index::new(0, 2048);

    let indices: Vec<Entry> = vec![Entry::new(0, 1024, 0), Entry::new(2, 2048, 1024)];

    index.append(indices.clone()).unwrap();
    index.flush().unwrap();

    let bytes = persisted_form(&indices);

    let written = index.store.read_all();
    assert_eq!(bytes, written);
}

#[test]
fn index_test_read() {
    let mut index = Index::new(0, 2048);

    let mut indices: Vec<Entry> = vec![Entry::new(0, 1024, 0), Entry::new(2, 2048, 1024)];

    index.append(indices.clone()).unwrap();
    index.flush().unwrap();

    index.read().unwrap();

    let mut read: Vec<Entry> = index.entries.values().copied().collect();

    read.sort();
    indices.sort();

    assert_eq!(indices, read,);
}

#[test]
fn index_reopen_rebuilds_mapping() {
    let mut index = Index::new(0, 4096);
    index.append(vec![Entry::new(0, 100, 0), Entry::new(1, 102, 100)]).unwrap();
    index.append(vec![Entry::new(2, 50, 202)]).unwrap();
    index.flush().unwrap();

    let reopened = Index::open(index.store.read_all(), 0, 4096).unwrap();

    for offset in 0..3 {
        assert_eq!(reopened.get(offset), index.get(offset));
        assert!(reopened.get(offset).is_some());
    }
    assert_eq!(reopened.entries.len(), index.entries.len());
}

#[test]
fn index_reopen_last_duplicate_wins() {
    let mut index = Index::new(0, 4096);
    index.append(vec![Entry::new(7, 10, 0)]).unwrap();
    index.append(vec![Entry::new(7, 20, 50)]).unwrap();

    assert_eq!(index.get(7), Some(&Entry::new(7, 20, 50)));

    let reopened = Index::open(index.store.read_all(), 0, 4096).unwrap();
    assert_eq!(reopened.get(7), Some(&Entry::new(7, 20, 50)));
    assert_eq!(reopened.entries.len(), 1);
}

#[test]
fn index_get_missing_offset_is_not_found() {
    let mut index = Index::new(0, 4096);
    assert!(index.get(0).is_none());

    index.append(vec![Entry::new(0, 100, 0), Entry::new(2, 50, 100)]).unwrap();

    assert!(index.get(1).is_none());
    assert!(index.get(3).is_none());
    assert!(index.get(0).is_some());
}

#[test]
fn index_open_rejects_truncated_file() {
    let mut bytes = persisted_form(&[Entry::new(0, 100, 0)]);
    bytes.pop();

    assert!(matches!(Index::open(bytes, 0, 4096), Err(StorageError::DecodeFailure)));
}

#[test]
fn index_append_updates_last_offset_from_batch() {
    let mut index = Index::new(0, 4096);
    index.append(vec![Entry::new(3, 10, 0), Entry::new(9, 10, 10), Entry::new(5, 10, 20)]).unwrap();
    assert_eq!(index.last_offset, 9);

    index.append(vec![Entry::new(4, 10, 30)]).unwrap();
    assert_eq!(index.last_offset, 4);
}

#[test]
fn index_append_at_capacity_is_refused() {
    let mut index = Index::new(0, 12);
    let r = index.append(vec![Entry::new(0, 100, 0)]);
    assert_eq!(r, Err(StorageError::CapacityExceeded));
    assert_eq!(index.store.data.len(), 0);
    assert!(index.get(0).is_some());
}
