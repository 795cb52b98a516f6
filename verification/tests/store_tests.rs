use fafka::error::StorageError;
use fafka::store::Store;

#[test]
fn store_append_flush_read_roundtrip() {
    let mut store = Store::new(2048);
    let bytes: Vec<u8> = (0_u8..100_u8).collect();

    store.append(bytes.as_slice()).unwrap();
    store.flush().unwrap();

    assert_eq!(store.read(0, 100).unwrap(), bytes);
}

#[test]
fn store_append_at_capacity_is_refused() {
    let mut store = Store::new(10);

    let full: Vec<u8> = vec![7_u8; 10];
    assert_eq!(store.append(full.as_slice()), Err(StorageError::CapacityExceeded));
    assert_eq!(store.data.len(), 0);

    let half: Vec<u8> = vec![7_u8; 5];
    store.append(half.as_slice()).unwrap();
    assert_eq!(store.data.len(), 5);

    assert_eq!(store.append(half.as_slice()), Err(StorageError::CapacityExceeded));
    assert_eq!(store.data.len(), 5);
}

#[test]
fn store_read_truncates_at_end_of_data() {
    let mut store = Store::new(100);
    store.append(&[1, 2, 3, 4]).unwrap();

    assert_eq!(store.read(2, 10).unwrap(), vec![3, 4]);
    assert_eq!(store.read(50, 10).unwrap(), Vec::<u8>::new());
}

#[test]
fn store_read_past_capacity_is_refused() {
    let mut store = Store::new(100);
    store.append(&[1, 2, 3, 4]).unwrap();

    assert_eq!(store.read(90, 20), Err(StorageError::CapacityExceeded));
    assert_eq!(store.read(99, 1), Err(StorageError::CapacityExceeded));
}

#[test]
fn store_open_positions_writes_at_end() {
    let mut store = Store::open(vec![1, 2, 3], 10);
    store.append(&[4]).unwrap();
    assert_eq!(store.read_all(), vec![1, 2, 3, 4]);
}
