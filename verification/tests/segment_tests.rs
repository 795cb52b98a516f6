use fafka::error::StorageError;
use fafka::index::Entry;
use fafka::segment::Segment;

#[test]
fn segment_test_create() {
    for i in 0..5 {
        let segment = Segment::new(i);

        assert!(segment.log.store.data.is_empty());
        assert_eq!(segment.start_offset, i);
    }
}

#[test]
fn test_read_write() {
    let index: Vec<Entry> = vec![
        Entry::new(0, 100, 0),
        Entry::new(1, 102, 100),
        Entry::new(2, 50, 202),
    ];

    let seq = (0_u8..252_u8).collect::<Vec<u8>>();
    let records: &[u8] = seq.as_ref();
    let mut segment = Segment::new(0);

    segment.append(index.clone(), records).unwrap();
    segment.flush().unwrap();

    let (entries, written) = segment.read(0, 2).unwrap();
    assert_eq!(written, records.to_vec());
    assert_eq!(entries, index);
}

#[test]
fn contiguous_entries_coalesce_into_one_span() {
    let index: Vec<Entry> = vec![
        Entry::new(0, 100, 0),
        Entry::new(1, 102, 100),
        Entry::new(2, 50, 202),
    ];
    let payload: Vec<u8> = (0..252).map(|i| (i % 256) as u8).collect();

    let mut segment = Segment::new(0);
    segment.append(index.clone(), payload.as_slice()).unwrap();
    segment.flush().unwrap();

    let (entries, bytes) = segment.read(0, 2).unwrap();
    assert_eq!(entries, index);
    assert_eq!(bytes, payload[0..252].to_vec());
}

#[test]
fn non_contiguous_entries_read_as_two_spans() {
    let index: Vec<Entry> = vec![Entry::new(0, 100, 0), Entry::new(2, 50, 500)];
    let payload: Vec<u8> = (0..550).map(|i| (i % 256) as u8).collect();

    let mut segment = Segment::new(0);
    segment.append(index.clone(), payload.as_slice()).unwrap();
    segment.flush().unwrap();

    let (entries, bytes) = segment.read(0, 2).unwrap();

    assert_eq!(entries, index);
    let mut expected = payload[0..100].to_vec();
    expected.extend_from_slice(&payload[500..550]);
    assert_eq!(bytes, expected);
}

#[test]
fn append_then_ranged_read_returns_payload() {
    let entries = vec![Entry::new(0, 1024, 0), Entry::new(1, 2048, 1024)];
    let payload: Vec<u8> = (0..2048).map(|i| (i % 251) as u8).collect();

    let mut segment = Segment::new(0);
    segment.append(entries.clone(), payload.as_slice()).unwrap();
    segment.flush().unwrap();

    let (read_entries, bytes) = segment.read(0, 1).unwrap();
    assert_eq!(bytes, payload);
    assert_eq!(read_entries, entries);
}

#[test]
fn read_is_clamped_to_last_offset() {
    let entries = vec![Entry::new(0, 100, 0), Entry::new(1, 100, 100)];
    let payload: Vec<u8> = vec![9_u8; 200];

    let mut segment = Segment::new(0);
    segment.append(entries.clone(), payload.as_slice()).unwrap();

    let clamped = segment.read(0, 1000).unwrap();
    let exact = segment.read(0, 1).unwrap();
    assert_eq!(clamped, exact);
}

#[test]
fn read_of_empty_range_returns_nothing() {
    let entries = vec![Entry::new(0, 100, 0), Entry::new(2, 50, 100)];
    let payload: Vec<u8> = vec![1_u8; 150];

    let mut segment = Segment::new(0);
    segment.append(entries, payload.as_slice()).unwrap();

    let (read_entries, bytes) = segment.read(5, 9).unwrap();
    assert!(read_entries.is_empty());
    assert!(bytes.is_empty());
}

#[test]
fn read_past_capacity_is_refused() {
    let mut segment = Segment::new(0);
    segment.append(vec![Entry::new(0, u32::MAX, u32::MAX)], &[]).unwrap();

    assert_eq!(segment.read(0, 0), Err(StorageError::CapacityExceeded));
}

#[test]
fn reopened_segment_holds_same_entries() {
    let entries = vec![Entry::new(0, 100, 0), Entry::new(1, 102, 100)];
    let payload: Vec<u8> = vec![3_u8; 202];

    let mut segment = Segment::new(0);
    segment.append(entries.clone(), payload.as_slice()).unwrap();
    segment.flush().unwrap();

    let reopened = Segment::open(
        0,
        segment.log.store.read_all(),
        segment.index.store.read_all(),
    )
    .unwrap();

    assert_eq!(reopened.index.get(0), segment.index.get(0));
    assert_eq!(reopened.index.get(1), segment.index.get(1));
    assert!(reopened.index.get(2).is_none());
    assert_eq!(reopened.log.store.read_all(), segment.log.store.read_all());
    assert_eq!(reopened.index.last_offset, 0);
}
