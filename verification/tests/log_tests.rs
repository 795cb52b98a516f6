use fafka::log::Log;

#[test]
fn mod_test_create() {
    for index in 0..5 {
        let log = Log::new(index, 1);
        assert_eq!(log.start_offset, index);
        assert!(log.store.data.is_empty());
    }
}

#[test]
fn mod_test_write() {
    let mut log = Log::new(0, 2048);

    let seq: Vec<u8> = (0_u8..255_u8).collect();
    log.append(seq.as_slice()).unwrap();
}

#[test]
#[should_panic]
fn mod_test_greedy_write() {
    let mut log = Log::new(0, 100);

    let seq: Vec<u8> = (0_u8..255_u8).collect();
    log.append(seq.as_slice()).unwrap();
}

#[test]
fn mod_test_read() {
    let mut log = Log::new(0, 2048);
    let seq: Vec<u8> = (0_u8..255_u8).collect();

    log.append(seq.as_slice()).unwrap();
    log.flush().unwrap();
    assert_eq!(log.read(0, 255).unwrap(), seq)
}

#[test]
#[should_panic]
fn mod_test_greedy_read() {
    let mut log = Log::new(0, 256);
    let seq: Vec<u8> = (0_u8..255_u8).collect();

    log.append(seq.as_slice()).unwrap();
    log.flush().unwrap();
    log.read(555, 1).unwrap();
}

#[test]
fn log_test_create() {
    for index in 0..5 {
        let log = Log::new(index, 1);
        assert_eq!(log.start_offset, index);
        assert!(log.store.data.is_empty());
    }
}

#[test]
fn log_test_write() {
    let mut log = Log::new(0, 2048);

    let seq: Vec<u8> = (0_u8..255_u8).collect();
    log.append(seq.as_slice()).unwrap();
    log.flush().unwrap();

    let written = log.store.read_all();
    assert_eq!(seq, written);
}

#[test]
#[should_panic]
fn log_test_greedy_write() {
    let mut log = Log::new(0, 100);

    let seq: Vec<u8> = (0_u8..255_u8).collect();
    log.append(seq.as_slice()).unwrap();
}

#[test]
fn log_test_read() {
    let mut log = Log::new(0, 2048);
    let seq: Vec<u8> = (0_u8..255_u8).collect();

    log.append(seq.as_slice()).unwrap();
    log.flush().unwrap();
    assert_eq!(log.read(0, 255).unwrap(), seq)
}

#[test]
#[should_panic]
fn log_test_greedy_read() {
    let mut log = Log::new(0, 256);
    let seq: Vec<u8> = (0_u8..255_u8).collect();

    log.append(seq.as_slice()).unwrap();
    log.flush().unwrap();
    log.read(555, 1).unwrap();
}
