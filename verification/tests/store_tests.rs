use kvstore::ActionKV;
use kvstore::KvError;

/// Serializes one record the way the store lays it out on disk: checksum,
/// key length, value length (big-endian), key bytes, value bytes.
fn record(key: &[u8], value: &[u8]) -> Vec<u8> {
    let mut payload = Vec::new();
    payload.extend_from_slice(key);
    payload.extend_from_slice(value);
    let checksum = crc::Crc::<u32>::new(&crc::CRC_32_CKSUM).checksum(&payload);
    let mut out = Vec::new();
    out.extend_from_slice(&checksum.to_be_bytes());
    out.extend_from_slice(&(key.len() as u32).to_be_bytes());
    out.extend_from_slice(&(value.len() as u32).to_be_bytes());
    out.extend_from_slice(&payload);
    out
}

#[test]
fn round_trip_basic() {
    let mut s = ActionKV::open(Vec::new()).unwrap();
    s.insert("a".to_string(), "1".to_string()).unwrap();
    assert_eq!(s.get("a".to_string()).unwrap(), "1");
}

#[test]
fn round_trip_empty_value() {
    let mut s = ActionKV::open(Vec::new()).unwrap();
    s.insert("k".to_string(), String::new()).unwrap();
    assert_eq!(s.get("k".to_string()).unwrap(), "");
}

#[test]
fn round_trip_empty_key() {
    let mut s = ActionKV::open(Vec::new()).unwrap();
    s.insert(String::new(), "v".to_string()).unwrap();
    assert_eq!(s.get(String::new()).unwrap(), "v");
}

#[test]
fn round_trip_non_ascii() {
    let mut s = ActionKV::open(Vec::new()).unwrap();
    s.insert("h\u{e9}llo".to_string(), "w\u{f6}rld \u{2713}".to_string())
        .unwrap();
    assert_eq!(
        s.get("h\u{e9}llo".to_string()).unwrap(),
        "w\u{f6}rld \u{2713}"
    );
}

#[test]
fn last_write_wins() {
    let mut s = ActionKV::open(Vec::new()).unwrap();
    s.insert("k".to_string(), "v1".to_string()).unwrap();
    s.insert("k".to_string(), "v2".to_string()).unwrap();
    assert_eq!(s.get("k".to_string()).unwrap(), "v2");
}

#[test]
fn update_behaves_like_insert() {
    let mut s = ActionKV::open(Vec::new()).unwrap();
    s.update("fresh".to_string(), "1".to_string()).unwrap();
    assert_eq!(s.get("fresh".to_string()).unwrap(), "1");
    s.update("fresh".to_string(), "2".to_string()).unwrap();
    assert_eq!(s.get("fresh".to_string()).unwrap(), "2");
}

#[test]
fn delete_then_get_returns_empty() {
    let mut s = ActionKV::open(Vec::new()).unwrap();
    s.insert("k".to_string(), "value".to_string()).unwrap();
    s.delete("k".to_string()).unwrap();
    assert_eq!(s.get("k".to_string()).unwrap(), "");
}

#[test]
fn delete_absent_fails_not_found() {
    let mut s = ActionKV::open(Vec::new()).unwrap();
    assert_eq!(s.delete("never".to_string()).unwrap_err(), KvError::NotFound);
}

#[test]
fn get_absent_fails_not_found() {
    let s = ActionKV::open(Vec::new()).unwrap();
    assert_eq!(s.get("never".to_string()).unwrap_err(), KvError::NotFound);
}

#[test]
fn reopen_preserves_every_get() {
    let mut s = ActionKV::open(Vec::new()).unwrap();
    s.insert("a".to_string(), "1".to_string()).unwrap();
    s.insert("b".to_string(), "2".to_string()).unwrap();
    s.insert("a".to_string(), "3".to_string()).unwrap();
    s.delete("b".to_string()).unwrap();
    let reopened = ActionKV::open(s.log_bytes().clone()).unwrap();
    for key in ["a", "b", "c", ""] {
        assert_eq!(s.get(key.to_string()), reopened.get(key.to_string()));
    }
}

#[test]
fn scenario_insert_update_delete_reopen() {
    let mut s = ActionKV::open(Vec::new()).unwrap();
    s.insert("a".to_string(), "1".to_string()).unwrap();
    s.insert("b".to_string(), "2".to_string()).unwrap();
    s.update("a".to_string(), "3".to_string()).unwrap();
    s.delete("b".to_string()).unwrap();
    let s = ActionKV::open(s.log_bytes().clone()).unwrap();
    assert_eq!(s.get("a".to_string()).unwrap(), "3");
    assert_eq!(s.get("b".to_string()).unwrap(), "");
    assert_eq!(s.get("c".to_string()).unwrap_err(), KvError::NotFound);
}

#[test]
fn record_layout_and_checksum() {
    // CRC-32/CKSUM of the bytes "123456789" is the algorithm's published
    // check value 0x765e7680; the record is that checksum, the two lengths,
    // and the payload, all big-endian.
    let mut s = ActionKV::open(Vec::new()).unwrap();
    s.insert("1234".to_string(), "56789".to_string()).unwrap();
    let mut expected = vec![0x76, 0x5e, 0x76, 0x80, 0, 0, 0, 4, 0, 0, 0, 5];
    expected.extend_from_slice(b"123456789");
    assert_eq!(s.log_bytes(), &expected);
}

#[test]
fn append_only_growth() {
    let mut s = ActionKV::open(Vec::new()).unwrap();
    let mut prev_len = s.log_bytes().len();
    let mut prev_log = s.log_bytes().clone();
    s.insert("a".to_string(), "1".to_string()).unwrap();
    for step in 0..4 {
        match step {
            0 => s.insert("b".to_string(), "2".to_string()).unwrap(),
            1 => s.update("a".to_string(), "3".to_string()).unwrap(),
            2 => s.delete("a".to_string()).unwrap(),
            _ => s.insert("a".to_string(), String::new()).unwrap(),
        }
        let log = s.log_bytes();
        assert!(log.len() >= prev_len);
        assert_eq!(&log[..prev_log.len()], &prev_log[..]);
        prev_len = log.len();
        prev_log = log.clone();
    }
}

#[test]
fn bit_flip_in_payload_is_corruption() {
    let mut s = ActionKV::open(Vec::new()).unwrap();
    s.insert("alpha".to_string(), "beta".to_string()).unwrap();
    let good = s.log_bytes().clone();
    // Every bit of the key and value bytes, which start after the 12-byte
    // header.
    for byte in 12..good.len() {
        for bit in 0..8 {
            let mut bad = good.clone();
            bad[byte] ^= 1 << bit;
            assert_eq!(
                ActionKV::open(bad).unwrap_err(),
                KvError::Corruption,
                "byte {byte} bit {bit}"
            );
        }
    }
}

#[test]
fn bit_flip_in_stored_checksum_is_corruption() {
    let mut s = ActionKV::open(Vec::new()).unwrap();
    s.insert("alpha".to_string(), "beta".to_string()).unwrap();
    let good = s.log_bytes().clone();
    for byte in 0..4 {
        let mut bad = good.clone();
        bad[byte] ^= 0x40;
        assert_eq!(ActionKV::open(bad).unwrap_err(), KvError::Corruption);
    }
}

#[test]
fn corrupt_record_blocks_get_after_reopen() {
    // A store with a corrupted middle record fails to open, so no get can
    // return a wrong value for it.
    let mut log = Vec::new();
    log.extend_from_slice(&record(b"a", b"1"));
    let mut middle = record(b"b", b"2");
    middle[13] ^= 0x01;
    log.extend_from_slice(&middle);
    log.extend_from_slice(&record(b"c", b"3"));
    assert_eq!(ActionKV::open(log).unwrap_err(), KvError::Corruption);
}

#[test]
fn truncated_header_fails_io() {
    let log = vec![0u8; 5];
    assert_eq!(ActionKV::open(log).unwrap_err(), KvError::Io);
}

#[test]
fn truncated_payload_fails_io() {
    let mut log = record(b"key", b"value");
    log.pop();
    assert_eq!(ActionKV::open(log).unwrap_err(), KvError::Io);
}

#[test]
fn empty_log_opens_empty() {
    let s = ActionKV::open(Vec::new()).unwrap();
    assert!(s.log_bytes().is_empty());
    assert_eq!(s.get("anything".to_string()).unwrap_err(), KvError::NotFound);
}

#[test]
fn handwritten_records_are_readable() {
    let mut log = Vec::new();
    log.extend_from_slice(&record(b"one", b"first"));
    log.extend_from_slice(&record(b"two", b"second"));
    log.extend_from_slice(&record(b"one", b"replaced"));
    let s = ActionKV::open(log).unwrap();
    assert_eq!(s.get("one".to_string()).unwrap(), "replaced");
    assert_eq!(s.get("two".to_string()).unwrap(), "second");
}

#[test]
fn invalid_utf8_key_decodes_lossily() {
    // A key that is not valid UTF-8 is looked up under its lossy decoding,
    // with the replacement character in place of the bad byte.
    let raw_key = [0xff, b'a'];
    let log = record(&raw_key, b"x");
    let s = ActionKV::open(log).unwrap();
    let lossy_key = String::from_utf8_lossy(&raw_key).into_owned();
    assert_eq!(lossy_key, "\u{fffd}a");
    assert_eq!(s.get(lossy_key).unwrap(), "x");
}

#[test]
fn invalid_utf8_value_decodes_lossily() {
    let log = record(b"k", &[b'v', 0xfe]);
    let s = ActionKV::open(log).unwrap();
    assert_eq!(s.get("k".to_string()).unwrap(), "v\u{fffd}");
}
