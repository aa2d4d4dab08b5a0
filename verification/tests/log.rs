use actionkv::log::LogFile;
use actionkv::record::{encode, Error, KeyValuePair};

fn kv(key: &[u8], value: &[u8]) -> KeyValuePair {
    KeyValuePair { key: key.to_vec(), value: value.to_vec() }
}

#[test]
fn new_log_is_empty() {
    let log = LogFile::new();
    assert_eq!(log.len(), 0);
    assert_eq!(log.as_bytes(), &[] as &[u8]);
    assert_eq!(log.scan_from_start(), Ok(vec![]));
}

#[test]
fn append_returns_offset_where_write_began() {
    let mut log = LogFile::new();
    assert_eq!(log.append(b"abc"), 0);
    assert_eq!(log.append(b""), 3);
    assert_eq!(log.append(b"defgh"), 3);
    assert_eq!(log.append(b"i"), 8);
    assert_eq!(log.len(), 9);
    assert_eq!(log.as_bytes(), b"abcdefghi");
}

#[test]
fn from_bytes_keeps_content_and_appends_after_it() {
    let mut log = LogFile::from_bytes(b"old".to_vec());
    assert_eq!(log.len(), 3);
    assert_eq!(log.append(b"new"), 3);
    assert_eq!(log.as_bytes(), b"oldnew");
}

#[test]
fn read_at_decodes_the_record_at_the_offset() {
    let mut log = LogFile::new();
    let first = log.append(&encode(b"a", b"1").unwrap());
    let second = log.append(&encode(b"bb", b"22").unwrap());
    let third = log.append(&encode(b"", b"").unwrap());
    assert_eq!((first, second, third), (0, 14, 30));
    assert_eq!(log.read_at(first), Ok(kv(b"a", b"1")));
    assert_eq!(log.read_at(second), Ok(kv(b"bb", b"22")));
    assert_eq!(log.read_at(third), Ok(kv(b"", b"")));
}

#[test]
fn read_at_or_past_the_end_is_unexpected_eof() {
    let mut log = LogFile::new();
    assert_eq!(log.read_at(0), Err(Error::UnexpectedEof));
    log.append(&encode(b"a", b"1").unwrap());
    assert_eq!(log.read_at(14), Err(Error::UnexpectedEof));
    assert_eq!(log.read_at(15), Err(Error::UnexpectedEof));
    assert_eq!(log.read_at(u64::MAX), Err(Error::UnexpectedEof));
    assert_eq!(log.read_at(5), Err(Error::UnexpectedEof));
}

#[test]
fn scan_yields_every_record_with_its_offset() {
    let mut log = LogFile::new();
    log.append(&encode(b"a", b"1").unwrap());
    log.append(&encode(b"b", b"2").unwrap());
    log.append(&encode(b"a", b"").unwrap());
    log.append(&encode(b"long key", b"3").unwrap());
    assert_eq!(
        log.scan_from_start(),
        Ok(vec![
            (0, kv(b"a", b"1")),
            (14, kv(b"b", b"2")),
            (28, kv(b"a", b"")),
            (41, kv(b"long key", b"3")),
        ])
    );
}

#[test]
fn scan_can_be_run_again() {
    let mut log = LogFile::new();
    log.append(&encode(b"a", b"1").unwrap());
    log.append(&encode(b"b", b"2").unwrap());
    let first = log.scan_from_start();
    let second = log.scan_from_start();
    assert_eq!(first, second);
    assert_eq!(first.unwrap().len(), 2);
}

#[test]
fn scan_stops_at_a_corrupted_record() {
    let mut bytes = encode(b"a", b"1").unwrap();
    let mut bad = encode(b"b", b"2").unwrap();
    let stored = u32::from_le_bytes([bad[0], bad[1], bad[2], bad[3]]);
    bad[13] = b'3';
    bytes.extend_from_slice(&bad);
    bytes.extend_from_slice(&encode(b"c", b"3").unwrap());
    let log = LogFile::from_bytes(bytes);
    assert_eq!(
        log.scan_from_start(),
        Err(Error::Corrupted { stored, computed: crc::crc32::checksum_ieee(b"b3") })
    );
    assert_eq!(log.read_at(0), Ok(kv(b"a", b"1")));
    assert_eq!(log.read_at(28), Ok(kv(b"c", b"3")));
}

#[test]
fn scan_of_a_truncated_tail_is_unexpected_eof() {
    let mut bytes = encode(b"a", b"1").unwrap();
    let second = encode(b"b", b"2").unwrap();
    bytes.extend_from_slice(&second[..second.len() - 1]);
    assert_eq!(LogFile::from_bytes(bytes).scan_from_start(), Err(Error::UnexpectedEof));
    let mut bytes = encode(b"a", b"1").unwrap();
    bytes.extend_from_slice(&[0, 0, 0]);
    assert_eq!(LogFile::from_bytes(bytes).scan_from_start(), Err(Error::UnexpectedEof));
}
