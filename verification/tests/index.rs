use actionkv::index::Index;
use actionkv::log::LogFile;
use actionkv::record::{encode, Error};

#[test]
fn new_index_knows_no_key() {
    let index = Index::new();
    assert_eq!(index.get(b"a"), None);
    assert_eq!(index.get(b""), None);
}

#[test]
fn set_then_get_returns_the_offset() {
    let mut index = Index::new();
    index.set(b"a", 10);
    index.set(b"b", 20);
    index.set(b"", 30);
    assert_eq!(index.get(b"a"), Some(10));
    assert_eq!(index.get(b"b"), Some(20));
    assert_eq!(index.get(b""), Some(30));
    assert_eq!(index.get(b"ab"), None);
}

#[test]
fn set_overwrites_the_earlier_offset() {
    let mut index = Index::new();
    index.set(b"a", 10);
    index.set(b"b", 20);
    index.set(b"a", 30);
    assert_eq!(index.get(b"a"), Some(30));
    assert_eq!(index.get(b"b"), Some(20));
    assert_eq!(index.remove(b"a"), Some(30));
    assert_eq!(index.get(b"a"), None);
}

#[test]
fn remove_forgets_only_that_key() {
    let mut index = Index::new();
    index.set(b"a", 1);
    index.set(b"b", 2);
    index.set(b"c", 3);
    assert_eq!(index.remove(b"b"), Some(2));
    assert_eq!(index.remove(b"b"), None);
    assert_eq!(index.remove(b"never set"), None);
    assert_eq!(index.get(b"a"), Some(1));
    assert_eq!(index.get(b"b"), None);
    assert_eq!(index.get(b"c"), Some(3));
}

#[test]
fn keys_are_told_apart_byte_by_byte() {
    let mut index = Index::new();
    index.set(b"abc", 1);
    index.set(b"abd", 2);
    index.set(b"ab", 3);
    index.set(b"abc\0", 4);
    assert_eq!(index.get(b"abc"), Some(1));
    assert_eq!(index.get(b"abd"), Some(2));
    assert_eq!(index.get(b"ab"), Some(3));
    assert_eq!(index.get(b"abc\0"), Some(4));
}

#[test]
fn rebuild_maps_each_key_to_its_last_record() {
    let mut log = LogFile::new();
    log.append(&encode(b"a", b"1").unwrap());
    log.append(&encode(b"b", b"2").unwrap());
    log.append(&encode(b"a", b"3").unwrap());
    let index = Index::rebuild(&log).unwrap();
    assert_eq!(index.get(b"a"), Some(28));
    assert_eq!(index.get(b"b"), Some(14));
    assert_eq!(index.get(b"c"), None);
}

#[test]
fn rebuild_of_an_empty_log_is_empty() {
    let index = Index::rebuild(&LogFile::new()).unwrap();
    assert_eq!(index.get(b"a"), None);
}

#[test]
fn rebuild_twice_gives_the_same_mapping() {
    let mut log = LogFile::new();
    let keys: Vec<&[u8]> = vec![b"a", b"b", b"a", b"c", b"b", b"a", b""];
    for (i, key) in keys.iter().enumerate() {
        log.append(&encode(key, &[i as u8 + 1]).unwrap());
    }
    let first = Index::rebuild(&log).unwrap();
    let second = Index::rebuild(&log).unwrap();
    let probes: Vec<&[u8]> = vec![b"a", b"b", b"c", b"", b"d"];
    for key in probes {
        assert_eq!(first.get(key), second.get(key));
    }
    assert_eq!(first.get(b"a"), Some(70));
    assert_eq!(first.get(b"b"), Some(56));
    assert_eq!(first.get(b"c"), Some(42));
    assert_eq!(first.get(b""), Some(84));
    assert_eq!(first.get(b"d"), None);
}

#[test]
fn rebuild_fails_on_a_corrupted_log() {
    let mut bytes = encode(b"a", b"1").unwrap();
    bytes[12] = b'b';
    let log = LogFile::from_bytes(bytes);
    assert!(matches!(Index::rebuild(&log), Err(Error::Corrupted { .. })));
}
