use actionkv::record::{encode, Error};
use actionkv::store::ActionKV;

fn reopen(store: ActionKV) -> ActionKV {
    ActionKV::open(store.log.as_bytes().to_vec()).unwrap()
}

#[test]
fn open_of_an_empty_log_is_an_empty_store() {
    let store = ActionKV::open(Vec::new()).unwrap();
    assert_eq!(store.get(b"a"), Ok(None));
    assert_eq!(store.log.len(), 0);
}

#[test]
fn insert_then_get_returns_the_value() {
    let mut store = ActionKV::open(Vec::new()).unwrap();
    assert_eq!(store.insert(b"a", b"1"), Ok(0));
    assert_eq!(store.get(b"a"), Ok(Some(b"1".to_vec())));
    assert_eq!(store.get(b"b"), Ok(None));
    assert_eq!(store.log.as_bytes(), &encode(b"a", b"1").unwrap()[..]);
}

#[test]
fn last_write_wins() {
    let mut store = ActionKV::open(Vec::new()).unwrap();
    store.insert(b"other", b"x").unwrap();
    let first = store.insert(b"a", b"1").unwrap();
    let second = store.insert(b"a", b"22").unwrap();
    assert_eq!(first, 18);
    assert_eq!(second, 32);
    assert_eq!(store.get(b"a"), Ok(Some(b"22".to_vec())));
    assert_eq!(store.index.get(b"a"), Some(second));
    assert_eq!(store.log.len(), 32 + 15);
}

#[test]
fn update_writes_like_insert() {
    let mut store = ActionKV::open(Vec::new()).unwrap();
    assert_eq!(store.update(b"a", b"1"), Ok(0));
    assert_eq!(store.get(b"a"), Ok(Some(b"1".to_vec())));
    assert_eq!(store.update(b"a", b"2"), Ok(14));
    assert_eq!(store.get(b"a"), Ok(Some(b"2".to_vec())));
    let mut expected = encode(b"a", b"1").unwrap();
    expected.extend_from_slice(&encode(b"a", b"2").unwrap());
    assert_eq!(store.log.as_bytes(), &expected[..]);
}

#[test]
fn deleted_key_is_not_found() {
    let mut store = ActionKV::open(Vec::new()).unwrap();
    store.insert(b"a", b"1").unwrap();
    store.insert(b"b", b"2").unwrap();
    assert_eq!(store.delete(b"a"), Ok(28));
    assert_eq!(store.get(b"a"), Ok(None));
    assert_eq!(store.get(b"b"), Ok(Some(b"2".to_vec())));
    assert_eq!(&store.log.as_bytes()[..14], &encode(b"a", b"1").unwrap()[..]);
    assert_eq!(&store.log.as_bytes()[28..], &encode(b"a", b"").unwrap()[..]);
    let store = reopen(store);
    assert_eq!(store.get(b"a"), Ok(None));
    assert_eq!(store.get(b"b"), Ok(Some(b"2".to_vec())));
}

#[test]
fn delete_of_an_absent_key_is_no_error() {
    let mut store = ActionKV::open(Vec::new()).unwrap();
    assert_eq!(store.delete(b"never written"), Ok(0));
    assert_eq!(store.get(b"never written"), Ok(None));
}

#[test]
fn insert_after_delete_brings_the_key_back() {
    let mut store = ActionKV::open(Vec::new()).unwrap();
    store.insert(b"a", b"1").unwrap();
    store.delete(b"a").unwrap();
    store.insert(b"a", b"2").unwrap();
    assert_eq!(store.get(b"a"), Ok(Some(b"2".to_vec())));
}

#[test]
fn empty_value_reads_as_deleted() {
    let mut store = ActionKV::open(Vec::new()).unwrap();
    store.insert(b"a", b"1").unwrap();
    store.insert(b"a", b"").unwrap();
    assert_eq!(store.get(b"a"), Ok(None));
}

#[test]
fn empty_key_is_a_key() {
    let mut store = ActionKV::open(Vec::new()).unwrap();
    store.insert(b"", b"nothing").unwrap();
    assert_eq!(store.get(b""), Ok(Some(b"nothing".to_vec())));
}

#[test]
fn reopen_after_three_inserts() {
    let mut store = ActionKV::open(Vec::new()).unwrap();
    store.insert(b"a", b"1").unwrap();
    store.insert(b"b", b"2").unwrap();
    store.insert(b"a", b"3").unwrap();
    let store = reopen(store);
    assert_eq!(store.get(b"a"), Ok(Some(b"3".to_vec())));
    assert_eq!(store.get(b"b"), Ok(Some(b"2".to_vec())));
    assert_eq!(store.get(b"c"), Ok(None));
}

#[test]
fn load_rebuilds_the_same_index() {
    let mut store = ActionKV::open(Vec::new()).unwrap();
    store.insert(b"a", b"1").unwrap();
    store.insert(b"b", b"2").unwrap();
    store.insert(b"a", b"3").unwrap();
    store.delete(b"b").unwrap();
    let before = (store.index.get(b"a"), store.index.get(b"b"), store.index.get(b"c"));
    assert_eq!(before, (Some(28), Some(42), None));
    assert_eq!(store.load(), Ok(()));
    let once = (store.index.get(b"a"), store.index.get(b"b"), store.index.get(b"c"));
    assert_eq!(store.load(), Ok(()));
    let twice = (store.index.get(b"a"), store.index.get(b"b"), store.index.get(b"c"));
    assert_eq!(once, before);
    assert_eq!(twice, once);
}

#[test]
fn load_repairs_a_stale_index() {
    let mut store = ActionKV::open(Vec::new()).unwrap();
    store.insert(b"a", b"1").unwrap();
    store.insert(b"b", b"2").unwrap();
    store.index.remove(b"a");
    store.index.set(b"b", 0);
    assert_eq!(store.get(b"a"), Ok(None));
    assert_eq!(store.get(b"b"), Ok(Some(b"1".to_vec())));
    assert_eq!(store.load(), Ok(()));
    assert_eq!(store.get(b"a"), Ok(Some(b"1".to_vec())));
    assert_eq!(store.get(b"b"), Ok(Some(b"2".to_vec())));
}

#[test]
fn get_fails_when_the_index_points_at_no_record() {
    let mut store = ActionKV::open(Vec::new()).unwrap();
    store.insert(b"a", b"1").unwrap();
    store.index.set(b"a", 3);
    assert_eq!(store.get(b"a"), Err(Error::UnexpectedEof));
    store.index.set(b"a", 100);
    assert_eq!(store.get(b"a"), Err(Error::UnexpectedEof));
}

#[test]
fn corrupted_tail_fails_open() {
    let mut store = ActionKV::open(Vec::new()).unwrap();
    store.insert(b"a", b"1").unwrap();
    let offset = store.insert(b"b", b"2").unwrap() as usize;
    let mut bytes = store.log.as_bytes().to_vec();
    let stored = u32::from_le_bytes([
        bytes[offset],
        bytes[offset + 1],
        bytes[offset + 2],
        bytes[offset + 3],
    ]);
    bytes[offset] ^= 0xff;
    let damaged = stored ^ 0xff;
    let first = ActionKV::open(bytes.clone());
    let second = ActionKV::open(bytes);
    assert_eq!(first.err(), Some(Error::Corrupted { stored: damaged, computed: stored }));
    assert_eq!(second.err(), Some(Error::Corrupted { stored: damaged, computed: stored }));
}

#[test]
fn corrupted_record_in_the_middle_fails_open() {
    let mut bytes = encode(b"a", b"1").unwrap();
    let at = bytes.len() + 12;
    bytes.extend_from_slice(&encode(b"b", b"2").unwrap());
    bytes.extend_from_slice(&encode(b"c", b"3").unwrap());
    bytes[at] = b'x';
    assert!(matches!(ActionKV::open(bytes), Err(Error::Corrupted { .. })));
}

#[test]
fn truncated_tail_fails_open() {
    let mut bytes = encode(b"a", b"1").unwrap();
    bytes.extend_from_slice(&encode(b"b", b"2").unwrap());
    bytes.pop();
    assert_eq!(ActionKV::open(bytes).err(), Some(Error::UnexpectedEof));
}

#[test]
fn failed_load_leaves_the_store_as_it_was() {
    let mut store = ActionKV::open(Vec::new()).unwrap();
    store.insert(b"a", b"1").unwrap();
    store.log.append(&[1, 2, 3]);
    assert_eq!(store.load(), Err(Error::UnexpectedEof));
    assert_eq!(store.get(b"a"), Ok(Some(b"1".to_vec())));
    assert_eq!(store.log.len(), 17);
}

#[test]
fn writes_to_other_keys_leave_a_key_alone() {
    let mut store = ActionKV::open(Vec::new()).unwrap();
    store.insert(b"a", b"1").unwrap();
    for i in 0..50u8 {
        store.insert(&[b'k', i], &[i, i]).unwrap();
        store.delete(&[b'k', i / 2]).unwrap();
        assert_eq!(store.get(b"a"), Ok(Some(b"1".to_vec())));
    }
    assert_eq!(store.get(&[b'k', 49]), Ok(Some(vec![49, 49])));
    assert_eq!(store.get(&[b'k', 3]), Ok(None));
}

#[test]
fn too_long_key_or_value_changes_nothing_where_memory_allows() {
    let len = u32::MAX as usize + 1;
    let mut huge: Vec<u8> = Vec::new();
    if huge.try_reserve_exact(len).is_err() {
        return;
    }
    huge.resize(len, 0);
    let mut store = ActionKV::open(Vec::new()).unwrap();
    store.insert(b"a", b"1").unwrap();
    assert_eq!(store.insert(&huge, b"v"), Err(Error::TooLong));
    assert_eq!(store.insert(b"a", &huge), Err(Error::TooLong));
    assert_eq!(store.update(b"a", &huge), Err(Error::TooLong));
    assert_eq!(store.delete(&huge), Err(Error::TooLong));
    assert_eq!(store.log.len(), 14);
    assert_eq!(store.get(b"a"), Ok(Some(b"1".to_vec())));
}
