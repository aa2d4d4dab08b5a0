//! The store: a log and the index over it, with the four operations
//! `get`, `insert`, `update` and `delete`.
//!
//! Every write is one append to the log followed by one change to the
//! index. A later write to a key wins over an earlier one; the earlier
//! record stays in the log and is no longer reachable. A deletion is
//! written as a record with an empty value, so that the log alone tells
//! which keys are gone, and a key whose latest record has an empty value
//! reads as not found.

use crate::index::{index_of, replay, Index};
use crate::log::{lemma_scan_from_append, record_at, scan, scan_from, LogFile};
use crate::record::{
    decoding, encode, lemma_decoding_ignores_rest, lemma_decoding_of_encoding,
    lemma_encoding_of_decoding, Error, Record,
};
use vstd::prelude::*;

verus! {

/// The state of a store: the bytes of its log and the content of its index.
pub ghost struct StoreState {
    pub log: Seq<u8>,
    pub index: Map<Seq<u8>, nat>,
}

impl StoreState {
    /// The index holds exactly what a replay of the log builds.
    pub open spec fn consistent(self) -> bool {
        replay(self.log) == Ok::<Map<Seq<u8>, nat>, Error>(self.index)
    }

    /// The state after `r` was appended and indexed.
    pub open spec fn append(self, r: Record) -> StoreState {
        StoreState { log: self.log + r.encoding(), index: self.index.insert(r.key, self.log.len()) }
    }

    /// The state after `value` was written under `key`.
    pub open spec fn insert(self, key: Seq<u8>, value: Seq<u8>) -> StoreState {
        self.append(Record { key, value })
    }

    /// The state after `key` was deleted.
    pub open spec fn delete(self, key: Seq<u8>) -> StoreState {
        self.append(Record { key, value: Seq::empty() })
    }

    /// What a lookup of `key` yields: nothing for a key that the index does
    /// not know or whose latest record marks a deletion, else the value of
    /// the record that the index points at.
    pub open spec fn get(self, key: Seq<u8>) -> Result<Option<Seq<u8>>, Error> {
        if !self.index.contains_key(key) {
            Ok(None)
        } else {
            match record_at(self.log, self.index[key]) {
                Err(e) => Err(e),
                Ok(r) => Ok(visible_value(r)),
            }
        }
    }

    /// The state after the index was rebuilt from the log.
    pub open spec fn load(self) -> Result<StoreState, Error> {
        match replay(self.log) {
            Ok(index) => Ok(StoreState { log: self.log, index }),
            Err(e) => Err(e),
        }
    }
}

/// What a record lets a reader see: its value, unless it marks a deletion.
pub open spec fn visible_value(r: Record) -> Option<Seq<u8>> {
    if r.is_tombstone() {
        None
    } else {
        Some(r.value)
    }
}

/// What the last of `entries` that was written under `key` lets a reader
/// see; nothing if there is no such record.
pub open spec fn latest_value(entries: Seq<(nat, Record)>, key: Seq<u8>) -> Option<Seq<u8>>
    decreases entries.len(),
{
    if entries.len() == 0 {
        None
    } else if entries.last().1.key == key {
        visible_value(entries.last().1)
    } else {
        latest_value(entries.drop_last(), key)
    }
}

/// What a write of `r` does: where `r` fits in a record it is appended and
/// indexed, and its offset is returned; where it does not, the write is
/// refused and the store stays as it was.
pub open spec fn appended(
    before: StoreState,
    r: Record,
    out: Result<u64, Error>,
    after: StoreState,
) -> bool {
    match out {
        Ok(offset) => r.fits() && after == before.append(r) && offset == before.log.len(),
        Err(e) => !r.fits() && e == Error::TooLong && after == before,
    }
}

/// A key-value store over an append-only log.
#[derive(Debug)]
pub struct ActionKV {
    pub log: LogFile,
    pub index: Index,
}

impl View for ActionKV {
    type V = StoreState;

    open spec fn view(&self) -> StoreState {
        StoreState { log: self.log@, index: self.index@ }
    }
}

impl ActionKV {
    /// Opens the store whose log holds `log` so far, and builds its index by
    /// replaying the log. An empty log gives an empty store. The log is
    /// taken as it is; nothing in it is changed or cut off.
    ///
    /// Fails, with the error of the first record that cannot be read, when
    /// the log is truncated or corrupted anywhere; no store is made then.
    pub fn open(log: Vec<u8>) -> (out: Result<ActionKV, Error>)
        ensures
            match out {
                Ok(store) => store@.log == log@ && store@.consistent(),
                Err(e) => replay(log@) == Err::<Map<Seq<u8>, nat>, Error>(e),
            },
    {
        let log = LogFile::from_bytes(log);
        match Index::rebuild(&log) {
            Ok(index) => Ok(ActionKV { log, index }),
            Err(e) => Err(e),
        }
    }

    /// Rebuilds the index from the log. On failure the store is left as it
    /// was.
    pub fn load(&mut self) -> (out: Result<(), Error>)
        ensures
            match out {
                Ok(_) => old(self)@.load() == Ok::<StoreState, Error>(final(self)@)
                    && final(self)@.consistent(),
                Err(e) => old(self)@.load() == Err::<StoreState, Error>(e)
                    && final(self)@ == old(self)@,
            },
    {
        match Index::rebuild(&self.log) {
            Ok(index) => {
                self.index = index;
                Ok(())
            },
            Err(e) => Err(e),
        }
    }

    /// Looks `key` up. A key that was never written, or that was deleted
    /// last, is not found, which is no error.
    ///
    /// Fails when the record that the index points at cannot be read.
    pub fn get(&self, key: &[u8]) -> (out: Result<Option<Vec<u8>>, Error>)
        ensures
            match out {
                Ok(Some(value)) => self@.get(key@) == Ok::<Option<Seq<u8>>, Error>(Some(value@)),
                Ok(None) => self@.get(key@) == Ok::<Option<Seq<u8>>, Error>(None),
                Err(e) => self@.get(key@) == Err::<Option<Seq<u8>>, Error>(e),
            },
            self@.consistent() ==> out is Ok,
    {
        proof {
            if self@.consistent() && self@.index.contains_key(key@) {
                lemma_consistent_index_points_at_records(self@, key@);
            }
        }
        let offset = match self.index.get(key) {
            Some(offset) => offset,
            None => {
                return Ok(None);
            },
        };
        match self.log.read_at(offset) {
            Err(e) => Err(e),
            Ok(pair) => if pair.value.len() == 0 {
                Ok(None)
            } else {
                Ok(Some(pair.value))
            },
        }
    }

    /// Writes `value` under `key`, whether or not the key is present, and
    /// returns the offset of the new record. An empty `value` deletes.
    ///
    /// Fails with `TooLong`, and leaves the store as it was, when the key
    /// or the value is too long for a record.
    pub fn insert(&mut self, key: &[u8], value: &[u8]) -> (out: Result<u64, Error>)
        ensures
            appended(old(self)@, (Record { key: key@, value: value@ }), out, final(self)@),
            old(self)@.consistent() ==> final(self)@.consistent(),
    {
        proof {
            if old(self)@.consistent() && (Record { key: key@, value: value@ }).fits() {
                lemma_append_keeps_consistent(old(self)@, Record { key: key@, value: value@ });
            }
        }
        let bytes = match encode(key, value) {
            Ok(bytes) => bytes,
            Err(e) => {
                return Err(e);
            },
        };
        let offset = self.log.append(bytes.as_slice());
        self.index.set(key, offset);
        Ok(offset)
    }

    /// Writes `value` under `key`, exactly as `insert` does: the key need
    /// not be present.
    pub fn update(&mut self, key: &[u8], value: &[u8]) -> (out: Result<u64, Error>)
        ensures
            appended(old(self)@, (Record { key: key@, value: value@ }), out, final(self)@),
            old(self)@.consistent() ==> final(self)@.consistent(),
    {
        self.insert(key, value)
    }

    /// Deletes `key` by appending a record with an empty value under it,
    /// whether or not the key is present, and returns that record's offset.
    ///
    /// Fails with `TooLong`, and leaves the store as it was, when the key is
    /// too long for a record.
    pub fn delete(&mut self, key: &[u8]) -> (out: Result<u64, Error>)
        ensures
            appended(old(self)@, (Record { key: key@, value: Seq::empty() }), out, final(self)@),
            old(self)@.consistent() ==> final(self)@.consistent(),
    {
        let empty: Vec<u8> = Vec::new();
        self.insert(key, empty.as_slice())
    }
}

/// A lookup right after a write finds what was written.
pub proof fn lemma_get_after_append(s: StoreState, r: Record)
    requires
        r.fits(),
    ensures
        record_at(s.append(r).log, s.append(r).index[r.key]) == Ok::<Record, Error>(r),
        s.append(r).get(r.key) == Ok::<Option<Seq<u8>>, Error>(visible_value(r)),
{
    let after = s.append(r);
    lemma_decoding_of_encoding(r, Seq::empty());
    lemma_encoding_of_decoding(r.encoding() + Seq::<u8>::empty(), r);
    assert(after.log.skip(s.log.len() as int) =~= r.encoding() + Seq::<u8>::empty());
}

/// Last write wins: after two writes under one key, a lookup finds the
/// second value, and the index holds the offset at which the second record
/// was appended.
pub proof fn lemma_last_write_wins(s: StoreState, key: Seq<u8>, first: Seq<u8>, second: Seq<u8>)
    requires
        key.len() <= u32::MAX,
        second.len() <= u32::MAX,
        second.len() > 0,
    ensures
        s.insert(key, first).insert(key, second).get(key) == Ok::<Option<Seq<u8>>, Error>(
            Some(second),
        ),
        s.insert(key, first).insert(key, second).index[key] == s.insert(key, first).log.len(),
{
    lemma_get_after_append(s.insert(key, first), Record { key, value: second });
}

/// A deleted key is not found, though its earlier records remain in the
/// log.
pub proof fn lemma_deleted_key_not_found(s: StoreState, key: Seq<u8>)
    requires
        key.len() <= u32::MAX,
    ensures
        s.delete(key).get(key) == Ok::<Option<Seq<u8>>, Error>(None),
        s.log.is_prefix_of(s.delete(key).log),
{
    lemma_get_after_append(s, Record { key, value: Seq::empty() });
}

/// Rebuilding is idempotent: a rebuilt store is consistent, and rebuilding
/// it once more changes nothing.
pub proof fn lemma_load_idempotent(s: StoreState)
    requires
        s.load() is Ok,
    ensures
        s.load().unwrap().consistent(),
        s.load().unwrap().load() == s.load(),
{
}

/// A consistent store is what opening its log gives: rebuilding leaves it
/// unchanged.
pub proof fn lemma_load_of_consistent(s: StoreState)
    requires
        s.consistent(),
    ensures
        s.load() == Ok::<StoreState, Error>(s),
{
}

/// A write keeps the index in step with the log.
pub proof fn lemma_append_keeps_consistent(s: StoreState, r: Record)
    requires
        s.consistent(),
        r.fits(),
    ensures
        s.append(r).consistent(),
{
    lemma_scan_from_append(s.log, 0, r);
    let entries = scan(s.log).unwrap();
    assert(entries.push((s.log.len(), r)).drop_last() =~= entries);
}

/// Every record that a scan finds can be read back at its offset.
proof fn lemma_scanned_entries_readable(log: Seq<u8>, pos: int, i: int)
    requires
        0 <= pos,
        scan_from(log, pos) is Ok,
        0 <= i < scan_from(log, pos).unwrap().len(),
    ensures
        record_at(log, scan_from(log, pos).unwrap()[i].0) == Ok::<Record, Error>(
            scan_from(log, pos).unwrap()[i].1,
        ),
    decreases log.len() - pos,
{
    let first = decoding(log.skip(pos)).unwrap();
    lemma_encoding_of_decoding(log.skip(pos), first);
    if i > 0 {
        lemma_scanned_entries_readable(log, pos + first.encoded_len(), i - 1);
    }
}

/// Every key of a built index comes from the last scanned record with that
/// key, and is mapped to that record's offset.
proof fn lemma_index_of_points_at_entry(entries: Seq<(nat, Record)>, key: Seq<u8>) -> (i: int)
    requires
        index_of(entries).contains_key(key),
    ensures
        0 <= i < entries.len(),
        entries[i].1.key == key,
        entries[i].0 == index_of(entries)[key],
        latest_value(entries, key) == visible_value(entries[i].1),
    decreases entries.len(),
{
    if entries.last().1.key == key {
        entries.len() - 1
    } else {
        lemma_index_of_points_at_entry(entries.drop_last(), key)
    }
}

proof fn lemma_latest_value_of_unknown_key(entries: Seq<(nat, Record)>, key: Seq<u8>)
    requires
        !index_of(entries).contains_key(key),
    ensures
        latest_value(entries, key) == None::<Seq<u8>>,
    decreases entries.len(),
{
    if entries.len() > 0 {
        lemma_latest_value_of_unknown_key(entries.drop_last(), key);
    }
}

/// In a consistent store every offset in the index is the start of a
/// readable record that holds the key it is recorded for, so that no lookup
/// fails.
pub proof fn lemma_consistent_index_points_at_records(s: StoreState, key: Seq<u8>)
    requires
        s.consistent(),
        s.index.contains_key(key),
    ensures
        record_at(s.log, s.index[key]) is Ok,
        record_at(s.log, s.index[key]).unwrap().key == key,
        s.get(key) is Ok,
{
    let entries = scan(s.log).unwrap();
    let i = lemma_index_of_points_at_entry(entries, key);
    lemma_scanned_entries_readable(s.log, 0, i);
}

/// The log alone decides what a consistent store holds: a lookup finds what
/// the last record under the key in the log lets a reader see.
pub proof fn lemma_get_finds_latest_record(s: StoreState, key: Seq<u8>)
    requires
        s.consistent(),
    ensures
        s.get(key) == Ok::<Option<Seq<u8>>, Error>(latest_value(scan(s.log).unwrap(), key)),
{
    let entries = scan(s.log).unwrap();
    if s.index.contains_key(key) {
        let i = lemma_index_of_points_at_entry(entries, key);
        lemma_scanned_entries_readable(s.log, 0, i);
    } else {
        lemma_latest_value_of_unknown_key(entries, key);
    }
}

/// A write under one key does not change what a lookup of another key
/// finds in a consistent store.
pub proof fn lemma_append_leaves_other_keys(s: StoreState, r: Record, other: Seq<u8>)
    requires
        s.consistent(),
        other != r.key,
    ensures
        s.append(r).get(other) == s.get(other),
{
    if s.index.contains_key(other) {
        lemma_consistent_index_points_at_records(s, other);
        let offset = s.index[other] as int;
        let found = record_at(s.log, s.index[other]).unwrap();
        assert(s.append(r).log.skip(offset) =~= s.log.skip(offset) + r.encoding());
        lemma_decoding_ignores_rest(s.log.skip(offset), found, r.encoding());
    }
}

} // verus!
