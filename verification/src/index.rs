//! The index: for each key, the offset of the record that was appended last
//! under it. It is derived from the log and can be rebuilt from it at any
//! time.

use crate::log::{entries_view, scan, LogFile};
use crate::record::{Error, Record};
use vstd::prelude::*;
use vstd::slice::slice_to_vec;

verus! {

/// The index that a list of scanned records leaves behind: every key that
/// occurs, with the offset of the last record that holds it.
pub open spec fn index_of(entries: Seq<(nat, Record)>) -> Map<Seq<u8>, nat>
    decreases entries.len(),
{
    if entries.len() == 0 {
        Map::empty()
    } else {
        index_of(entries.drop_last()).insert(entries.last().1.key, entries.last().0)
    }
}

/// The index that replaying `log` from its first byte builds, or the error
/// of the first record that cannot be read.
pub open spec fn replay(log: Seq<u8>) -> Result<Map<Seq<u8>, nat>, Error> {
    match scan(log) {
        Ok(entries) => Ok(index_of(entries)),
        Err(e) => Err(e),
    }
}

/// The map that a list of key-offset pairs stands for; a later pair
/// overrides an earlier one with the same key.
spec fn model(entries: Seq<(Vec<u8>, u64)>) -> Map<Seq<u8>, nat>
    decreases entries.len(),
{
    if entries.len() == 0 {
        Map::empty()
    } else {
        model(entries.drop_last()).insert(entries.last().0@, entries.last().1 as nat)
    }
}

/// No key occurs twice.
spec fn distinct(entries: Seq<(Vec<u8>, u64)>) -> bool {
    forall|i: int, j: int| 0 <= i < j < entries.len() ==> entries[i].0@ != entries[j].0@
}

proof fn lemma_model_absent(entries: Seq<(Vec<u8>, u64)>, key: Seq<u8>)
    requires
        forall|i: int| 0 <= i < entries.len() ==> entries[i].0@ != key,
    ensures
        !model(entries).contains_key(key),
    decreases entries.len(),
{
    if entries.len() > 0 {
        lemma_model_absent(entries.drop_last(), key);
    }
}

proof fn lemma_model_present(entries: Seq<(Vec<u8>, u64)>, i: int)
    requires
        distinct(entries),
        0 <= i < entries.len(),
    ensures
        model(entries).contains_key(entries[i].0@),
        model(entries)[entries[i].0@] == entries[i].1 as nat,
    decreases entries.len(),
{
    if i < entries.len() - 1 {
        lemma_model_present(entries.drop_last(), i);
    }
}

proof fn lemma_model_update(entries: Seq<(Vec<u8>, u64)>, i: int, entry: (Vec<u8>, u64))
    requires
        distinct(entries),
        0 <= i < entries.len(),
        entry.0@ == entries[i].0@,
    ensures
        distinct(entries.update(i, entry)),
        model(entries.update(i, entry)) == model(entries).insert(entry.0@, entry.1 as nat),
    decreases entries.len(),
{
    let updated = entries.update(i, entry);
    if i == entries.len() - 1 {
        assert(updated.drop_last() =~= entries.drop_last());
    } else {
        assert(updated.drop_last() =~= entries.drop_last().update(i, entry));
        lemma_model_update(entries.drop_last(), i, entry);
    }
    assert(model(updated) =~= model(entries).insert(entry.0@, entry.1 as nat));
}

proof fn lemma_model_remove(entries: Seq<(Vec<u8>, u64)>, i: int)
    requires
        distinct(entries),
        0 <= i < entries.len(),
    ensures
        distinct(entries.remove(i)),
        model(entries.remove(i)) == model(entries).remove(entries[i].0@),
    decreases entries.len(),
{
    let removed = entries.remove(i);
    if i == entries.len() - 1 {
        assert(removed =~= entries.drop_last());
        lemma_model_absent(entries.drop_last(), entries[i].0@);
    } else {
        assert(removed.drop_last() =~= entries.drop_last().remove(i));
        lemma_model_remove(entries.drop_last(), i);
    }
    assert(model(removed) =~= model(entries).remove(entries[i].0@));
}

/// Whether two byte strings hold the same bytes.
fn same_bytes(a: &[u8], b: &[u8]) -> (same: bool)
    ensures
        same == (a@ == b@),
{
    if a.len() != b.len() {
        return false;
    }
    let mut i: usize = 0;
    while i < a.len()
        invariant
            a@.len() == b@.len(),
            i <= a@.len(),
            forall|j: int| 0 <= j < i ==> a@[j] == b@[j],
        decreases a@.len() - i,
    {
        if a[i] != b[i] {
            return false;
        }
        i += 1;
    }
    assert(a@ =~= b@);
    true
}

/// A map from keys to offsets in the log, with each key held once.
#[derive(Debug)]
pub struct Index {
    entries: Vec<(Vec<u8>, u64)>,
}

impl View for Index {
    type V = Map<Seq<u8>, nat>;

    closed spec fn view(&self) -> Map<Seq<u8>, nat> {
        model(self.entries@)
    }
}

impl Index {
    #[verifier::type_invariant]
    spec fn keys_distinct(self) -> bool {
        distinct(self.entries@)
    }

    /// An index that knows no key.
    pub fn new() -> (index: Index)
        ensures
            index@ == Map::<Seq<u8>, nat>::empty(),
    {
        Index { entries: Vec::new() }
    }

    /// Where `key` stands in the list, if it does.
    fn position(&self, key: &[u8]) -> (found: Option<usize>)
        ensures
            match found {
                Some(i) => i < self.entries@.len() && self.entries@[i as int].0@ == key@,
                None => forall|j: int| 0 <= j < self.entries@.len() ==> self.entries@[j].0@ != key@,
            },
    {
        let mut i: usize = 0;
        while i < self.entries.len()
            invariant
                i <= self.entries@.len(),
                forall|j: int| 0 <= j < i ==> self.entries@[j].0@ != key@,
            decreases self.entries@.len() - i,
        {
            if same_bytes(self.entries[i].0.as_slice(), key) {
                return Some(i);
            }
            i += 1;
        }
        None
    }

    /// The offset recorded for `key`, if there is one.
    pub fn get(&self, key: &[u8]) -> (offset: Option<u64>)
        ensures
            match offset {
                Some(o) => self@.contains_key(key@) && self@[key@] == o as nat,
                None => !self@.contains_key(key@),
            },
    {
        proof {
            use_type_invariant(&*self);
        }
        match self.position(key) {
            Some(i) => {
                proof {
                    lemma_model_present(self.entries@, i as int);
                }
                Some(self.entries[i].1)
            },
            None => {
                proof {
                    lemma_model_absent(self.entries@, key@);
                }
                None
            },
        }
    }

    /// Records `offset` for `key`, in place of any offset recorded before.
    pub fn set(&mut self, key: &[u8], offset: u64)
        ensures
            final(self)@ == old(self)@.insert(key@, offset as nat),
    {
        proof {
            use_type_invariant(&*self);
        }
        let found = self.position(key);
        let mut entries: Vec<(Vec<u8>, u64)> = Vec::new();
        std::mem::swap(&mut entries, &mut self.entries);
        let entry = (slice_to_vec(key), offset);
        match found {
            Some(i) => {
                proof {
                    lemma_model_update(entries@, i as int, entry);
                }
                entries.set(i, entry);
            },
            None => {
                entries.push(entry);
                assert(entries@.drop_last() =~= old(self).entries@);
            },
        }
        self.entries = entries;
    }

    /// Forgets `key`, and returns the offset that was recorded for it.
    pub fn remove(&mut self, key: &[u8]) -> (offset: Option<u64>)
        ensures
            final(self)@ == old(self)@.remove(key@),
            match offset {
                Some(o) => old(self)@.contains_key(key@) && old(self)@[key@] == o as nat,
                None => !old(self)@.contains_key(key@),
            },
    {
        proof {
            use_type_invariant(&*self);
        }
        match self.position(key) {
            Some(i) => {
                let mut entries: Vec<(Vec<u8>, u64)> = Vec::new();
                std::mem::swap(&mut entries, &mut self.entries);
                proof {
                    lemma_model_present(entries@, i as int);
                    lemma_model_remove(entries@, i as int);
                }
                let entry = entries.remove(i);
                self.entries = entries;
                Some(entry.1)
            },
            None => {
                proof {
                    lemma_model_absent(self.entries@, key@);
                    assert(self@.remove(key@) =~= self@);
                }
                None
            },
        }
    }

    /// Builds the index of `log` by reading it from its first byte to its
    /// end: each record puts its own offset in place of any earlier one
    /// under the same key. Fails with the error of the first record that
    /// cannot be read.
    pub fn rebuild(log: &LogFile) -> (out: Result<Index, Error>)
        ensures
            match out {
                Ok(index) => replay(log@) == Ok::<Map<Seq<u8>, nat>, Error>(index@),
                Err(e) => replay(log@) == Err::<Map<Seq<u8>, nat>, Error>(e),
            },
    {
        let entries = match log.scan_from_start() {
            Ok(entries) => entries,
            Err(e) => {
                return Err(e);
            },
        };
        let mut index = Index::new();
        let mut i: usize = 0;
        while i < entries.len()
            invariant
                i <= entries@.len(),
                index@ == index_of(entries_view(entries@).take(i as int)),
            decreases entries@.len() - i,
        {
            index.set(entries[i].1.key.as_slice(), entries[i].0);
            proof {
                let all = entries_view(entries@);
                assert(all.take(i + 1).drop_last() =~= all.take(i as int));
            }
            i += 1;
        }
        assert(entries_view(entries@).take(i as int) =~= entries_view(entries@));
        Ok(index)
    }
}

} // verus!
