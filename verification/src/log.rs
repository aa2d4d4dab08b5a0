//! The log: an append-only sequence of bytes that holds one encoded record
//! after another, with no header, footer or padding between them.

use crate::record::{
    decoding, lemma_decoding_ignores_rest, lemma_decoding_of_encoding, lemma_encoding_of_decoding,
    process_record, Error, KeyValuePair, Record, HEADER_LEN,
};
use vstd::prelude::*;
use vstd::slice::slice_subrange;

verus! {

/// What reading one record at byte `offset` of `log` yields. At or past the
/// end of the log there is nothing to read.
pub open spec fn record_at(log: Seq<u8>, offset: nat) -> Result<Record, Error> {
    if offset >= log.len() {
        Err(Error::UnexpectedEof)
    } else {
        decoding(log.skip(offset as int))
    }
}

/// The records of `log` from byte `pos` to its end, each with the offset at
/// which it starts, or the error that the first unreadable record gives.
pub open spec fn scan_from(log: Seq<u8>, pos: int) -> Result<Seq<(nat, Record)>, Error>
    decreases log.len() - pos,
    via scan_from_terminates
{
    if pos < 0 || pos >= log.len() {
        Ok(Seq::empty())
    } else {
        match decoding(log.skip(pos)) {
            Err(e) => Err(e),
            Ok(r) => match scan_from(log, pos + r.encoded_len()) {
                Err(e) => Err(e),
                Ok(rest) => Ok(seq![(pos as nat, r)] + rest),
            },
        }
    }
}

#[via_fn]
proof fn scan_from_terminates(log: Seq<u8>, pos: int) {
    if 0 <= pos < log.len() {
        match decoding(log.skip(pos)) {
            Ok(r) => {
                lemma_encoding_of_decoding(log.skip(pos), r);
            },
            Err(e) => {},
        }
    }
}

/// The records of the whole log, in the order in which they were appended.
pub open spec fn scan(log: Seq<u8>) -> Result<Seq<(nat, Record)>, Error> {
    scan_from(log, 0)
}

/// The mathematical content of a list of scanned records.
pub open spec fn entries_view(entries: Seq<(u64, KeyValuePair)>) -> Seq<(nat, Record)> {
    entries.map_values(|e: (u64, KeyValuePair)| (e.0 as nat, e.1@))
}

/// Appending a record to a readable log adds that record, at the old end of
/// the log, to what a scan finds, and changes nothing before it.
pub proof fn lemma_scan_from_append(log: Seq<u8>, pos: int, r: Record)
    requires
        0 <= pos <= log.len(),
        scan_from(log, pos) is Ok,
        r.fits(),
    ensures
        scan_from(log + r.encoding(), pos) == Ok::<Seq<(nat, Record)>, Error>(
            scan_from(log, pos).unwrap().push((log.len(), r)),
        ),
    decreases log.len() - pos,
{
    let longer = log + r.encoding();
    if pos == log.len() {
        assert(longer.skip(pos) =~= r.encoding() + Seq::<u8>::empty());
        lemma_decoding_of_encoding(r, Seq::empty());
        lemma_encoding_of_decoding(longer.skip(pos), r);
        assert(scan_from(longer, pos + r.encoded_len()) == Ok::<Seq<(nat, Record)>, Error>(
            Seq::empty(),
        ));
        assert(seq![(pos as nat, r)] + Seq::<(nat, Record)>::empty() =~= Seq::<
            (nat, Record),
        >::empty().push((log.len(), r)));
    } else {
        let first = decoding(log.skip(pos)).unwrap();
        let next = pos + first.encoded_len();
        lemma_encoding_of_decoding(log.skip(pos), first);
        assert(longer.skip(pos) =~= log.skip(pos) + r.encoding());
        lemma_decoding_ignores_rest(log.skip(pos), first, r.encoding());
        lemma_scan_from_append(log, next, r);
        let rest = scan_from(log, next).unwrap();
        assert(seq![(pos as nat, first)] + rest.push((log.len(), r)) =~= (seq![(pos as nat, first)]
            + rest).push((log.len(), r)));
    }
}

/// An append-only log of records, held in memory.
#[derive(Debug)]
pub struct LogFile {
    bytes: Vec<u8>,
}

impl View for LogFile {
    type V = Seq<u8>;

    closed spec fn view(&self) -> Seq<u8> {
        self.bytes@
    }
}

impl LogFile {
    /// A log with nothing in it.
    pub fn new() -> (log: LogFile)
        ensures
            log@ == Seq::<u8>::empty(),
    {
        LogFile { bytes: Vec::new() }
    }

    /// The log whose content so far is `bytes`.
    pub fn from_bytes(bytes: Vec<u8>) -> (log: LogFile)
        ensures
            log@ == bytes@,
    {
        LogFile { bytes }
    }

    /// Everything that was ever appended, first byte first.
    pub fn as_bytes(&self) -> (bytes: &[u8])
        ensures
            bytes@ == self@,
    {
        self.bytes.as_slice()
    }

    /// The offset at which the next append will begin.
    pub fn len(&self) -> (n: u64)
        ensures
            n == self@.len(),
    {
        self.bytes.len() as u64
    }

    /// Writes `bytes` at the end of the log and returns the offset at which
    /// they begin. Nothing that was in the log before is changed.
    pub fn append(&mut self, bytes: &[u8]) -> (offset: u64)
        ensures
            final(self)@ == old(self)@ + bytes@,
            offset == old(self)@.len(),
    {
        let offset = self.bytes.len() as u64;
        self.bytes.extend_from_slice(bytes);
        assert(self.bytes@ =~= old(self).bytes@ + bytes@);
        offset
    }

    /// Reads the one record that starts at byte `offset`.
    pub fn read_at(&self, offset: u64) -> (out: Result<KeyValuePair, Error>)
        ensures
            match out {
                Ok(pair) => record_at(self@, offset as nat) == Ok::<Record, Error>(pair@),
                Err(e) => record_at(self@, offset as nat) == Err::<Record, Error>(e),
            },
    {
        if offset >= self.bytes.len() as u64 {
            return Err(Error::UnexpectedEof);
        }
        process_record(slice_subrange(self.bytes.as_slice(), offset as usize, self.bytes.len()))
    }

    /// Reads every record from the first byte of the log to its end, and
    /// returns each with the offset at which it starts. Stops at the first
    /// record that cannot be read and returns its error; no record is
    /// skipped.
    pub fn scan_from_start(&self) -> (out: Result<Vec<(u64, KeyValuePair)>, Error>)
        ensures
            match out {
                Ok(entries) => scan(self@) == Ok::<Seq<(nat, Record)>, Error>(
                    entries_view(entries@),
                ),
                Err(e) => scan(self@) == Err::<Seq<(nat, Record)>, Error>(e),
            },
    {
        let bytes = self.bytes.as_slice();
        let mut entries: Vec<(u64, KeyValuePair)> = Vec::new();
        let mut pos: usize = 0;
        assert(entries_view(entries@) + scan_from(bytes@, 0).unwrap() =~= scan_from(
            bytes@,
            0,
        ).unwrap());
        while pos < bytes.len()
            invariant
                bytes@ == self@,
                pos <= bytes@.len(),
                match scan_from(bytes@, pos as int) {
                    Ok(rest) => scan(bytes@) == Ok::<Seq<(nat, Record)>, Error>(
                        entries_view(entries@) + rest,
                    ),
                    Err(e) => scan(bytes@) == Err::<Seq<(nat, Record)>, Error>(e),
                },
            decreases bytes@.len() - pos,
        {
            let pair = match process_record(slice_subrange(bytes, pos, bytes.len())) {
                Ok(pair) => pair,
                Err(e) => {
                    return Err(e);
                },
            };
            proof {
                lemma_encoding_of_decoding(bytes@.skip(pos as int), pair@);
            }
            let next = pos + HEADER_LEN + pair.key.len() + pair.value.len();
            let ghost before = entries_view(entries@);
            entries.push((pos as u64, pair));
            proof {
                let here = seq![(pos as nat, pair@)];
                assert(entries_view(entries@) =~= before + here);
                match scan_from(bytes@, next as int) {
                    Ok(rest) => {
                        assert((before + here) + rest =~= before + (here + rest));
                    },
                    Err(e) => {},
                }
            }
            pos = next;
        }
        assert(entries_view(entries@) + Seq::<(nat, Record)>::empty() =~= entries_view(entries@));
        Ok(entries)
    }
}

} // verus!
