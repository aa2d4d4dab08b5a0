//! The record codec: one key-value pair framed as
//! `checksum | key length | value length | key | value`, with the three
//! header fields as little-endian 32-bit integers and the checksum taken
//! over the key followed by the value.

use crate::checksum::{checksum_ieee, crc32_ieee, lemma_checksum_detects_one_byte};
use crate::le::{
    lemma_u32_le_bytes_of_decoded, lemma_u32_le_round_trip, read_u32_le, u32_from_le, u32_le_bytes,
    write_u32_le,
};
use vstd::prelude::*;
use vstd::slice::*;

verus! {

/// The number of bytes in a record's header.
pub const HEADER_LEN: usize = 12;

/// A key and the value stored under it.
#[derive(Debug, Clone, PartialEq, Eq)]
pub struct KeyValuePair {
    pub key: Vec<u8>,
    pub value: Vec<u8>,
}

/// The mathematical content of a record.
pub ghost struct Record {
    pub key: Seq<u8>,
    pub value: Seq<u8>,
}

impl View for KeyValuePair {
    type V = Record;

    open spec fn view(&self) -> Record {
        Record { key: self.key@, value: self.value@ }
    }
}

/// Why a record could not be written or read back.
#[derive(Debug, Clone, Copy, PartialEq, Eq, Structural)]
pub enum Error {
    /// Fewer bytes are available than a header takes, or than the header
    /// declares for the payload.
    UnexpectedEof,
    /// The checksum found in the header is not the checksum of the payload.
    Corrupted { stored: u32, computed: u32 },
    /// A key or a value is too long for its length to fit in 32 bits.
    TooLong,
}

/// The three fields at the front of every record.
#[derive(Debug, Clone, Copy, PartialEq, Eq, Structural)]
pub struct Header {
    pub checksum: u32,
    pub key_len: u32,
    pub value_len: u32,
}

impl Header {
    /// The number of payload bytes that follow the header: the key's length
    /// and the value's.
    pub fn payload_len(&self) -> (n: u64)
        ensures
            n == self.key_len + self.value_len,
    {
        self.key_len as u64 + self.value_len as u64
    }
}

impl Record {
    /// Both lengths can be written in the header.
    pub open spec fn fits(self) -> bool {
        self.key.len() <= u32::MAX && self.value.len() <= u32::MAX
    }

    /// The bytes that the checksum guards: the key followed by the value.
    pub open spec fn payload(self) -> Seq<u8> {
        self.key + self.value
    }

    /// The number of bytes that the record takes in the log.
    pub open spec fn encoded_len(self) -> nat {
        12 + self.key.len() + self.value.len()
    }

    /// The record as it stands in the log.
    #[verifier::opaque]
    pub open spec fn encoding(self) -> Seq<u8> {
        u32_le_bytes(crc32_ieee(self.payload())) + u32_le_bytes(self.key.len() as u32)
            + u32_le_bytes(self.value.len() as u32) + self.key + self.value
    }

    /// A deletion is recorded as a record with an empty value.
    pub open spec fn is_tombstone(self) -> bool {
        self.value.len() == 0
    }
}

/// The header that the first twelve bytes of `bytes` spell.
pub open spec fn header_of(bytes: Seq<u8>) -> Header
    recommends
        bytes.len() >= 12,
{
    Header {
        checksum: u32_from_le(bytes),
        key_len: u32_from_le(bytes.skip(4)),
        value_len: u32_from_le(bytes.skip(8)),
    }
}

/// What reading one record from the front of `bytes` yields. Bytes after
/// the record are not looked at.
#[verifier::opaque]
pub open spec fn decoding(bytes: Seq<u8>) -> Result<Record, Error> {
    if bytes.len() < 12 {
        Err(Error::UnexpectedEof)
    } else {
        let header = header_of(bytes);
        if bytes.len() - 12 < header.key_len + header.value_len {
            Err(Error::UnexpectedEof)
        } else {
            let payload = bytes.subrange(12, 12 + header.key_len + header.value_len);
            let computed = crc32_ieee(payload);
            if computed != header.checksum {
                Err(Error::Corrupted { stored: header.checksum, computed })
            } else {
                Ok(
                    Record {
                        key: payload.take(header.key_len as int),
                        value: payload.skip(header.key_len as int),
                    },
                )
            }
        }
    }
}

/// `bytes` with one bit of the byte at `at` inverted.
pub open spec fn flip_bit(bytes: Seq<u8>, at: int, bit: u8) -> Seq<u8>
    recommends
        0 <= at < bytes.len(),
        bit < 8,
{
    bytes.update(at, bytes[at] ^ (1u8 << bit))
}

/// A written record takes twelve bytes for its header, and after them as
/// many as its key and its value are long.
pub proof fn lemma_encoding_len(r: Record)
    ensures
        r.encoding().len() == r.encoded_len(),
{
    reveal(Record::encoding);
}

proof fn lemma_header_of_encoding(r: Record, rest: Seq<u8>)
    requires
        r.fits(),
    ensures
        r.encoding().len() == r.encoded_len(),
        header_of(r.encoding() + rest) == (Header {
            checksum: crc32_ieee(r.payload()),
            key_len: r.key.len() as u32,
            value_len: r.value.len() as u32,
        }),
        (r.encoding() + rest).subrange(12, r.encoded_len() as int) == r.payload(),
        forall|i: int| 12 <= i < r.encoded_len() ==> r.encoding()[i] == r.payload()[i - 12],
{
    reveal(Record::encoding);
    lemma_encoding_len(r);
    let bytes = r.encoding() + rest;
    let sum = u32_le_bytes(crc32_ieee(r.payload()));
    let klen = u32_le_bytes(r.key.len() as u32);
    let vlen = u32_le_bytes(r.value.len() as u32);
    let tail = r.key + r.value + rest;
    assert(bytes =~= sum + (klen + vlen + tail));
    assert(bytes.skip(4) =~= klen + (vlen + tail));
    assert(bytes.skip(8) =~= vlen + tail);
    lemma_u32_le_round_trip(crc32_ieee(r.payload()), klen + vlen + tail);
    lemma_u32_le_round_trip(r.key.len() as u32, vlen + tail);
    lemma_u32_le_round_trip(r.value.len() as u32, tail);
    assert(bytes.subrange(12, r.encoded_len() as int) =~= r.payload());
}

/// Reading back what was written gives the record that was written,
/// whatever follows it in the log.
pub proof fn lemma_decoding_of_encoding(r: Record, rest: Seq<u8>)
    requires
        r.fits(),
    ensures
        decoding(r.encoding() + rest) == Ok::<Record, Error>(r),
{
    reveal(decoding);
    lemma_header_of_encoding(r, rest);
    let payload = r.payload();
    assert(payload.take(r.key.len() as int) =~= r.key);
    assert(payload.skip(r.key.len() as int) =~= r.value);
}

/// A record that was read stands at the front of the bytes it was read
/// from, in exactly the form in which it is written.
pub proof fn lemma_encoding_of_decoding(bytes: Seq<u8>, r: Record)
    requires
        decoding(bytes) == Ok::<Record, Error>(r),
    ensures
        r.fits(),
        r.encoded_len() <= bytes.len(),
        bytes == r.encoding() + bytes.skip(r.encoded_len() as int),
{
    reveal(decoding);
    reveal(Record::encoding);
    let header = header_of(bytes);
    let payload = bytes.subrange(12, 12 + header.key_len + header.value_len);
    assert(r.payload() =~= payload);
    lemma_u32_le_bytes_of_decoded(bytes);
    lemma_u32_le_bytes_of_decoded(bytes.skip(4));
    lemma_u32_le_bytes_of_decoded(bytes.skip(8));
    assert(bytes =~= r.encoding() + bytes.skip(r.encoded_len() as int));
}

/// What is read from the front of a log does not depend on what follows
/// the record.
pub proof fn lemma_decoding_ignores_rest(bytes: Seq<u8>, r: Record, more: Seq<u8>)
    requires
        decoding(bytes) == Ok::<Record, Error>(r),
    ensures
        decoding(bytes + more) == Ok::<Record, Error>(r),
{
    lemma_encoding_of_decoding(bytes, r);
    let rest = bytes.skip(r.encoded_len() as int);
    assert(bytes + more =~= r.encoding() + (rest + more));
    lemma_decoding_of_encoding(r, rest + more);
}

/// Changing one byte of a written record's payload makes the read fail
/// with a checksum error that carries the checksum as it was written.
pub proof fn lemma_payload_change_detected(r: Record, rest: Seq<u8>, at: int, byte: u8)
    requires
        r.fits(),
        12 <= at < r.encoded_len(),
        byte != r.encoding()[at],
    ensures
        decoding((r.encoding() + rest).update(at, byte)) matches Err(
            Error::Corrupted { stored, computed },
        ) && stored == crc32_ieee(r.payload()) && computed != stored,
{
    reveal(decoding);
    lemma_header_of_encoding(r, rest);
    let before = r.encoding() + rest;
    let after = before.update(at, byte);
    assert(header_of(after) == header_of(before)) by {
        assert(after.skip(4)[0] == before.skip(4)[0]);
        assert(after.skip(4)[1] == before.skip(4)[1]);
        assert(after.skip(4)[2] == before.skip(4)[2]);
        assert(after.skip(4)[3] == before.skip(4)[3]);
        assert(after.skip(8)[0] == before.skip(8)[0]);
        assert(after.skip(8)[1] == before.skip(8)[1]);
        assert(after.skip(8)[2] == before.skip(8)[2]);
        assert(after.skip(8)[3] == before.skip(8)[3]);
    }
    let end = r.encoded_len() as int;
    let payload = before.subrange(12, end);
    let changed = after.subrange(12, end);
    assert(changed =~= payload.update(at - 12, byte));
    assert(payload[at - 12] == r.encoding()[at]);
    assert(payload =~= r.payload());
    lemma_checksum_detects_one_byte(payload, changed, at - 12);
}

proof fn lemma_bit_flip_changes_byte(byte: u8, bit: u8)
    by (bit_vector)
    requires
        bit < 8,
    ensures
        byte ^ (1u8 << bit) != byte,
{
}

/// Inverting any single bit of a written record's payload makes the read
/// fail with a checksum error.
pub proof fn lemma_payload_bit_flip_detected(r: Record, rest: Seq<u8>, at: int, bit: u8)
    requires
        r.fits(),
        12 <= at < r.encoded_len(),
        bit < 8,
    ensures
        decoding(flip_bit(r.encoding() + rest, at, bit)) matches Err(
            Error::Corrupted { stored, computed },
        ) && stored == crc32_ieee(r.payload()) && computed != stored,
{
    let bytes = r.encoding() + rest;
    lemma_header_of_encoding(r, rest);
    lemma_bit_flip_changes_byte(bytes[at], bit);
    assert(bytes[at] == r.encoding()[at]);
    lemma_payload_change_detected(r, rest, at, bytes[at] ^ (1u8 << bit));
}

/// Reads the header at the front of `bytes`.
pub fn read_header(bytes: &[u8]) -> (out: Result<Header, Error>)
    ensures
        bytes@.len() >= 12 ==> out == Ok::<Header, Error>(header_of(bytes@)),
        bytes@.len() < 12 ==> out == Err::<Header, Error>(Error::UnexpectedEof),
{
    if bytes.len() < HEADER_LEN {
        return Err(Error::UnexpectedEof);
    }
    let checksum = read_u32_le(bytes);
    let key_len = read_u32_le(slice_subrange(bytes, 4, bytes.len()));
    let value_len = read_u32_le(slice_subrange(bytes, 8, bytes.len()));
    Ok(Header { checksum, key_len, value_len })
}

/// Writes the record that holds `value` under `key`.
///
/// Fails with `TooLong`, and only so, when one of the two lengths does not
/// fit in 32 bits.
pub fn encode(key: &[u8], value: &[u8]) -> (out: Result<Vec<u8>, Error>)
    ensures
        match out {
            Ok(bytes) => (Record { key: key@, value: value@ }).fits() && bytes@ == (Record {
                key: key@,
                value: value@,
            }).encoding(),
            Err(e) => !(Record { key: key@, value: value@ }).fits() && e == Error::TooLong,
        },
{
    if key.len() > u32::MAX as usize || value.len() > u32::MAX as usize {
        return Err(Error::TooLong);
    }
    let mut payload: Vec<u8> = Vec::new();
    payload.extend_from_slice(key);
    payload.extend_from_slice(value);
    assert(payload@ =~= key@ + value@);
    let checksum = checksum_ieee(payload.as_slice());
    let mut out: Vec<u8> = Vec::new();
    out.extend_from_slice(write_u32_le(checksum).as_slice());
    out.extend_from_slice(write_u32_le(key.len() as u32).as_slice());
    out.extend_from_slice(write_u32_le(value.len() as u32).as_slice());
    out.extend_from_slice(payload.as_slice());
    assert(out@ =~= (Record { key: key@, value: value@ }).encoding()) by {
        reveal(Record::encoding);
    }
    Ok(out)
}

/// Reads one record from the front of `bytes`.
///
/// Fails with `UnexpectedEof` when `bytes` ends before the header or the
/// payload that the header declares does, and with `Corrupted` when the
/// payload's checksum is not the one in the header. A record whose key or
/// value is empty is read like any other.
pub fn process_record(bytes: &[u8]) -> (out: Result<KeyValuePair, Error>)
    ensures
        match out {
            Ok(pair) => decoding(bytes@) == Ok::<Record, Error>(pair@),
            Err(e) => decoding(bytes@) == Err::<Record, Error>(e),
        },
{
    proof {
        reveal(decoding);
    }
    let header = match read_header(bytes) {
        Ok(header) => header,
        Err(e) => {
            return Err(e);
        },
    };
    let data_len = header.payload_len();
    if ((bytes.len() - HEADER_LEN) as u64) < data_len {
        return Err(Error::UnexpectedEof);
    }
    let payload = slice_subrange(bytes, HEADER_LEN, HEADER_LEN + data_len as usize);
    let computed = checksum_ieee(payload);
    if computed != header.checksum {
        return Err(Error::Corrupted { stored: header.checksum, computed });
    }
    let mut key = slice_to_vec(payload);
    let value = key.split_off(header.key_len as usize);
    Ok(KeyValuePair { key, value })
}

} // verus!
