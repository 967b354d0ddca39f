//! The layout of records in data files and of hints in hint files.
//!
//! A record is
//! `crc (4) | timestamp (8) | key size (8) | value size (8) | key | value`,
//! where the checksum covers everything behind it. A hint is
//! `timestamp (8) | key size (8) | value size (8) | record position (8) | key`.
//! All numbers are little-endian.

use crate::checksum::{checksum, crc32};
use crate::le::{
    le_bytes, le_value, lemma_capacities, lemma_le_bytes_len, lemma_le_round_trip, push_le,
};
use vstd::prelude::*;

verus! {

/// The number of bytes in front of a record's key.
pub const HEADER_LEN: usize = 28;

/// The number of bytes in front of a hint's key.
pub const HINT_HEADER_LEN: usize = 32;

/// The part of a record that its checksum covers.
pub open spec fn record_body(timestamp: u64, key: Seq<u8>, value: Seq<u8>) -> Seq<u8> {
    le_bytes(timestamp as nat, 8) + le_bytes(key.len(), 8) + le_bytes(value.len(), 8) + key + value
}

/// A record's body behind its checksum.
pub open spec fn sealed(crc: u32, body: Seq<u8>) -> Seq<u8> {
    le_bytes(crc as nat, 4) + body
}

/// A record.
pub open spec fn record_bytes(timestamp: u64, key: Seq<u8>, value: Seq<u8>) -> Seq<u8> {
    sealed(crc32(record_body(timestamp, key, value)), record_body(timestamp, key, value))
}

/// The length of a record whose key and value have the given lengths.
pub open spec fn record_len(key_sz: nat, value_sz: nat) -> nat {
    HEADER_LEN as nat + key_sz + value_sz
}

/// A hint.
pub open spec fn hint_bytes(timestamp: u64, key: Seq<u8>, value_sz: nat, pos: u64) -> Seq<u8> {
    le_bytes(timestamp as nat, 8) + le_bytes(key.len(), 8) + le_bytes(value_sz, 8) + le_bytes(
        pos as nat,
        8,
    ) + key
}

/// The eight-byte number at position `at`.
pub open spec fn field(s: Seq<u8>, at: int) -> nat {
    le_value(s.subrange(at, at + 8))
}

fn push_bytes(out: &mut Vec<u8>, bytes: &[u8])
    ensures
        final(out)@ == old(out)@ + bytes@,
{
    out.extend_from_slice(bytes);
    assert(out@ =~= old(out)@ + bytes@);
}

/// Lays out the part of a record that its checksum covers.
pub fn encode_body(timestamp: u64, key: &[u8], value: &[u8]) -> (body: Vec<u8>)
    requires
        record_len(key@.len(), value@.len()) <= isize::MAX,
    ensures
        body@ == record_body(timestamp, key@, value@),
{
    let mut body: Vec<u8> = Vec::with_capacity(HEADER_LEN - 4 + key.len() + value.len());
    push_le(&mut body, timestamp, 8);
    push_le(&mut body, key.len() as u64, 8);
    push_le(&mut body, value.len() as u64, 8);
    push_bytes(&mut body, key);
    push_bytes(&mut body, value);
    assert(body@ =~= record_body(timestamp, key@, value@));
    body
}

/// Puts a checksum in front of a record's body.
pub fn seal(crc: u32, body: &[u8]) -> (record: Vec<u8>)
    requires
        body@.len() + 4 <= isize::MAX,
    ensures
        record@ == sealed(crc, body@),
{
    let mut record: Vec<u8> = Vec::with_capacity(4 + body.len());
    push_le(&mut record, crc as u64, 4);
    push_bytes(&mut record, body);
    assert(record@ =~= sealed(crc, body@));
    record
}

/// Lays out a record.
pub fn encode_record(timestamp: u64, key: &[u8], value: &[u8]) -> (record: Vec<u8>)
    requires
        record_len(key@.len(), value@.len()) <= isize::MAX,
    ensures
        record@ == record_bytes(timestamp, key@, value@),
        record@.len() == record_len(key@.len(), value@.len()),
{
    let body = encode_body(timestamp, key, value);
    proof {
        lemma_record_parts(timestamp, key@, value@);
    }
    seal(checksum(body.as_slice()), body.as_slice())
}

/// Lays out a hint for the record at `pos`.
pub fn encode_hint(timestamp: u64, key: &[u8], value_sz: u64, pos: u64) -> (hint: Vec<u8>)
    requires
        HINT_HEADER_LEN + key@.len() <= isize::MAX,
    ensures
        hint@ == hint_bytes(timestamp, key@, value_sz as nat, pos),
{
    let mut hint: Vec<u8> = Vec::with_capacity(HINT_HEADER_LEN + key.len());
    push_le(&mut hint, timestamp, 8);
    push_le(&mut hint, key.len() as u64, 8);
    push_le(&mut hint, value_sz, 8);
    push_le(&mut hint, pos, 8);
    push_bytes(&mut hint, key);
    assert(hint@ =~= hint_bytes(timestamp, key@, value_sz as nat, pos));
    hint
}

/// Where the parts of a record lie.
pub proof fn lemma_record_parts(timestamp: u64, key: Seq<u8>, value: Seq<u8>)
    ensures
        record_body(timestamp, key, value).len() + 4 == record_len(key.len(), value.len()),
        record_bytes(timestamp, key, value).len() == record_len(key.len(), value.len()),
        record_bytes(timestamp, key, value).subrange(0, 4) == le_bytes(
            crc32(record_body(timestamp, key, value)) as nat,
            4,
        ),
        record_bytes(timestamp, key, value).subrange(4, 12) == le_bytes(timestamp as nat, 8),
        record_bytes(timestamp, key, value).subrange(12, 20) == le_bytes(key.len(), 8),
        record_bytes(timestamp, key, value).subrange(20, 28) == le_bytes(value.len(), 8),
        record_bytes(timestamp, key, value).subrange(28, 28int + key.len()) == key,
        record_bytes(timestamp, key, value).subrange(
            28int + key.len(),
            28int + key.len() + value.len(),
        ) == value,
{
    let crc = crc32(record_body(timestamp, key, value));
    let r = record_bytes(timestamp, key, value);
    lemma_le_bytes_len(crc as nat, 4);
    lemma_le_bytes_len(timestamp as nat, 8);
    lemma_le_bytes_len(key.len(), 8);
    lemma_le_bytes_len(value.len(), 8);
    assert(r.subrange(0, 4) =~= le_bytes(crc as nat, 4));
    assert(r.subrange(4, 12) =~= le_bytes(timestamp as nat, 8));
    assert(r.subrange(12, 20) =~= le_bytes(key.len(), 8));
    assert(r.subrange(20, 28) =~= le_bytes(value.len(), 8));
    assert(r.subrange(28, 28int + key.len()) =~= key);
    assert(r.subrange(28int + key.len(), 28int + key.len() + value.len()) =~= value);
}

/// The numbers in a record's header, wherever the record lies in `s`.
pub proof fn lemma_record_fields(
    s: Seq<u8>,
    pos: int,
    timestamp: u64,
    key: Seq<u8>,
    value: Seq<u8>,
)
    requires
        0 <= pos,
        pos + record_len(key.len(), value.len()) <= s.len(),
        record_len(key.len(), value.len()) <= u64::MAX,
        s.subrange(pos, pos + record_len(key.len(), value.len())) == record_bytes(
            timestamp,
            key,
            value,
        ),
    ensures
        field(s, pos + 4) == timestamp,
        field(s, pos + 12) == key.len(),
        field(s, pos + 20) == value.len(),
        s.subrange(pos + 28, pos + 28 + key.len()) == key,
        s.subrange(pos + 28 + key.len(), pos + 28 + key.len() + value.len()) == value,
{
    let r = record_bytes(timestamp, key, value);
    lemma_record_parts(timestamp, key, value);
    lemma_capacities();
    lemma_le_round_trip(timestamp as nat, 8);
    lemma_le_round_trip(key.len(), 8);
    lemma_le_round_trip(value.len(), 8);
    assert(s.subrange(pos + 4, pos + 4 + 8) =~= r.subrange(4, 12));
    assert(s.subrange(pos + 12, pos + 12 + 8) =~= r.subrange(12, 20));
    assert(s.subrange(pos + 20, pos + 20 + 8) =~= r.subrange(20, 28));
    assert(s.subrange(pos + 28, pos + 28 + key.len()) =~= r.subrange(28, 28int + key.len()));
    assert(s.subrange(pos + 28 + key.len(), pos + 28 + key.len() + value.len()) =~= r.subrange(
        28int + key.len(),
        28int + key.len() + value.len(),
    ));
}

/// The numbers in a hint's header, wherever the hint lies in `s`.
pub proof fn lemma_hint_fields(
    s: Seq<u8>,
    at: int,
    timestamp: u64,
    key: Seq<u8>,
    value_sz: nat,
    pos: u64,
)
    requires
        0 <= at,
        at + 32 + key.len() <= s.len(),
        key.len() <= u64::MAX,
        value_sz <= u64::MAX,
        s.subrange(at, at + 32 + key.len()) == hint_bytes(timestamp, key, value_sz, pos),
    ensures
        field(s, at) == timestamp,
        field(s, at + 8) == key.len(),
        field(s, at + 16) == value_sz,
        field(s, at + 24) == pos,
        s.subrange(at + 32, at + 32 + key.len()) == key,
{
    let h = hint_bytes(timestamp, key, value_sz, pos);
    lemma_capacities();
    lemma_le_bytes_len(timestamp as nat, 8);
    lemma_le_bytes_len(key.len(), 8);
    lemma_le_bytes_len(value_sz, 8);
    lemma_le_bytes_len(pos as nat, 8);
    lemma_le_round_trip(timestamp as nat, 8);
    lemma_le_round_trip(key.len(), 8);
    lemma_le_round_trip(value_sz, 8);
    lemma_le_round_trip(pos as nat, 8);
    assert(h.subrange(0, 8) =~= le_bytes(timestamp as nat, 8));
    assert(h.subrange(8, 16) =~= le_bytes(key.len(), 8));
    assert(h.subrange(16, 24) =~= le_bytes(value_sz, 8));
    assert(h.subrange(24, 32) =~= le_bytes(pos as nat, 8));
    assert(h.subrange(32, 32int + key.len()) =~= key);
    assert(s.subrange(at, at + 8) =~= h.subrange(0, 8));
    assert(s.subrange(at + 8, at + 8 + 8) =~= h.subrange(8, 16));
    assert(s.subrange(at + 16, at + 16 + 8) =~= h.subrange(16, 24));
    assert(s.subrange(at + 24, at + 24 + 8) =~= h.subrange(24, 32));
    assert(s.subrange(at + 32, at + 32 + key.len()) =~= h.subrange(32, 32int + key.len()));
}

} // verus!
