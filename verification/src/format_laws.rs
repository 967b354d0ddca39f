//! The laws of the formats: where the parts of records and hints lie, and how
//! the values that callers see correspond to what contracts speak of.

use crate::checksum::crc32;
use crate::key_dir::{texts, KeyDir};
use crate::le::{le_value, lemma_capacities, lemma_le_bytes_len, lemma_le_round_trip};
use crate::record::{
    field, hint_bytes, lemma_hint_fields, lemma_record_parts, record_body, record_bytes, record_len,
    sealed, HEADER_LEN, HINT_HEADER_LEN,
};
use crate::recovery::{loaded, views, FileImage, LoadError};
use crate::store::{state, Append, Ronin};
use vstd::prelude::*;

verus! {

/// A record is its checksum in 4 bytes, the time, the length of the key and the
/// length of the value in 8 bytes each, the key and the value, and nothing else.
/// The checksum is that of all that stands behind it.
pub proof fn law_record_layout(timestamp: u64, key: Seq<u8>, value: Seq<u8>)
    requires
        key.len() <= u64::MAX,
        value.len() <= u64::MAX,
    ensures
        ({
            let record = record_bytes(timestamp, key, value);
            &&& record.len() == 28 + key.len() + value.len()
            &&& le_value(record.subrange(0, 4)) == crc32(record.skip(4))
            &&& le_value(record.subrange(4, 12)) == timestamp
            &&& le_value(record.subrange(12, 20)) == key.len()
            &&& le_value(record.subrange(20, 28)) == value.len()
            &&& record.subrange(28, 28 + key.len() as int) == key
            &&& record.skip(28 + key.len() as int) == value
        }),
{
    let record = record_bytes(timestamp, key, value);
    let crc = crc32(record_body(timestamp, key, value));
    lemma_record_parts(timestamp, key, value);
    lemma_capacities();
    lemma_le_bytes_len(crc as nat, 4);
    lemma_le_round_trip(crc as nat, 4);
    lemma_le_round_trip(timestamp as nat, 8);
    lemma_le_round_trip(key.len(), 8);
    lemma_le_round_trip(value.len(), 8);
    assert(record.skip(4) =~= record_body(timestamp, key, value));
    assert(record.skip(28 + key.len() as int) =~= value);
}

/// The body of a record is the record without its checksum, and sealing a body
/// puts the given checksum in front of it, in 4 bytes.
pub proof fn law_seal_layout(timestamp: u64, key: Seq<u8>, value: Seq<u8>, crc: u32, body: Seq<u8>)
    ensures
        record_body(timestamp, key, value) == record_bytes(timestamp, key, value).skip(4),
        sealed(crc, body).len() == body.len() + 4,
        le_value(sealed(crc, body).subrange(0, 4)) == crc,
        sealed(crc, body).skip(4) == body,
{
    let own = crc32(record_body(timestamp, key, value));
    lemma_capacities();
    lemma_le_bytes_len(own as nat, 4);
    lemma_le_bytes_len(crc as nat, 4);
    lemma_le_round_trip(crc as nat, 4);
    assert(record_bytes(timestamp, key, value).skip(4) =~= record_body(timestamp, key, value));
    assert(sealed(crc, body).subrange(0, 4) =~= crate::le::le_bytes(crc as nat, 4));
    assert(sealed(crc, body).skip(4) =~= body);
}

/// A hint is the time, the length of the key, the length of the value and the
/// position of the record in 8 bytes each, and the key, and nothing else.
pub proof fn law_hint_layout(timestamp: u64, key: Seq<u8>, value_sz: nat, pos: u64)
    requires
        key.len() <= u64::MAX,
        value_sz <= u64::MAX,
    ensures
        ({
            let hint = hint_bytes(timestamp, key, value_sz, pos);
            &&& hint.len() == 32 + key.len()
            &&& le_value(hint.subrange(0, 8)) == timestamp
            &&& le_value(hint.subrange(8, 16)) == key.len()
            &&& le_value(hint.subrange(16, 24)) == value_sz
            &&& le_value(hint.subrange(24, 32)) == pos
            &&& hint.skip(32) == key
        }),
{
    let hint = hint_bytes(timestamp, key, value_sz, pos);
    lemma_le_bytes_len(timestamp as nat, 8);
    lemma_le_bytes_len(key.len(), 8);
    lemma_le_bytes_len(value_sz, 8);
    lemma_le_bytes_len(pos as nat, 8);
    assert(hint.subrange(0, 32int + key.len()) =~= hint);
    lemma_hint_fields(hint, 0, timestamp, key, value_sz, pos);
    assert(hint.skip(32) =~= hint.subrange(32, 32int + key.len()));
}

/// Headers are as long as their fields, and a field is eight bytes.
pub proof fn law_header_lengths(key_sz: nat, value_sz: nat, bytes: Seq<u8>, at: int)
    ensures
        HEADER_LEN == 4 + 8 + 8 + 8,
        HINT_HEADER_LEN == 8 + 8 + 8 + 8,
        record_len(key_sz, value_sz) == 28 + key_sz + value_sz,
        field(bytes, at) == le_value(bytes.subrange(at, at + 8)),
{
}

/// What contracts say of the images of files, of lists of texts and of bytes to
/// append, they say of their fields and elements, one by one.
pub proof fn law_views_hold_everything(
    files: Seq<FileImage>,
    strings: Seq<String>,
    append: Append,
    i: int,
)
    ensures
        views(files).len() == files.len(),
        0 <= i < files.len() ==> {
            let file = views(files)[i];
            &&& file.file_id == files[i].file_id
            &&& file.hint is Some <==> files[i].hint is Some
            &&& files[i].hint matches Some(hint) ==> file.hint->0 == hint@
            &&& file.log is Some <==> files[i].log is Some
            &&& files[i].log matches Some(log) ==> file.log->0 == log@
        },
        texts(strings).len() == strings.len(),
        0 <= i < strings.len() ==> texts(strings)[i] == strings[i]@,
        append@.file_id == append.file_id,
        append@.rotated == append.rotated,
        append@.bytes == append.bytes@,
{
}

/// What contracts say of a result they say of what was loaded or opened, or of
/// the very error.
pub proof fn law_results_are_told_apart(dir: KeyDir, store: Ronin, error: LoadError)
    ensures
        loaded(Ok(dir)) == Ok::<_, LoadError>(dir@),
        loaded(Err(error)) == Err::<Map<Seq<char>, crate::key_dir::KeyDirEntry>, _>(error),
        state(Ok(store)) == Ok::<_, LoadError>(store@),
        state(Err(error)) == Err::<crate::store::StoreView, _>(error),
{
}

} // verus!
