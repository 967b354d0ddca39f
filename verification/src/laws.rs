//! The laws of the store.

use crate::checksum::crc32;
use crate::key_dir::KeyDirEntry;
use crate::le::le_value;
use crate::model::{
    accepted, apply, behind_hint, contents, durable, empty_file, extendable, history, in_step,
    indexed, log_of, lookup, map_history, ordered, points_at_record, read, readable, record_at, Op,
};
use crate::record::{
    field, lemma_record_fields, lemma_record_parts, record_bytes, record_len, HEADER_LEN,
    HINT_HEADER_LEN,
};
use crate::recovery::{rebuilt, replay_file, replay_log, updated, FileView, LoadError};
use crate::scan::{
    agree, has_record, lemma_endless_scan, lemma_hints_decide, lemma_log_decides,
    lemma_replay_hints_longer, lemma_replay_log_torn, lemma_replay_one_record, whole_hints,
};
use crate::store::{highest_id, opened, OffsetOverflow, ReadAt, StoreView, MAX_FILE_SIZE};
use vstd::prelude::*;
use vstd::utf8::{decode_utf8, encode_utf8, valid_utf8};

verus! {

/// No file has an id above that of the last one.
pub(crate) proof fn lemma_no_log_above(disk: Seq<FileView>, file_id: u32)
    requires
        ordered(disk),
        disk.len() > 0 ==> disk.last().file_id < file_id,
    ensures
        log_of(disk, file_id) is None,
    decreases disk.len(),
{
    if disk.len() > 0 {
        let before = disk.drop_last();
        assert(before.len() > 0 ==> before.last().file_id < disk.last().file_id);
        lemma_no_log_above(before, file_id);
    }
}

/// What lies in the files stays in place when bytes are appended, and the
/// appended bytes lie at the end of the file that takes them.
pub(crate) proof fn lemma_applied(
    store: StoreView,
    disk: Seq<FileView>,
    key: Seq<char>,
    value: Seq<char>,
    timestamp: u64,
)
    requires
        in_step(store, disk),
        store.write_error(encode_utf8(key).len(), encode_utf8(value).len()) is None,
    ensures
        ({
            let append = store.append(key, value, timestamp);
            let after = apply(disk, append);
            &&& in_step(store.written(key, value, timestamp), after)
            &&& log_of(after, append.file_id) == after.last().log
            &&& after.last().log matches Some(log) && {
                &&& log.len() == store.ready().active_len + append.bytes.len()
                &&& log.subrange(store.ready().active_len as int, log.len() as int) == append.bytes
            }
            &&& append.bytes.len() == record_len(encode_utf8(key).len(), encode_utf8(value).len())
            &&& forall|at: ReadAt|
                (#[trigger] read(disk, at)) is Some ==> read(after, at) == read(disk, at)
        }),
{
    let append = store.append(key, value, timestamp);
    let after = apply(disk, append);
    lemma_record_parts(timestamp, encode_utf8(key), encode_utf8(value));
    if append.rotated {
        lemma_no_log_above(disk, append.file_id);
        assert(after.drop_last() =~= disk);
        assert(append.bytes.subrange(0, append.bytes.len() as int) =~= append.bytes);
    } else {
        let log = disk.last().log->0;
        let longer = after.last().log->0;
        assert(after.drop_last() =~= disk.drop_last());
        assert(longer.subrange(log.len() as int, longer.len() as int) =~= append.bytes);
        assert forall|at: ReadAt| (#[trigger] read(disk, at)) is Some implies read(after, at)
            == read(disk, at) by {
            if at.file_id == disk.last().file_id {
                let end = at.offset + at.len;
                assert(longer.subrange(at.offset as int, end) =~= log.subrange(
                    at.offset as int,
                    end,
                ));
            }
        }
    }
}

/// A read gives back what was written: right after a value was written under a
/// key, its bytes are what is read for that key, and they decode to the value.
pub proof fn law_read_after_write(
    store: StoreView,
    disk: Seq<FileView>,
    key: Seq<char>,
    value: Seq<char>,
    timestamp: u64,
)
    requires
        in_step(store, disk),
        store.write_error(encode_utf8(key).len(), encode_utf8(value).len()) is None,
    ensures
        ({
            let after = apply(disk, store.append(key, value, timestamp));
            let bytes = encode_utf8(value);
            &&& lookup(store.written(key, value, timestamp), after, key) == Some(bytes)
            &&& valid_utf8(bytes) && decode_utf8(bytes) == value
        }),
{
    let append = store.append(key, value, timestamp);
    let after = apply(disk, append);
    let k = encode_utf8(key);
    let v = encode_utf8(value);
    lemma_applied(store, disk, key, value, timestamp);
    let log = after.last().log->0;
    let pos = store.ready().active_len as int;
    lemma_record_fields(log, pos, timestamp, k, v);
    vstd::utf8::encode_utf8_valid_utf8(value);
    vstd::utf8::encode_utf8_decode_utf8(value);
}

/// Writing under one key leaves the value of every other key as it was.
pub proof fn law_write_keeps_other_keys(
    store: StoreView,
    disk: Seq<FileView>,
    key: Seq<char>,
    value: Seq<char>,
    timestamp: u64,
    other: Seq<char>,
)
    requires
        in_step(store, disk),
        store.write_error(encode_utf8(key).len(), encode_utf8(value).len()) is None,
        other != key,
        store.key_dir.contains_key(other) ==> lookup(store, disk, other) is Some,
    ensures
        lookup(
            store.written(key, value, timestamp),
            apply(disk, store.append(key, value, timestamp)),
            other,
        ) == lookup(store, disk, other),
{
    lemma_applied(store, disk, key, value, timestamp);
}

/// After a key was deleted it is unknown, and every other key has the value
/// that it had.
pub proof fn law_delete_forgets_one_key(
    store: StoreView,
    disk: Seq<FileView>,
    key: Seq<char>,
    timestamp: u64,
    other: Seq<char>,
)
    requires
        in_step(store, disk),
        store.write_error(encode_utf8(key).len(), 0) is None,
        store.key_dir.contains_key(other) ==> lookup(store, disk, other) is Some,
    ensures
        ({
            let after = apply(disk, store.append(key, Seq::empty(), timestamp));
            let deleted = store.deleted(key, timestamp);
            &&& deleted.found(key) == Ok::<Option<ReadAt>, OffsetOverflow>(None)
            &&& other != key ==> lookup(deleted, after, other) == lookup(store, disk, other)
        }),
{
    lemma_applied(store, disk, key, Seq::empty(), timestamp);
}

/// The store is a map: writing is inserting.
pub proof fn law_write_inserts(
    store: StoreView,
    disk: Seq<FileView>,
    key: Seq<char>,
    value: Seq<char>,
    timestamp: u64,
)
    requires
        in_step(store, disk),
        readable(store, disk),
        store.write_error(encode_utf8(key).len(), encode_utf8(value).len()) is None,
    ensures
        ({
            let after = apply(disk, store.append(key, value, timestamp));
            let written = store.written(key, value, timestamp);
            &&& in_step(written, after)
            &&& readable(written, after)
            &&& contents(written, after) == contents(store, disk).insert(key, encode_utf8(value))
        }),
{
    let after = apply(disk, store.append(key, value, timestamp));
    let written = store.written(key, value, timestamp);
    lemma_applied(store, disk, key, value, timestamp);
    law_read_after_write(store, disk, key, value, timestamp);
    assert forall|k: Seq<char>| #[trigger] written.key_dir.contains_key(k) implies lookup(
        written,
        after,
        k,
    ) == (if k == key {
        Some(encode_utf8(value))
    } else {
        lookup(store, disk, k)
    }) by {
        if k != key {
            law_write_keeps_other_keys(store, disk, key, value, timestamp, k);
        }
    }
    assert(contents(written, after) =~= contents(store, disk).insert(key, encode_utf8(value)));
}

/// The store is a map: deleting is removing.
pub proof fn law_delete_removes(
    store: StoreView,
    disk: Seq<FileView>,
    key: Seq<char>,
    timestamp: u64,
)
    requires
        in_step(store, disk),
        readable(store, disk),
        store.write_error(encode_utf8(key).len(), 0) is None,
    ensures
        ({
            let after = apply(disk, store.append(key, Seq::empty(), timestamp));
            let deleted = store.deleted(key, timestamp);
            &&& in_step(deleted, after)
            &&& readable(deleted, after)
            &&& contents(deleted, after) == contents(store, disk).remove(key)
        }),
{
    let after = apply(disk, store.append(key, Seq::empty(), timestamp));
    let deleted = store.deleted(key, timestamp);
    lemma_applied(store, disk, key, Seq::empty(), timestamp);
    assert forall|k: Seq<char>| #[trigger] deleted.key_dir.contains_key(k) implies lookup(
        deleted,
        after,
        k,
    ) == lookup(store, disk, k) by {
        law_delete_forgets_one_key(store, disk, key, timestamp, k);
    }
    assert(contents(deleted, after) =~= contents(store, disk).remove(key));
}

/// The store behaves as a map through any sequence of puts and deletes: every
/// key reads as the value that was put last, unless it was deleted since.
pub proof fn law_history(store: StoreView, disk: Seq<FileView>, ops: Seq<Op>)
    requires
        in_step(store, disk),
        readable(store, disk),
        accepted(store, disk, ops),
    ensures
        ({
            let (s, d) = history(store, disk, ops);
            &&& in_step(s, d)
            &&& readable(s, d)
            &&& contents(s, d) == map_history(contents(store, disk), ops)
        }),
    decreases ops.len(),
{
    if ops.len() > 0 {
        law_history(store, disk, ops.drop_last());
        let (s, d) = history(store, disk, ops.drop_last());
        match ops.last() {
            Op::Put { key, value, timestamp } => {
                law_write_inserts(s, d, key, value, timestamp);
            },
            Op::Delete { key, timestamp } => {
                law_delete_removes(s, d, key, timestamp);
            },
        }
    }
}

/// Data files only grow: writing leaves every file in its place, and what a
/// file held it still holds at its beginning.
pub proof fn law_append_only(
    store: StoreView,
    disk: Seq<FileView>,
    key: Seq<char>,
    value: Seq<char>,
    timestamp: u64,
    i: int,
)
    requires
        in_step(store, disk),
        0 <= i < disk.len(),
        disk[i].log is Some,
    ensures
        ({
            let after = apply(disk, store.append(key, value, timestamp));
            &&& i < after.len()
            &&& after[i].file_id == disk[i].file_id
            &&& after[i].hint == disk[i].hint
            &&& after[i].log matches Some(log) && (disk[i].log->0).is_prefix_of(log)
        }),
{
    let after = apply(disk, store.append(key, value, timestamp));
    let log = disk[i].log->0;
    assert(log.is_prefix_of(log)) by {
        assert(log.subrange(0, log.len() as int) =~= log);
    }
    if !store.reaches_threshold() && i == disk.len() - 1 {
        assert((after[i].log->0).subrange(0, log.len() as int) =~= log);
    }
}

/// A record starts below the maximum file size; a new file is started exactly
/// when the active one has reached it, and then the record stands first in it.
pub proof fn law_rotation(store: StoreView, key: Seq<char>, value: Seq<char>, timestamp: u64)
    ensures
        store.new_entry(value, timestamp).value_pos < MAX_FILE_SIZE,
        store.append(key, value, timestamp).rotated <==> store.active_len >= MAX_FILE_SIZE,
        store.append(key, value, timestamp).rotated ==> {
            &&& store.append(key, value, timestamp).file_id == store.rotated().active_file_id
            &&& store.new_entry(value, timestamp).value_pos == 0
        },
        !store.append(key, value, timestamp).rotated ==> {
            &&& store.append(key, value, timestamp).file_id == store.active_file_id
            &&& store.new_entry(value, timestamp).value_pos == store.active_len
        },
{
}

/// A new active file changes nothing that the store holds: every key is found
/// where it was and reads as it did, the same keys are known, every file that
/// was there is there with the same bytes, and the directory loads as it did.
pub proof fn law_rotation_keeps_contents(store: StoreView, disk: Seq<FileView>)
    requires
        in_step(store, disk),
        readable(store, disk),
        store.active_file_id < u32::MAX,
    ensures
        ({
            let after = disk.push(empty_file(store.rotated().active_file_id));
            &&& in_step(store.rotated(), after)
            &&& readable(store.rotated(), after)
            &&& contents(store.rotated(), after) == contents(store, disk)
            &&& forall|key: Seq<char>|
                (#[trigger] store.rotated().found(key)) == store.found(key)
            &&& store.rotated().key_dir == store.key_dir
            &&& forall|i: int| 0 <= i < disk.len() ==> #[trigger] after[i] == disk[i]
            &&& rebuilt(after) == rebuilt(disk)
        }),
{
    let after = disk.push(empty_file(store.rotated().active_file_id));
    lemma_reads_after_rotation(store, disk);
    assert(after.drop_last() =~= disk);
    assert forall|key: Seq<char>| #[trigger] store.key_dir.contains_key(key) implies lookup(
        store.rotated(),
        after,
        key,
    ) == lookup(store, disk, key) by {
        assert(store.rotated().found(key) == store.found(key));
    }
    assert(contents(store.rotated(), after) =~= contents(store, disk));
}

/// What lies in the files stays in place when a new file is started.
pub(crate) proof fn lemma_reads_after_rotation(store: StoreView, disk: Seq<FileView>)
    requires
        in_step(store, disk),
        store.active_file_id < u32::MAX,
    ensures
        forall|at: ReadAt|
            (#[trigger] read(disk, at)) is Some ==> read(
                disk.push(empty_file(store.rotated().active_file_id)),
                at,
            ) == read(disk, at),
{
    lemma_no_log_above(disk, store.rotated().active_file_id);
    assert(disk.push(empty_file(store.rotated().active_file_id)).drop_last() =~= disk);
}

/// Where the entries of a store point at records, every value can be read: the
/// value of a key is the end of the record that its entry points at.
pub proof fn law_indexed_is_readable(store: StoreView, disk: Seq<FileView>)
    requires
        indexed(store.key_dir, disk),
    ensures
        readable(store, disk),
        forall|key: Seq<char>| #[trigger]
            store.key_dir.contains_key(key) ==> lookup(store, disk, key) == Some(
                (record_at(disk, key, store.key_dir[key])->0).skip(
                    HEADER_LEN + encode_utf8(key).len(),
                ),
            ),
{
    assert forall|key: Seq<char>| #[trigger] store.key_dir.contains_key(key) implies lookup(
        store,
        disk,
        key,
    ) == Some(
        (record_at(disk, key, store.key_dir[key])->0).skip(HEADER_LEN + encode_utf8(key).len()),
    ) by {
        let entry = store.key_dir[key];
        let record = record_at(disk, key, entry)->0;
        let ahead = HEADER_LEN + encode_utf8(key).len();
        let log = log_of(disk, entry.file_id)->0;
        assert(points_at_record(disk, key, entry));
        assert(record.skip(ahead) =~= log.subrange(
            entry.value_pos + ahead,
            entry.value_pos + ahead + entry.value_sz,
        ));
    }
}

/// The record that an entry points at bears the checksum of all that stands
/// behind it, the time and size of the entry, and the key.
pub proof fn law_indexed_record_is_intact(
    disk: Seq<FileView>,
    key: Seq<char>,
    entry: KeyDirEntry,
)
    requires
        points_at_record(disk, key, entry),
    ensures
        ({
            let record = record_at(disk, key, entry)->0;
            let k = encode_utf8(key);
            &&& le_value(record.subrange(0, 4)) == crc32(record.skip(4))
            &&& field(record, 4) == entry.timestamp
            &&& field(record, 12) == k.len()
            &&& field(record, 20) == entry.value_sz
            &&& record.subrange(28, 28int + k.len()) == k
            &&& record.len() == record_len(k.len(), entry.value_sz as nat)
        }),
{
    let record = record_at(disk, key, entry)->0;
    let k = encode_utf8(key);
    let value = record.skip(HEADER_LEN + k.len());
    law_record_checksum(entry.timestamp, k, value);
    assert(record.skip(4) =~= record.subrange(4, record.len() as int));
    assert(record.subrange(0, record.len() as int) =~= record);
    lemma_record_fields(record, 0, entry.timestamp, k, value);
}

/// Every record bears the checksum of all that stands behind it.
pub proof fn law_record_checksum(timestamp: u64, key: Seq<u8>, value: Seq<u8>)
    ensures
        ({
            let record = record_bytes(timestamp, key, value);
            le_value(record.subrange(0, 4)) == crc32(record.subrange(4, record.len() as int))
        }),
{
    let body = crate::record::record_body(timestamp, key, value);
    let record = record_bytes(timestamp, key, value);
    lemma_record_parts(timestamp, key, value);
    crate::le::lemma_capacities();
    crate::le::lemma_le_round_trip(crc32(body) as nat, 4);
    crate::le::lemma_le_bytes_len(crc32(body) as nat, 4);
    assert(record.subrange(4, record.len() as int) =~= body);
}

/// A text is encoded by no bytes exactly if it is empty.
pub(crate) proof fn lemma_empty_text(text: Seq<char>)
    ensures
        encode_utf8(text).len() == 0 <==> text.len() == 0,
{
    if text.len() > 0 {
        vstd::utf8::encode_utf8_decode_utf8(text);
        if encode_utf8(text).len() == 0 {
            assert(encode_utf8(text) =~= Seq::<u8>::empty());
            assert(encode_utf8(Seq::<char>::empty()) =~= Seq::<u8>::empty());
            vstd::utf8::encode_utf8_decode_utf8(Seq::<char>::empty());
        }
    }
}

/// What rebuilding the key directory gives after one more record.
pub(crate) proof fn lemma_rebuilt_after_write(
    store: StoreView,
    disk: Seq<FileView>,
    key: Seq<char>,
    value: Seq<char>,
    timestamp: u64,
)
    requires
        durable(store, disk),
        store.write_error(encode_utf8(key).len(), encode_utf8(value).len()) is None,
    ensures
        ({
            let after = apply(disk, store.append(key, value, timestamp));
            &&& rebuilt(after) == Ok::<Map<Seq<char>, KeyDirEntry>, LoadError>(
                updated(store.key_dir, key, store.new_entry(value, timestamp)),
            )
            &&& extendable(after.last())
        }),
{
    let append = store.append(key, value, timestamp);
    let after = apply(disk, append);
    let v = encode_utf8(value);
    if append.rotated {
        let none = Seq::<u8>::empty();
        assert(after.drop_last() =~= disk);
        assert(none + append.bytes =~= append.bytes);
        assert(replay_log(none, append.file_id, store.key_dir) == Ok::<
            Map<Seq<char>, KeyDirEntry>,
            LoadError,
        >(store.key_dir));
        lemma_replay_one_record(none, append.file_id, store.key_dir, timestamp, key, v);
    } else {
        let before = disk.drop_last();
        assert(after.drop_last() =~= before);
        lemma_replay_one_record(
            disk.last().log->0,
            append.file_id,
            rebuilt(before)->Ok_0,
            timestamp,
            key,
            v,
        );
    }
}

/// What is written into a file that has a hint file is not loaded: until the
/// active file is full, or the store is merged again, a directory whose active
/// file came from a merge loads as it did before the write.
pub proof fn law_write_behind_hint_is_not_loaded(
    store: StoreView,
    disk: Seq<FileView>,
    key: Seq<char>,
    value: Seq<char>,
    timestamp: u64,
)
    requires
        in_step(store, disk),
        behind_hint(store, disk),
    ensures
        rebuilt(apply(disk, store.append(key, value, timestamp))) == rebuilt(disk),
{
    let append = store.append(key, value, timestamp);
    let last = disk.len() - 1;
    let log = Some(disk.last().log->0 + append.bytes);
    assert(apply(disk, append) =~= disk.update(last, FileView { log, ..disk[last] }));
    law_hint_file_decides(disk, last, log);
}

/// What was written is still there after the store is opened again: a directory
/// that says all that the store knows goes on doing so when a value that is not
/// empty is written.
pub proof fn law_write_is_durable(
    store: StoreView,
    disk: Seq<FileView>,
    key: Seq<char>,
    value: Seq<char>,
    timestamp: u64,
)
    requires
        durable(store, disk),
        store.write_error(encode_utf8(key).len(), encode_utf8(value).len()) is None,
        value.len() > 0,
    ensures
        durable(
            store.written(key, value, timestamp),
            apply(disk, store.append(key, value, timestamp)),
        ),
{
    lemma_empty_text(value);
    lemma_applied(store, disk, key, value, timestamp);
    lemma_rebuilt_after_write(store, disk, key, value, timestamp);
}

/// An empty value reads back as long as the store stays open; to a store that
/// is opened again its record says that the key was deleted.
pub proof fn law_empty_value_is_deletion(
    store: StoreView,
    disk: Seq<FileView>,
    key: Seq<char>,
    timestamp: u64,
)
    requires
        durable(store, disk),
        store.write_error(encode_utf8(key).len(), 0) is None,
    ensures
        ({
            let after = apply(disk, store.append(key, Seq::empty(), timestamp));
            let written = store.written(key, Seq::empty(), timestamp);
            &&& lookup(written, after, key) == Some(Seq::<u8>::empty())
            &&& rebuilt(after) == Ok::<Map<Seq<char>, KeyDirEntry>, LoadError>(
                store.key_dir.remove(key),
            )
        }),
{
    lemma_empty_text(Seq::empty());
    law_read_after_write(store, disk, key, Seq::empty(), timestamp);
    lemma_rebuilt_after_write(store, disk, key, Seq::empty(), timestamp);
    assert(encode_utf8(Seq::<char>::empty()) =~= Seq::<u8>::empty());
}

/// What was deleted is still gone after the store is opened again.
pub proof fn law_delete_is_durable(
    store: StoreView,
    disk: Seq<FileView>,
    key: Seq<char>,
    timestamp: u64,
)
    requires
        durable(store, disk),
        store.write_error(encode_utf8(key).len(), 0) is None,
    ensures
        durable(
            store.deleted(key, timestamp),
            apply(disk, store.append(key, Seq::empty(), timestamp)),
        ),
{
    lemma_empty_text(Seq::empty());
    lemma_applied(store, disk, key, Seq::empty(), timestamp);
    lemma_rebuilt_after_write(store, disk, key, Seq::empty(), timestamp);
}

/// In a directory whose ids ascend, the last file has the highest id.
pub(crate) proof fn lemma_highest_is_last(disk: Seq<FileView>)
    requires
        ordered(disk),
        disk.len() > 0,
    ensures
        highest_id(disk) == disk.last().file_id,
    decreases disk.len(),
{
    let before = disk.drop_last();
    if before.len() > 0 {
        assert(before.last().file_id < disk.last().file_id);
        lemma_highest_is_last(before);
    } else {
        assert(highest_id(before) == 0);
    }
}

/// Opening the directory of a store again gives the store as it was: the same
/// keys in the same places, and the same active file.
pub proof fn law_reopen(store: StoreView, disk: Seq<FileView>)
    requires
        durable(store, disk),
    ensures
        opened(disk, (disk.last().log->0).len() as u64) == Ok::<StoreView, LoadError>(store),
{
    lemma_highest_is_last(disk);
}

/// After any sequence of puts and deletes, opening the directory again gives
/// the store as it was, where no empty value was put.
pub proof fn law_history_reopens(store: StoreView, disk: Seq<FileView>, ops: Seq<Op>)
    requires
        durable(store, disk),
        accepted(store, disk, ops),
        forall|i: int| 0 <= i < ops.len() ==> !(#[trigger] ops[i]).puts_nothing(),
    ensures
        ({
            let (s, d) = history(store, disk, ops);
            &&& durable(s, d)
            &&& opened(d, (d.last().log->0).len() as u64) == Ok::<StoreView, LoadError>(s)
        }),
    decreases ops.len(),
{
    if ops.len() > 0 {
        let before = ops.drop_last();
        assert forall|i: int|
            0 <= i < before.len() implies !(#[trigger] before[i]).puts_nothing() by {
            assert(before[i] == ops[i]);
        }
        law_history_reopens(store, disk, before);
        let (s, d) = history(store, disk, before);
        assert(ops.last() == ops[ops.len() - 1]);
        match ops.last() {
            Op::Put { key, value, timestamp } => {
                law_write_is_durable(s, d, key, value, timestamp);
            },
            Op::Delete { key, timestamp } => {
                law_delete_is_durable(s, d, key, timestamp);
            },
        }
    }
    let (s, d) = history(store, disk, ops);
    law_reopen(s, d);
}

/// A store that is opened on an empty directory has no keys and starts with
/// file 0. Once that file is there, the directory says all that the store knows.
pub proof fn law_new_store()
    ensures
        ({
            let listed = seq![FileView { file_id: 0, hint: None, log: None }];
            let created = seq![FileView { file_id: 0, hint: None, log: Some(Seq::<u8>::empty()) }];
            let store = StoreView { key_dir: Map::empty(), active_file_id: 0, active_len: 0 };
            &&& opened(listed, 0) == Ok::<StoreView, LoadError>(store)
            &&& durable(store, created)
            &&& readable(store, created)
        }),
{
    let listed = seq![FileView { file_id: 0, hint: None, log: None }];
    let created = seq![FileView { file_id: 0, hint: None, log: Some(Seq::<u8>::empty()) }];
    let store = StoreView { key_dir: Map::empty(), active_file_id: 0, active_len: 0 };
    assert(listed.drop_last() =~= Seq::empty());
    assert(created.drop_last() =~= Seq::empty());
    assert(rebuilt(Seq::empty()) == Ok::<Map<Seq<char>, KeyDirEntry>, LoadError>(Map::empty()));
    assert(highest_id(listed.drop_last()) == 0);
    assert(replay_log(Seq::empty(), 0, Map::empty()) == Ok::<
        Map<Seq<char>, KeyDirEntry>,
        LoadError,
    >(Map::empty()));
}

/// A crash that leaves less than a header of the record being written costs
/// that record and nothing else, whichever data file it is.
pub proof fn law_torn_header_is_ignored(files: Seq<FileView>, i: int, torn: Seq<u8>)
    requires
        0 <= i < files.len(),
        extendable(files[i]),
        torn.len() < HEADER_LEN,
    ensures
        rebuilt(
            files.update(i, FileView { log: Some(files[i].log->0 + torn), ..files[i] }),
        ) == rebuilt(files),
    decreases files.len(),
{
    let torn_file = FileView { log: Some(files[i].log->0 + torn), ..files[i] };
    let crashed = files.update(i, torn_file);
    let before = files.drop_last();
    if i < before.len() {
        assert(crashed.drop_last() =~= before.update(i, torn_file));
        law_torn_header_is_ignored(before, i, torn);
    } else {
        assert(crashed.drop_last() =~= before);
        if let Ok(dir) = rebuilt(before) {
            lemma_replay_log_torn(files[i].log->0, torn, files[i].file_id, dir);
        }
    }
}

/// The same holds of a hint file: less than a header of the hint being written
/// is ignored.
pub proof fn law_torn_hint_is_ignored(files: Seq<FileView>, i: int, torn: Seq<u8>)
    requires
        0 <= i < files.len(),
        files[i].hint matches Some(hints) && whole_hints(hints, 0),
        torn.len() < HINT_HEADER_LEN,
    ensures
        rebuilt(
            files.update(i, FileView { hint: Some(files[i].hint->0 + torn), ..files[i] }),
        ) == rebuilt(files),
    decreases files.len(),
{
    let torn_file = FileView { hint: Some(files[i].hint->0 + torn), ..files[i] };
    let crashed = files.update(i, torn_file);
    let before = files.drop_last();
    if i < before.len() {
        assert(crashed.drop_last() =~= before.update(i, torn_file));
        law_torn_hint_is_ignored(before, i, torn);
    } else {
        assert(crashed.drop_last() =~= before);
        if let Ok(dir) = rebuilt(before) {
            lemma_replay_hints_longer(files[i].hint->0, torn, files[i].file_id, 0, dir);
        }
    }
}

/// Loading gives up on a data file as endless only where it is: however many
/// records were found, another one follows.
pub proof fn law_endless_scan_never_ends(
    log: Seq<u8>,
    file_id: u32,
    dir: Map<Seq<char>, KeyDirEntry>,
)
    requires
        replay_log(log, file_id, dir) == Err::<Map<Seq<char>, KeyDirEntry>, LoadError>(
            LoadError::EndlessScan,
        ),
    ensures
        forall|n: nat| #[trigger] has_record(log, n),
{
    assert forall|n: nat| #[trigger] has_record(log, n) by {
        lemma_endless_scan(log, file_id, dir, n);
    }
}

/// Where a data file has a hint file, the hint file alone decides what is
/// loaded: what the data file holds makes no difference.
pub proof fn law_hint_file_decides(files: Seq<FileView>, i: int, log: Option<Seq<u8>>)
    requires
        0 <= i < files.len(),
        files[i].hint is Some,
    ensures
        rebuilt(files.update(i, FileView { log, ..files[i] })) == rebuilt(files),
    decreases files.len(),
{
    let other = files.update(i, FileView { log, ..files[i] });
    if i < files.len() - 1 {
        assert(other.drop_last() =~= files.drop_last().update(i, FileView { log, ..files[i] }));
        law_hint_file_decides(files.drop_last(), i, log);
    } else {
        assert(other.drop_last() =~= files.drop_last());
    }
}

/// Directories that say the same of every key are equal.
proof fn lemma_agreeing_is_equal(
    a: Map<Seq<char>, KeyDirEntry>,
    b: Map<Seq<char>, KeyDirEntry>,
)
    requires
        forall|key: Seq<char>| #[trigger] agree(a, b, key),
    ensures
        a == b,
{
    assert forall|key: Seq<char>| a.dom().contains(key) == #[trigger] b.dom().contains(key) by {
        assert(agree(a, b, key));
    }
    assert forall|key: Seq<char>| a.dom().contains(key) implies a[key] == #[trigger] b[key] by {
        assert(agree(a, b, key));
    }
    assert(a =~= b);
}

/// Loading a file twice is loading it once, so that a file which is listed under
/// two names does no harm.
pub proof fn law_loading_twice_is_loading_once(
    file: FileView,
    dir: Map<Seq<char>, KeyDirEntry>,
)
    requires
        replay_file(file, dir) is Ok,
    ensures
        replay_file(file, replay_file(file, dir)->Ok_0) == replay_file(file, dir),
{
    let once = replay_file(file, dir)->Ok_0;
    let twice = replay_file(file, once);
    if file.hint is Some {
        let hints = file.hint->0;
        lemma_hints_decide(hints, file.file_id, 0, dir, once, Seq::empty());
        assert forall|key: Seq<char>| #[trigger] agree(once, twice->Ok_0, key) by {
            lemma_hints_decide(hints, file.file_id, 0, dir, once, key);
        }
        lemma_agreeing_is_equal(once, twice->Ok_0);
    } else if file.log is Some {
        let log = file.log->0;
        lemma_log_decides(log, file.file_id, 0, dir, once, log.len(), Seq::empty());
        assert forall|key: Seq<char>| #[trigger] agree(once, twice->Ok_0, key) by {
            lemma_log_decides(log, file.file_id, 0, dir, once, log.len(), key);
        }
        lemma_agreeing_is_equal(once, twice->Ok_0);
    }
}

} // verus!
