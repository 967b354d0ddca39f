//! The laws of single operations: when each is accepted, and what it does.

use crate::checksum::crc32;
use crate::format_laws::law_record_layout;
use crate::key_dir::KeyDirEntry;
use crate::le::le_value;
use crate::model::{lookup, readable};
use crate::recovery::{rebuilt, FileView, LoadError};
use crate::store::{
    highest_id, opened, OffsetOverflow, ReadAt, StoreView, WriteError, MAX_FILE_SIZE,
};
use vstd::prelude::*;
use vstd::utf8::encode_utf8;

verus! {

/// An active file of 2 GiB or more takes no further record, and any other one
/// does.
pub proof fn law_threshold(store: StoreView)
    ensures
        MAX_FILE_SIZE == 2 * 1024 * 1024 * 1024,
        store.reaches_threshold() <==> store.active_len >= 2 * 1024 * 1024 * 1024,
{
}

/// A record is accepted exactly if a buffer and its file can hold it and there is
/// an id for its file: no record that fits is refused, whatever its key and
/// value. One that is too large for a buffer is refused as such, whatever ids
/// are left.
pub proof fn law_write_is_accepted_if_it_fits(store: StoreView, key_sz: nat, value_sz: nat)
    ensures
        ({
            let len = 28 + key_sz + value_sz;
            let full = store.active_len >= 2 * 1024 * 1024 * 1024;
            let end = (if full {
                0
            } else {
                store.active_len as int
            }) + len;
            let error = store.write_error(key_sz, value_sz);
            &&& error is None <==> {
                &&& len <= isize::MAX
                &&& end <= i64::MAX
                &&& !full || store.active_file_id < u32::MAX
            }
            &&& error == Some(WriteError::FileIdsExhausted) <==> {
                &&& len <= isize::MAX
                &&& full && store.active_file_id == u32::MAX
            }
            &&& error is Some ==> error == Some(WriteError::RecordTooLarge) || error == Some(
                WriteError::FileIdsExhausted,
            )
        }),
{
}

/// What can be put can be deleted: a store that accepts a put of a key accepts a
/// deletion of it in the same state, and also after the put, where the active
/// file has room for it or is full and an id is left.
pub proof fn law_what_is_put_can_be_deleted(
    store: StoreView,
    key: Seq<char>,
    value: Seq<char>,
    timestamp: u64,
)
    requires
        store.write_error(encode_utf8(key).len(), encode_utf8(value).len()) is None,
    ensures
        store.write_error(encode_utf8(key).len(), 0) is None,
        ({
            let written = store.written(key, value, timestamp);
            let room = if written.active_len < 2 * 1024 * 1024 * 1024 {
                written.active_len + 28 + encode_utf8(key).len() <= i64::MAX
            } else {
                written.active_file_id < u32::MAX
            };
            room ==> written.write_error(encode_utf8(key).len(), 0) is None
        }),
{
}

/// Writing appends one record, which holds the time, the key and the value and
/// bears the checksum of all that, at the end of the active file or, if that is
/// full, at the start of a file with the next id. From then on that file is the
/// active one, as long as the record makes it, and the key is known at the
/// position of the record; all other keys are known as before.
pub proof fn law_write(store: StoreView, key: Seq<char>, value: Seq<char>, timestamp: u64)
    requires
        store.write_error(encode_utf8(key).len(), encode_utf8(value).len()) is None,
    ensures
        ({
            let k = encode_utf8(key);
            let v = encode_utf8(value);
            let full = store.active_len >= 2 * 1024 * 1024 * 1024;
            let append = store.append(key, value, timestamp);
            let written = store.written(key, value, timestamp);
            &&& append.rotated == full
            &&& append.file_id == store.active_file_id + (if full {
                1int
            } else {
                0
            })
            &&& append.bytes.len() == 28 + k.len() + v.len()
            &&& le_value(append.bytes.subrange(0, 4)) == crc32(append.bytes.skip(4))
            &&& le_value(append.bytes.subrange(4, 12)) == timestamp
            &&& le_value(append.bytes.subrange(12, 20)) == k.len()
            &&& le_value(append.bytes.subrange(20, 28)) == v.len()
            &&& append.bytes.subrange(28, 28 + k.len() as int) == k
            &&& append.bytes.skip(28 + k.len() as int) == v
            &&& written.active_file_id == append.file_id
            &&& written.active_len == append.bytes.len() + (if full {
                0
            } else {
                store.active_len as int
            })
            &&& written.key_dir.dom() == store.key_dir.dom().insert(key)
            &&& written.key_dir[key].file_id == append.file_id
            &&& written.key_dir[key].value_pos == written.active_len - append.bytes.len()
            &&& written.key_dir[key].value_sz == v.len()
            &&& written.key_dir[key].timestamp == timestamp
            &&& forall|other: Seq<char>|
                other != key ==> #[trigger] written.key_dir[other] == store.key_dir[other]
        }),
{
    law_record_layout(timestamp, encode_utf8(key), encode_utf8(value));
    assert(store.written(key, value, timestamp).key_dir.dom() =~= store.key_dir.dom().insert(key));
}

/// Deleting appends the record that putting an empty value would append, and the
/// key is unknown from then on; all other keys are known as before.
pub proof fn law_delete(store: StoreView, key: Seq<char>, timestamp: u64)
    requires
        store.write_error(encode_utf8(key).len(), 0) is None,
    ensures
        ({
            let append = store.append(key, Seq::empty(), timestamp);
            let deleted = store.deleted(key, timestamp);
            &&& append.bytes.len() == 28 + encode_utf8(key).len()
            &&& le_value(append.bytes.subrange(4, 12)) == timestamp
            &&& le_value(append.bytes.subrange(20, 28)) == 0
            &&& append.bytes.skip(28) == encode_utf8(key)
            &&& deleted.active_file_id == append.file_id
            &&& deleted.active_len == append.bytes.len() + (if append.rotated {
                0
            } else {
                store.active_len as int
            })
            &&& deleted.key_dir.dom() == store.key_dir.dom().remove(key)
            &&& forall|other: Seq<char>|
                other != key ==> #[trigger] deleted.key_dir[other] == store.key_dir[other]
        }),
{
    let none = Seq::<char>::empty();
    let bytes = store.append(key, none, timestamp).bytes;
    assert(encode_utf8(none) =~= Seq::<u8>::empty());
    law_record_layout(timestamp, encode_utf8(key), encode_utf8(none));
    assert(bytes.skip(28) =~= bytes.subrange(28, 28 + encode_utf8(key).len() as int));
    assert(store.deleted(key, timestamp).key_dir.dom() =~= store.key_dir.dom().remove(key));
}

/// A new active file has the next id and no bytes, and nothing else changes.
pub proof fn law_next_file(store: StoreView)
    requires
        store.active_file_id < u32::MAX,
    ensures
        store.rotated().active_file_id == store.active_file_id + 1,
        store.rotated().active_len == 0,
        store.rotated().key_dir == store.key_dir,
{
}

/// A key is found exactly if it is known. Its value lies in the file of its
/// entry behind the 28 bytes of the header and the key, and is as long as the
/// entry says. It is refused only where no 64-bit number tells that position.
pub proof fn law_get(store: StoreView, key: Seq<char>)
    ensures
        ({
            let entry = store.key_dir[key];
            let offset = entry.value_pos + 28 + encode_utf8(key).len();
            match store.found(key) {
                Ok(None) => !store.key_dir.contains_key(key),
                Ok(Some(at)) => {
                    &&& store.key_dir.contains_key(key)
                    &&& at.file_id == entry.file_id
                    &&& at.offset == offset
                    &&& at.len == entry.value_sz
                },
                Err(_) => store.key_dir.contains_key(key) && offset > u64::MAX,
            }
        }),
{
}

/// A store that is opened knows what its files say, has the highest of their ids
/// as that of its active file, or 0 where there is none, and takes over the
/// length of that file. It is refused exactly where the files cannot be loaded.
pub proof fn law_open(files: Seq<FileView>, active_len: u64)
    ensures
        match opened(files, active_len) {
            Ok(store) => {
                &&& rebuilt(files) == Ok::<Map<Seq<char>, KeyDirEntry>, LoadError>(store.key_dir)
                &&& store.active_len == active_len
                &&& forall|i: int|
                    0 <= i < files.len() ==> (#[trigger] files[i]).file_id <= store.active_file_id
                &&& store.active_file_id != 0 ==> exists|i: int|
                    0 <= i < files.len() && (#[trigger] files[i]).file_id == store.active_file_id
            },
            Err(e) => rebuilt(files) == Err::<Map<Seq<char>, KeyDirEntry>, LoadError>(e),
        },
{
    lemma_highest(files);
}

proof fn lemma_highest(files: Seq<FileView>)
    ensures
        forall|i: int|
            0 <= i < files.len() ==> (#[trigger] files[i]).file_id <= highest_id(files),
        highest_id(files) != 0 ==> exists|i: int|
            0 <= i < files.len() && (#[trigger] files[i]).file_id == highest_id(files),
    decreases files.len(),
{
    if files.len() > 0 {
        let before = files.drop_last();
        lemma_highest(before);
        assert forall|i: int| 0 <= i < files.len() implies (#[trigger] files[i]).file_id
            <= highest_id(files) by {
            if i < before.len() {
                assert(before[i].file_id <= highest_id(before));
            }
        }
        if files.last().file_id > highest_id(before) {
            assert(files[files.len() - 1].file_id == highest_id(files));
        } else if highest_id(before) != 0 {
            let i = choose|i: int|
                0 <= i < before.len() && (#[trigger] before[i]).file_id == highest_id(before);
            assert(files[i].file_id == highest_id(files));
        }
    }
}

/// A value that can be read is found: where every value can be read, no key is
/// refused.
pub proof fn law_readable_is_found(store: StoreView, disk: Seq<FileView>, key: Seq<char>)
    requires
        readable(store, disk),
    ensures
        store.found(key) is Ok,
        store.found(key) == Ok::<Option<ReadAt>, OffsetOverflow>(None)
            <==> !store.key_dir.contains_key(key),
{
    if store.key_dir.contains_key(key) {
        assert(lookup(store, disk, key) is Some);
    }
}

} // verus!
