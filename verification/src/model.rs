//! What a directory of files holds, and what the operations make of it.
//!
//! A directory is the sequence of its data files, each with its hint file, in
//! ascending order of their ids. These definitions say what it means to carry
//! out on such a directory what the operations ask for.

use crate::key_dir::KeyDirEntry;
use crate::merge::MergeView;
use crate::record::{record_bytes, record_len, HEADER_LEN};
use crate::recovery::{rebuilt, FileView, LoadError};
use crate::scan::whole_log;
use crate::store::{opened, AppendView, ReadAt, StoreView, WriteError};
use vstd::prelude::*;
use vstd::utf8::encode_utf8;

verus! {

/// The contents of the data file with the given id.
pub open spec fn log_of(disk: Seq<FileView>, file_id: u32) -> Option<Seq<u8>>
    decreases disk.len(),
{
    if disk.len() == 0 {
        None
    } else if disk.last().file_id == file_id {
        disk.last().log
    } else {
        log_of(disk.drop_last(), file_id)
    }
}

/// The bytes at the given place; `None` where the file does not hold them all.
pub open spec fn read(disk: Seq<FileView>, at: ReadAt) -> Option<Seq<u8>> {
    match log_of(disk, at.file_id) {
        Some(log) => if at.offset + at.len <= log.len() {
            Some(log.subrange(at.offset as int, at.offset + at.len))
        } else {
            None
        },
        None => None,
    }
}

/// The bytes that are read as the value of `key`; `None` where the key is
/// unknown or its value cannot be read.
pub open spec fn lookup(store: StoreView, disk: Seq<FileView>, key: Seq<char>) -> Option<Seq<u8>> {
    match store.found(key) {
        Ok(Some(at)) => read(disk, at),
        _ => None,
    }
}

/// Every known key has a value that can be read.
pub open spec fn readable(store: StoreView, disk: Seq<FileView>) -> bool {
    forall|key: Seq<char>| #[trigger]
        store.key_dir.contains_key(key) ==> lookup(store, disk, key) is Some
}

/// The keys and values that the store holds.
pub open spec fn contents(store: StoreView, disk: Seq<FileView>) -> Map<Seq<char>, Seq<u8>> {
    Map::new(
        |key: Seq<char>| store.key_dir.contains_key(key),
        |key: Seq<char>| lookup(store, disk, key)->0,
    )
}

/// The bytes of the record that an entry points at, if it points at one.
pub open spec fn record_at(disk: Seq<FileView>, key: Seq<char>, entry: KeyDirEntry) -> Option<
    Seq<u8>,
> {
    let len = record_len(encode_utf8(key).len(), entry.value_sz as nat);
    if entry.value_pos + len > i64::MAX {
        None
    } else {
        read(disk, ReadAt { file_id: entry.file_id, offset: entry.value_pos, len: len as u64 })
    }
}

/// An entry points at a complete record of its own key, time and size.
pub open spec fn points_at_record(
    disk: Seq<FileView>,
    key: Seq<char>,
    entry: KeyDirEntry,
) -> bool {
    let k = encode_utf8(key);
    &&& record_at(disk, key, entry) matches Some(record)
    &&& record == record_bytes(entry.timestamp, k, record.skip(HEADER_LEN + k.len()))
}

/// Every entry of a key directory points at a complete record of its key.
pub open spec fn indexed(dir: Map<Seq<char>, KeyDirEntry>, disk: Seq<FileView>) -> bool {
    forall|key: Seq<char>| #[trigger]
        dir.contains_key(key) ==> points_at_record(disk, key, dir[key])
}

/// What a store that is opened on the directory holds.
pub open spec fn saved(disk: Seq<FileView>) -> Map<Seq<char>, Seq<u8>> {
    contents(opened(disk, 0)->Ok_0, disk)
}

/// The keys whose values are not empty.
pub open spec fn without_empty(map: Map<Seq<char>, Seq<u8>>) -> Map<Seq<char>, Seq<u8>> {
    Map::new(
        |key: Seq<char>| map.contains_key(key) && map[key].len() > 0,
        |key: Seq<char>| map[key],
    )
}

/// The next record goes into a file that has a hint file.
pub open spec fn behind_hint(store: StoreView, disk: Seq<FileView>) -> bool {
    !store.reaches_threshold() && disk.last().hint is Some
}

/// A new, empty data file.
pub open spec fn empty_file(file_id: u32) -> FileView {
    FileView { file_id, hint: None, log: Some(Seq::empty()) }
}

/// The directory after the bytes were appended: to a new data file, or to the
/// last one.
pub open spec fn apply(disk: Seq<FileView>, append: AppendView) -> Seq<FileView> {
    if append.rotated {
        disk.push(FileView { file_id: append.file_id, hint: None, log: Some(append.bytes) })
    } else {
        let last = disk.last();
        disk.drop_last().push(FileView { log: Some(last.log->0 + append.bytes), ..last })
    }
}

/// The files have different ids, in ascending order.
pub open spec fn ordered(disk: Seq<FileView>) -> bool {
    forall|i: int, j: int| 0 <= i < j < disk.len() ==> disk[i].file_id < disk[j].file_id
}

/// The store appends to the last file of the directory and knows its length.
pub open spec fn in_step(store: StoreView, disk: Seq<FileView>) -> bool {
    &&& disk.len() > 0
    &&& ordered(disk)
    &&& disk.last().file_id == store.active_file_id
    &&& disk.last().log matches Some(log) && log.len() == store.active_len
}

/// The directory says all that the store knows, and the next record will add to
/// it: the active file holds whole records only and has no hint file, or it is
/// full, so that the record goes to a new file.
pub open spec fn durable(store: StoreView, disk: Seq<FileView>) -> bool {
    &&& in_step(store, disk)
    &&& rebuilt(disk) == Ok::<Map<Seq<char>, KeyDirEntry>, LoadError>(store.key_dir)
    &&& store.reaches_threshold() || extendable(disk.last())
}

/// A data file of whole records, without a hint file.
pub open spec fn extendable(file: FileView) -> bool {
    &&& file.hint is None
    &&& file.log matches Some(log) && whole_log(log, 0)
}

/// The store and its directory belong together: the store appends to the last
/// file, the directory can be loaded, what the store knows and what is loaded
/// point at records, and the last file holds whole records only, unless it is
/// full or has a hint file.
pub open spec fn sound(store: StoreView, disk: Seq<FileView>) -> bool {
    &&& in_step(store, disk)
    &&& indexed(store.key_dir, disk)
    &&& rebuilt(disk) matches Ok(dir) && indexed(dir, disk)
    &&& disk.last().hint is None ==> store.reaches_threshold() || extendable(disk.last())
}

/// A change that was made to a store, and when.
pub enum Op {
    Put { key: Seq<char>, value: Seq<char>, timestamp: u64 },
    Delete { key: Seq<char>, timestamp: u64 },
}

impl Op {
    /// Why the store refuses the change.
    pub open spec fn error(self, store: StoreView) -> Option<WriteError> {
        match self {
            Op::Put { key, value, .. } => store.write_error(
                encode_utf8(key).len(),
                encode_utf8(value).len(),
            ),
            Op::Delete { key, .. } => store.write_error(encode_utf8(key).len(), 0),
        }
    }

    /// The change puts an empty value.
    pub open spec fn puts_nothing(self) -> bool {
        self matches Op::Put { value, .. } && value.len() == 0
    }

    /// What the change asks to append.
    pub open spec fn append(self, store: StoreView) -> AppendView {
        match self {
            Op::Put { key, value, timestamp } => store.append(key, value, timestamp),
            Op::Delete { key, timestamp } => store.append(key, Seq::empty(), timestamp),
        }
    }

    /// The store after the change.
    pub open spec fn changed(self, store: StoreView) -> StoreView {
        match self {
            Op::Put { key, value, timestamp } => store.written(key, value, timestamp),
            Op::Delete { key, timestamp } => store.deleted(key, timestamp),
        }
    }

    /// The key that the change is about.
    pub open spec fn key(self) -> Seq<char> {
        match self {
            Op::Put { key, .. } => key,
            Op::Delete { key, .. } => key,
        }
    }

    /// What the record of the change does to a map from keys to values when it is
    /// loaded: an empty value says that the key was deleted.
    pub open spec fn on_saved(self, map: Map<Seq<char>, Seq<u8>>) -> Map<Seq<char>, Seq<u8>> {
        if self.puts_nothing() {
            map.remove(self.key())
        } else {
            self.on_map(map)
        }
    }

    /// What the change does to a map from keys to values.
    pub open spec fn on_map(self, map: Map<Seq<char>, Seq<u8>>) -> Map<Seq<char>, Seq<u8>> {
        match self {
            Op::Put { key, value, .. } => map.insert(key, encode_utf8(value)),
            Op::Delete { key, .. } => map.remove(key),
        }
    }
}

/// The store and its directory after the changes, one after the other.
pub open spec fn history(store: StoreView, disk: Seq<FileView>, ops: Seq<Op>) -> (
    StoreView,
    Seq<FileView>,
)
    decreases ops.len(),
{
    if ops.len() == 0 {
        (store, disk)
    } else {
        let (s, d) = history(store, disk, ops.drop_last());
        (ops.last().changed(s), apply(d, ops.last().append(s)))
    }
}

/// None of the changes was refused.
pub open spec fn accepted(store: StoreView, disk: Seq<FileView>, ops: Seq<Op>) -> bool
    decreases ops.len(),
{
    ops.len() == 0 || {
        &&& accepted(store, disk, ops.drop_last())
        &&& ops.last().error(history(store, disk, ops.drop_last()).0) is None
    }
}

/// A map from keys to values after the changes, one after the other.
pub open spec fn map_history(
    map: Map<Seq<char>, Seq<u8>>,
    ops: Seq<Op>,
) -> Map<Seq<char>, Seq<u8>>
    decreases ops.len(),
{
    if ops.len() == 0 {
        map
    } else {
        ops.last().on_map(map_history(map, ops.drop_last()))
    }
}

/// The merge after the given values were copied, one after the other.
pub open spec fn run(merge: MergeView, values: Seq<Seq<u8>>) -> MergeView
    decreases values.len(),
{
    if values.len() == 0 {
        merge
    } else {
        run(merge, values.drop_last()).copied(values.last())
    }
}

/// None of these values was refused.
pub open spec fn run_succeeds(merge: MergeView, values: Seq<Seq<u8>>) -> bool
    decreases values.len(),
{
    values.len() == 0 || {
        &&& run_succeeds(merge, values.drop_last())
        &&& run(merge, values.drop_last()).copy_error(values.last().len()) is None
    }
}

/// The data file that copying the values makes.
pub open spec fn run_log(merge: MergeView, values: Seq<Seq<u8>>) -> Seq<u8>
    decreases values.len(),
{
    if values.len() == 0 {
        Seq::empty()
    } else {
        run_log(merge, values.drop_last()) + run(merge, values.drop_last()).record(values.last())
    }
}

/// The hint file that copying the values makes.
pub open spec fn run_hints(merge: MergeView, values: Seq<Seq<u8>>) -> Seq<u8>
    decreases values.len(),
{
    if values.len() == 0 {
        Seq::empty()
    } else {
        run_hints(merge, values.drop_last()) + run(merge, values.drop_last()).hint(values.last())
    }
}

/// The two files that copying the values makes.
pub open spec fn merged_file(merge: MergeView, values: Seq<Seq<u8>>) -> FileView {
    FileView {
        file_id: merge.file_id,
        hint: Some(run_hints(merge, values)),
        log: Some(run_log(merge, values)),
    }
}

/// The values are those that the directory holds for the pending keys.
pub open spec fn values_read(merge: MergeView, disk: Seq<FileView>, values: Seq<Seq<u8>>) -> bool {
    &&& values.len() == merge.pending.len()
    &&& forall|i: int|
        0 <= i < values.len() ==> read(disk, (#[trigger] merge.pending[i]).1) == Some(values[i])
}

} // verus!
