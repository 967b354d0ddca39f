//! The laws of merging.

use crate::checksum::crc32;
use crate::format_laws::{law_hint_layout, law_record_layout};
use crate::key_dir::KeyDirEntry;
use crate::laws::{lemma_highest_is_last, lemma_no_log_above};
use crate::le::le_value;
use crate::merge::{some_overflow, MergeError, MergeView};
use crate::model::{
    contents, in_step, log_of, lookup, merged_file, ordered, read, readable, run, run_hints,
    run_log, run_succeeds, values_read,
};
use crate::names::{data_id, data_name, law_data_name_round_trip, superseded};
use crate::record::{lemma_record_fields, lemma_record_parts, record_bytes};
use crate::recovery::{rebuilt, replay_hints, replay_log, updated, FileView, LoadError};
use crate::scan::{lemma_replay_one_hint, lemma_replay_one_record, whole_hints, whole_log};
use crate::store::{opened, ReadAt, StoreView};
use vstd::prelude::*;
use vstd::utf8::encode_utf8;

verus! {

/// The key of the pending value with the given number.
pub open spec fn pending_key(merge: MergeView, i: int) -> Seq<char> {
    merge.pending[i].0
}

/// A merge that has copied nothing yet, with each pending key once.
pub open spec fn fresh(merge: MergeView) -> bool {
    &&& merge.pos == 0
    &&& merge.key_dir == Map::<Seq<char>, KeyDirEntry>::empty()
    &&& forall|i: int, j: int|
        0 <= i < j < merge.pending.len() ==> pending_key(merge, i) != pending_key(merge, j)
}

pub(crate) proof fn lemma_starts_fresh(merge: MergeView, store: StoreView, timestamp: u64)
    requires
        merge.starts(store, timestamp),
    ensures
        fresh(merge),
        forall|i: int|
            0 <= i < merge.pending.len() ==> store.key_dir.contains_key(
                #[trigger] pending_key(merge, i),
            ),
        forall|key: Seq<char>|
            store.key_dir.contains_key(key) ==> exists|i: int|
                0 <= i < merge.pending.len() && #[trigger] pending_key(merge, i) == key,
{
    let keys = merge.pending.map_values(|p: (Seq<char>, ReadAt)| p.0);
    assert forall|i: int, j: int| 0 <= i < j < merge.pending.len() implies pending_key(merge, i)
        != pending_key(merge, j) by {
        assert(keys[i] != keys[j]);
    }
    assert forall|i: int| 0 <= i < merge.pending.len() implies store.key_dir.contains_key(
        #[trigger] pending_key(merge, i),
    ) by {
        assert(keys.contains(keys[i]));
        assert(keys.to_set().contains(keys[i]));
    }
    assert forall|key: Seq<char>| store.key_dir.contains_key(key) implies exists|i: int|
        0 <= i < merge.pending.len() && #[trigger] pending_key(merge, i) == key by {
        assert(keys.to_set().contains(key));
        let i = keys.index_of(key);
        assert(pending_key(merge, i) == key);
    }
}

/// The copied value with number `i` lies where the new directory says, in a
/// record of its own.
pub open spec fn copied_at(merge: MergeView, values: Seq<Seq<u8>>, i: int) -> bool {
    let key = pending_key(merge, i);
    let entry = run(merge, values).key_dir[key];
    let start = entry.value_pos + 28 + encode_utf8(key).len();
    let record = record_bytes(merge.timestamp, encode_utf8(key), values[i]);
    &&& run(merge, values).key_dir.contains_key(key)
    &&& entry.file_id == merge.file_id
    &&& entry.timestamp == merge.timestamp
    &&& entry.value_sz == values[i].len()
    &&& start + values[i].len() <= run_log(merge, values).len()
    &&& run_log(merge, values).subrange(start, start + values[i].len()) == values[i]
    &&& run_log(merge, values).subrange(entry.value_pos as int, start + values[i].len()) == record
}

/// The state of a merge after some values were copied.
pub(crate) proof fn lemma_run(merge: MergeView, values: Seq<Seq<u8>>)
    requires
        fresh(merge),
        run_succeeds(merge, values),
    ensures
        values.len() <= merge.pending.len(),
        run(merge, values).file_id == merge.file_id,
        run(merge, values).timestamp == merge.timestamp,
        run(merge, values).pending == merge.pending.skip(values.len() as int),
        run(merge, values).pos == run_log(merge, values).len(),
        run_log(merge, values).len() <= i64::MAX,
        forall|i: int| 0 <= i < values.len() ==> #[trigger] copied_at(merge, values, i),
        forall|key: Seq<char>| #[trigger]
            run(merge, values).key_dir.contains_key(key) ==> exists|i: int|
                0 <= i < values.len() && #[trigger] pending_key(merge, i) == key,
    decreases values.len(),
{
    if values.len() == 0 {
        assert(merge.pending.skip(0) =~= merge.pending);
    } else {
        let before = values.drop_last();
        let value = values.last();
        let n = before.len() as int;
        lemma_run(merge, before);
        let state = run(merge, before);
        let log = run_log(merge, before);
        let longer = run_log(merge, values);
        let key = pending_key(merge, n);
        let k = encode_utf8(key);
        assert(state.pending.len() > 0);
        assert(state.pending[0] == merge.pending[n]);
        lemma_record_parts(merge.timestamp, k, value);
        assert(longer.subrange(log.len() as int, longer.len() as int)
            =~= state.record(value));
        lemma_record_fields(longer, log.len() as int, merge.timestamp, k, value);
        assert(run(merge, values).pending =~= merge.pending.skip(values.len() as int));
        assert forall|i: int| 0 <= i < values.len() implies #[trigger] copied_at(
            merge,
            values,
            i,
        ) by {
            if i < n {
                assert(copied_at(merge, before, i));
                assert(pending_key(merge, i) != pending_key(merge, n));
                let entry = state.key_dir[pending_key(merge, i)];
                let start = entry.value_pos + 28 + encode_utf8(pending_key(merge, i)).len();
                assert(longer.subrange(start, start + values[i].len()) =~= log.subrange(
                    start,
                    start + values[i].len(),
                ));
                assert(longer.subrange(entry.value_pos as int, start + values[i].len())
                    =~= log.subrange(entry.value_pos as int, start + values[i].len()));
            }
        }
        assert forall|other: Seq<char>| #[trigger]
            run(merge, values).key_dir.contains_key(other) implies exists|i: int|
            0 <= i < values.len() && #[trigger] pending_key(merge, i) == other by {
            if other == key {
                assert(pending_key(merge, n) == other);
            } else {
                assert(state.key_dir.contains_key(other));
            }
        }
    }
}

/// A merge changes no value: once every value was copied, the store holds the
/// same keys with the same values as before, whatever other files are left
/// beside the new data file.
pub proof fn law_merge_keeps_contents(
    store: StoreView,
    disk: Seq<FileView>,
    timestamp: u64,
    merge: MergeView,
    values: Seq<Seq<u8>>,
    after: Seq<FileView>,
)
    requires
        merge.starts(store, timestamp),
        values_read(merge, disk, values),
        run_succeeds(merge, values),
        log_of(after, merge.file_id) == Some(run_log(merge, values)),
    ensures
        run(merge, values).pending.len() == 0,
        readable(run(merge, values).merged(), after),
        contents(run(merge, values).merged(), after) == contents(store, disk),
        ordered(after) && after.len() > 0 && after.last() == merged_file(merge, values) ==> in_step(
            run(merge, values).merged(),
            after,
        ),
{
    let merged = run(merge, values).merged();
    lemma_starts_fresh(merge, store, timestamp);
    lemma_run(merge, values);
    assert forall|key: Seq<char>| #[trigger] store.key_dir.contains_key(key) implies {
        &&& merged.key_dir.contains_key(key)
        &&& lookup(merged, after, key) is Some
        &&& lookup(merged, after, key) == lookup(store, disk, key)
    } by {
        let i = choose|i: int|
            0 <= i < merge.pending.len() && #[trigger] pending_key(merge, i) == key;
        assert(copied_at(merge, values, i));
        assert(read(disk, merge.pending[i].1) == Some(values[i]));
    }
    assert forall|key: Seq<char>| #[trigger]
        merged.key_dir.contains_key(key) implies store.key_dir.contains_key(key) by {
        let i = choose|i: int| 0 <= i < values.len() && #[trigger] pending_key(merge, i) == key;
        assert(store.key_dir.contains_key(pending_key(merge, i)));
    }
    assert(contents(merged, after) =~= contents(store, disk));
}

/// The directory after the copied records, on top of `dir`.
pub open spec fn run_updates(
    merge: MergeView,
    values: Seq<Seq<u8>>,
    dir: Map<Seq<char>, KeyDirEntry>,
) -> Map<Seq<char>, KeyDirEntry>
    decreases values.len(),
{
    if values.len() == 0 {
        dir
    } else {
        let before = values.drop_last();
        updated(
            run_updates(merge, before, dir),
            pending_key(merge, before.len() as int),
            run(merge, before).new_entry(values.last()),
        )
    }
}

/// Scanning either of the two new files applies the copied records.
pub(crate) proof fn lemma_run_replays(
    merge: MergeView,
    values: Seq<Seq<u8>>,
    dir: Map<Seq<char>, KeyDirEntry>,
)
    requires
        fresh(merge),
        run_succeeds(merge, values),
    ensures
        whole_log(run_log(merge, values), 0),
        whole_hints(run_hints(merge, values), 0),
        replay_log(run_log(merge, values), merge.file_id, dir) == Ok::<
            Map<Seq<char>, KeyDirEntry>,
            LoadError,
        >(run_updates(merge, values, dir)),
        replay_hints(run_hints(merge, values), merge.file_id, 0, dir) == Ok::<
            Map<Seq<char>, KeyDirEntry>,
            LoadError,
        >(run_updates(merge, values, dir)),
    decreases values.len(),
{
    if values.len() > 0 {
        let before = values.drop_last();
        let value = values.last();
        let state = run(merge, before);
        lemma_run(merge, before);
        lemma_run_replays(merge, before, dir);
        assert(state.pending[0] == merge.pending[before.len() as int]);
        let key = pending_key(merge, before.len() as int);
        lemma_replay_one_record(
            run_log(merge, before),
            merge.file_id,
            dir,
            merge.timestamp,
            key,
            value,
        );
        lemma_replay_one_hint(
            run_hints(merge, before),
            merge.file_id,
            dir,
            merge.timestamp,
            key,
            value.len(),
            state.pos,
        );
    }
}

/// The entries of `dir`, replaced by those of `copied`, without the keys to which
/// `copied` gives an empty value.
pub open spec fn overlaid(
    dir: Map<Seq<char>, KeyDirEntry>,
    copied: Map<Seq<char>, KeyDirEntry>,
) -> Map<Seq<char>, KeyDirEntry> {
    Map::new(
        |key: Seq<char>|
            if copied.contains_key(key) {
                copied[key].value_sz > 0
            } else {
                dir.contains_key(key)
            },
        |key: Seq<char>|
            if copied.contains_key(key) {
                copied[key]
            } else {
                dir[key]
            },
    )
}

/// Values that are not empty are all found in the new data file; empty ones say
/// that their keys are gone.
pub(crate) proof fn lemma_run_updates(
    merge: MergeView,
    values: Seq<Seq<u8>>,
    dir: Map<Seq<char>, KeyDirEntry>,
)
    requires
        fresh(merge),
        run_succeeds(merge, values),
    ensures
        run_updates(merge, values, dir) == overlaid(dir, run(merge, values).key_dir),
    decreases values.len(),
{
    if values.len() == 0 {
        assert(overlaid(dir, merge.key_dir) =~= dir);
    } else {
        let before = values.drop_last();
        lemma_run(merge, before);
        lemma_run_updates(merge, before, dir);
        assert(run(merge, before).pending[0] == merge.pending[before.len() as int]);
        assert(run_updates(merge, values, dir) =~= overlaid(dir, run(merge, values).key_dir));
    }
}

/// Where no copied value is empty, the entries of the new data file are added.
proof fn lemma_nothing_empty(
    merge: MergeView,
    values: Seq<Seq<u8>>,
    dir: Map<Seq<char>, KeyDirEntry>,
)
    requires
        fresh(merge),
        run_succeeds(merge, values),
        forall|i: int| 0 <= i < values.len() ==> (#[trigger] values[i]).len() > 0,
    ensures
        overlaid(dir, run(merge, values).key_dir) == dir.union_prefer_right(
            run(merge, values).key_dir,
        ),
{
    let copied = run(merge, values).key_dir;
    lemma_run(merge, values);
    assert forall|key: Seq<char>| #[trigger] copied.contains_key(key) implies copied[key].value_sz
        > 0 by {
        let i = choose|i: int| 0 <= i < values.len() && #[trigger] pending_key(merge, i) == key;
        assert(copied_at(merge, values, i));
        assert(values[i].len() > 0);
    }
    assert(overlaid(dir, copied) =~= dir.union_prefer_right(copied));
}

/// The hint file of a merge says the same as its data file: loading either one
/// has the same effect on any key directory.
pub proof fn law_hints_agree_with_log(
    merge: MergeView,
    store: StoreView,
    timestamp: u64,
    values: Seq<Seq<u8>>,
    dir: Map<Seq<char>, KeyDirEntry>,
)
    requires
        merge.starts(store, timestamp),
        run_succeeds(merge, values),
    ensures
        replay_hints(run_hints(merge, values), merge.file_id, 0, dir) == replay_log(
            run_log(merge, values),
            merge.file_id,
            dir,
        ),
{
    lemma_starts_fresh(merge, store, timestamp);
    lemma_run_replays(merge, values, dir);
}

/// A merge survives opening the store again. The new files may stand alone, or
/// behind older files of the same store that have not been removed yet.
pub proof fn law_merge_is_durable(
    store: StoreView,
    timestamp: u64,
    merge: MergeView,
    values: Seq<Seq<u8>>,
    older: Seq<FileView>,
)
    requires
        merge.starts(store, timestamp),
        values.len() == merge.pending.len(),
        run_succeeds(merge, values),
        forall|i: int| 0 <= i < values.len() ==> (#[trigger] values[i]).len() > 0,
        ordered(older),
        older.len() > 0 ==> older.last().file_id <= store.active_file_id,
        rebuilt(older) matches Ok(dir) && dir.dom().subset_of(store.key_dir.dom()),
    ensures
        ({
            let after = older.push(merged_file(merge, values));
            let merged = run(merge, values).merged();
            &&& in_step(merged, after)
            &&& opened(after, run_log(merge, values).len() as u64) == Ok::<StoreView, LoadError>(
                merged,
            )
        }),
{
    let after = older.push(merged_file(merge, values));
    let merged = run(merge, values).merged();
    let dir = rebuilt(older)->Ok_0;
    lemma_starts_fresh(merge, store, timestamp);
    lemma_run(merge, values);
    lemma_run_replays(merge, values, dir);
    lemma_run_updates(merge, values, dir);
    lemma_nothing_empty(merge, values, dir);
    assert(after.drop_last() =~= older);
    assert forall|key: Seq<char>| #[trigger]
        dir.contains_key(key) implies merged.key_dir.contains_key(key) by {
        assert(store.key_dir.dom().contains(key));
        let i = choose|i: int|
            0 <= i < merge.pending.len() && #[trigger] pending_key(merge, i) == key;
        assert(copied_at(merge, values, i));
    }
    assert(dir.union_prefer_right(merged.key_dir) =~= merged.key_dir);
    assert forall|i: int, j: int| 0 <= i < j < after.len() implies after[i].file_id
        < after[j].file_id by {
        if j == older.len() {
            assert(older[i].file_id <= older.last().file_id);
        }
    }
    lemma_highest_is_last(after);
}

/// A merge that is broken off between two copies loses nothing: a store that is
/// opened on the older files and the unfinished new ones holds what it held.
pub proof fn law_interrupted_merge_loses_nothing(
    store: StoreView,
    disk: Seq<FileView>,
    timestamp: u64,
    merge: MergeView,
    values: Seq<Seq<u8>>,
)
    requires
        in_step(store, disk),
        readable(store, disk),
        rebuilt(disk) == Ok::<Map<Seq<char>, KeyDirEntry>, LoadError>(store.key_dir),
        merge.starts(store, timestamp),
        run_succeeds(merge, values),
        forall|i: int|
            0 <= i < values.len() ==> {
                &&& (#[trigger] values[i]).len() > 0
                &&& read(disk, merge.pending[i].1) == Some(values[i])
            },
    ensures
        ({
            let after = disk.push(merged_file(merge, values));
            &&& opened(after, run_log(merge, values).len() as u64) matches Ok(reopened)
            &&& in_step(reopened, after)
            &&& readable(reopened, after)
            &&& contents(reopened, after) == contents(store, disk)
        }),
{
    let after = disk.push(merged_file(merge, values));
    lemma_starts_fresh(merge, store, timestamp);
    lemma_run(merge, values);
    lemma_run_replays(merge, values, store.key_dir);
    lemma_run_updates(merge, values, store.key_dir);
    lemma_nothing_empty(merge, values, store.key_dir);
    assert(after.drop_last() =~= disk);
    assert forall|i: int, j: int| 0 <= i < j < after.len() implies after[i].file_id
        < after[j].file_id by {
        if j == disk.len() {
            assert(disk[i].file_id <= disk.last().file_id);
        }
    }
    lemma_highest_is_last(after);
    lemma_no_log_above(disk, merge.file_id);
    let copied = run(merge, values).key_dir;
    let reopened = opened(after, run_log(merge, values).len() as u64)->Ok_0;
    assert forall|key: Seq<char>| #[trigger] copied.contains_key(key) implies {
        &&& store.key_dir.contains_key(key)
        &&& lookup(reopened, after, key) == lookup(store, disk, key)
    } by {
        let i = choose|i: int| 0 <= i < values.len() && #[trigger] pending_key(merge, i) == key;
        assert(copied_at(merge, values, i));
        assert(store.key_dir.contains_key(pending_key(merge, i)));
        assert(values[i].len() > 0);
    }
    assert forall|key: Seq<char>| #[trigger] store.key_dir.contains_key(key) implies lookup(
        reopened,
        after,
        key,
    ) == lookup(store, disk, key) by {
        if !copied.contains_key(key) {
            assert(reopened.key_dir[key] == store.key_dir[key]);
        }
    }
    assert(contents(reopened, after) =~= contents(store, disk));
}

/// After a merge one data file is left: of the data files that the store had
/// and the new one, all but the new one are superseded.
pub proof fn law_merge_leaves_one_data_file(
    store: StoreView,
    timestamp: u64,
    merge: MergeView,
    name: Seq<char>,
)
    requires
        merge.starts(store, timestamp),
        (data_id(name) matches Some(id) && id <= store.active_file_id) || name == data_name(
            merge.file_id,
        ),
    ensures
        superseded(name, merge.file_id) <==> name != data_name(merge.file_id),
{
    law_data_name_round_trip(merge.file_id);
}

/// A merge cannot be started only where some value lies behind what a 64-bit
/// number tells, or no id is left. It can where every value can be read.
pub proof fn law_merge_can_be_started(store: StoreView, disk: Seq<FileView>)
    ensures
        some_overflow(store) <==> exists|key: Seq<char>| #[trigger]
            store.key_dir.contains_key(key) && store.key_dir[key].value_pos + 28 + encode_utf8(
                key,
            ).len() > u64::MAX,
        readable(store, disk) ==> !some_overflow(store),
{
    assert forall|key: Seq<char>| (#[trigger] store.found(key)) is Err implies {
        &&& store.key_dir.contains_key(key)
        &&& store.key_dir[key].value_pos + 28 + encode_utf8(key).len() > u64::MAX
        &&& lookup(store, disk, key) is None
    } by {}
    if exists|key: Seq<char>| #[trigger]
        store.key_dir.contains_key(key) && store.key_dir[key].value_pos + 28 + encode_utf8(
            key,
        ).len() > u64::MAX {
        let key = choose|key: Seq<char>| #[trigger]
            store.key_dir.contains_key(key) && store.key_dir[key].value_pos + 28 + encode_utf8(
                key,
            ).len() > u64::MAX;
        assert(store.found(key) is Err);
    }
}

/// A merge that was started goes into a new file with the next id, bears the
/// given time, and has each known key to copy exactly once, from where its value
/// is found.
pub proof fn law_merge_starts_with_every_key(store: StoreView, timestamp: u64, merge: MergeView)
    requires
        merge.starts(store, timestamp),
    ensures
        merge.file_id == store.active_file_id + 1,
        merge.timestamp == timestamp,
        merge.pos == 0,
        merge.key_dir.dom() == Set::<Seq<char>>::empty(),
        forall|i: int, j: int|
            0 <= i < j < merge.pending.len() ==> (#[trigger] merge.pending[i]).0
                != (#[trigger] merge.pending[j]).0,
        forall|i: int|
            0 <= i < merge.pending.len() ==> {
                let (key, at) = #[trigger] merge.pending[i];
                &&& store.key_dir.contains_key(key)
                &&& at.file_id == store.key_dir[key].file_id
                &&& at.offset == store.key_dir[key].value_pos + 28 + encode_utf8(key).len()
                &&& at.len == store.key_dir[key].value_sz
            },
        forall|key: Seq<char>| #[trigger]
            store.key_dir.contains_key(key) ==> exists|i: int|
                0 <= i < merge.pending.len() && (#[trigger] merge.pending[i]).0 == key,
{
    lemma_starts_fresh(merge, store, timestamp);
    assert forall|i: int, j: int| 0 <= i < j < merge.pending.len() implies (
    #[trigger] merge.pending[i]).0 != (#[trigger] merge.pending[j]).0 by {
        assert(pending_key(merge, i) != pending_key(merge, j));
    }
    assert forall|i: int| 0 <= i < merge.pending.len() implies {
        let (key, at) = #[trigger] merge.pending[i];
        &&& store.key_dir.contains_key(key)
        &&& at.file_id == store.key_dir[key].file_id
        &&& at.offset == store.key_dir[key].value_pos + 28 + encode_utf8(key).len()
        &&& at.len == store.key_dir[key].value_sz
    } by {
        assert(store.key_dir.contains_key(pending_key(merge, i)));
        assert(store.found(merge.pending[i].0) is Ok);
    }
    assert forall|key: Seq<char>| #[trigger] store.key_dir.contains_key(key) implies exists|i: int|
        0 <= i < merge.pending.len() && (#[trigger] merge.pending[i]).0 == key by {
        let i = choose|i: int|
            0 <= i < merge.pending.len() && #[trigger] pending_key(merge, i) == key;
        assert(merge.pending[i].0 == key);
    }
}

/// A value is copied exactly if there is a key to copy and buffers and the new
/// data file can hold its record and its hint: none that fits is refused.
pub proof fn law_copy_is_accepted_if_it_fits(merge: MergeView, value_sz: nat)
    ensures
        ({
            let k = encode_utf8(merge.pending[0].0).len();
            let error = merge.copy_error(value_sz);
            &&& error is None <==> {
                &&& merge.pending.len() > 0
                &&& 28 + k + value_sz <= isize::MAX
                &&& 32 + k <= isize::MAX
                &&& merge.pos + 28 + k + value_sz <= i64::MAX
            }
            &&& error == Some(MergeError::NothingPending) <==> merge.pending.len() == 0
            &&& error is Some && merge.pending.len() > 0 ==> error == Some(
                MergeError::RecordTooLarge,
            )
        }),
{
}

/// Copying a value appends one record to the new data file, with the time of the
/// merge, the next key to copy and the value, and one hint to its hint file, with
/// the same time, key and length and the position of that record. That key is
/// then known at that position and needs no copying any more; nothing else
/// changes.
pub proof fn law_copy(merge: MergeView, value: Seq<u8>)
    requires
        merge.copy_error(value.len()) is None,
    ensures
        ({
            let key = merge.pending[0].0;
            let k = encode_utf8(key);
            let record = merge.record(value);
            let hint = merge.hint(value);
            let after = merge.copied(value);
            &&& record.len() == 28 + k.len() + value.len()
            &&& le_value(record.subrange(0, 4)) == crc32(record.skip(4))
            &&& le_value(record.subrange(4, 12)) == merge.timestamp
            &&& le_value(record.subrange(12, 20)) == k.len()
            &&& le_value(record.subrange(20, 28)) == value.len()
            &&& record.subrange(28, 28 + k.len() as int) == k
            &&& record.skip(28 + k.len() as int) == value
            &&& hint.len() == 32 + k.len()
            &&& le_value(hint.subrange(0, 8)) == merge.timestamp
            &&& le_value(hint.subrange(8, 16)) == k.len()
            &&& le_value(hint.subrange(16, 24)) == value.len()
            &&& le_value(hint.subrange(24, 32)) == merge.pos
            &&& hint.skip(32) == k
            &&& after.file_id == merge.file_id
            &&& after.timestamp == merge.timestamp
            &&& after.pending == merge.pending.skip(1)
            &&& after.pos == merge.pos + record.len()
            &&& after.key_dir.dom() == merge.key_dir.dom().insert(key)
            &&& after.key_dir[key].file_id == merge.file_id
            &&& after.key_dir[key].value_sz == value.len()
            &&& after.key_dir[key].value_pos == merge.pos
            &&& after.key_dir[key].timestamp == merge.timestamp
            &&& forall|other: Seq<char>|
                other != key ==> #[trigger] after.key_dir[other] == merge.key_dir[other]
        }),
{
    let key = merge.pending[0].0;
    let k = encode_utf8(key);
    law_record_layout(merge.timestamp, k, value);
    law_hint_layout(merge.timestamp, k, value.len(), merge.pos);
    assert(merge.copied(value).key_dir.dom() =~= merge.key_dir.dom().insert(key));
}

/// The length of the data file that copying the values makes: 28 bytes, the key
/// and the value for each.
pub open spec fn copied_len(merge: MergeView, values: Seq<Seq<u8>>) -> nat
    decreases values.len(),
{
    if values.len() == 0 {
        0
    } else {
        copied_len(merge, values.drop_last()) + 28 + encode_utf8(
            merge.pending[values.len() - 1].0,
        ).len() + values.last().len()
    }
}

/// The lengths of fewer copies.
proof fn lemma_copies(merge: MergeView, values: Seq<Seq<u8>>)
    requires
        fresh(merge),
        values.len() <= merge.pending.len(),
        copied_len(merge, values) <= i64::MAX,
        forall|i: int|
            0 <= i < values.len() ==> {
                let k = encode_utf8(merge.pending[i].0).len();
                28 + k + (#[trigger] values[i]).len() <= isize::MAX && 32 + k <= isize::MAX
            },
    ensures
        run_succeeds(merge, values),
        run(merge, values).pos == copied_len(merge, values),
    decreases values.len(),
{
    if values.len() > 0 {
        let before = values.drop_last();
        assert forall|i: int| 0 <= i < before.len() implies {
            let k = encode_utf8(merge.pending[i].0).len();
            28 + k + (#[trigger] before[i]).len() <= isize::MAX && 32 + k <= isize::MAX
        } by {
            assert(before[i] == values[i]);
        }
        lemma_copies(merge, before);
        lemma_run(merge, before);
        assert(run(merge, before).pending[0] == merge.pending[before.len() as int]);
        assert(values.last() == values[values.len() - 1]);
    }
}

/// A merge can be completed: if a file can hold the records of all known keys
/// together, and buffers each of them and its hint, then no copy is refused. In
/// the end nothing is left to copy, and each key of the store, and no other, is
/// known in the new data file, which is as long as the records are together.
pub proof fn law_merge_can_be_completed(
    store: StoreView,
    disk: Seq<FileView>,
    timestamp: u64,
    merge: MergeView,
    values: Seq<Seq<u8>>,
)
    requires
        merge.starts(store, timestamp),
        values_read(merge, disk, values),
        copied_len(merge, values) <= i64::MAX,
        forall|i: int|
            0 <= i < values.len() ==> {
                let k = encode_utf8(merge.pending[i].0).len();
                28 + k + (#[trigger] values[i]).len() <= isize::MAX && 32 + k <= isize::MAX
            },
    ensures
        run_succeeds(merge, values),
        run(merge, values).pending.len() == 0,
        ({
            let merged = run(merge, values).merged();
            &&& merged.active_file_id == store.active_file_id + 1
            &&& merged.active_len == copied_len(merge, values)
            &&& merged.key_dir.dom() == store.key_dir.dom()
            &&& forall|key: Seq<char>| #[trigger]
                merged.key_dir.contains_key(key) ==> {
                    &&& merged.key_dir[key].file_id == store.active_file_id + 1
                    &&& merged.key_dir[key].timestamp == timestamp
                    &&& merged.key_dir[key].value_sz == store.key_dir[key].value_sz
                }
        }),
{
    let merged = run(merge, values).merged();
    lemma_starts_fresh(merge, store, timestamp);
    lemma_copies(merge, values);
    lemma_run(merge, values);
    assert forall|key: Seq<char>| #[trigger] store.key_dir.contains_key(key) implies {
        &&& merged.key_dir.contains_key(key)
        &&& merged.key_dir[key].file_id == store.active_file_id + 1
        &&& merged.key_dir[key].timestamp == timestamp
        &&& merged.key_dir[key].value_sz == store.key_dir[key].value_sz
    } by {
        let i = choose|i: int|
            0 <= i < merge.pending.len() && #[trigger] pending_key(merge, i) == key;
        assert(copied_at(merge, values, i));
        assert(read(disk, merge.pending[i].1) == Some(values[i]));
        assert(store.found(merge.pending[i].0) is Ok);
    }
    assert forall|key: Seq<char>| #[trigger]
        merged.key_dir.contains_key(key) implies store.key_dir.contains_key(key) by {
        let i = choose|i: int| 0 <= i < values.len() && #[trigger] pending_key(merge, i) == key;
        assert(store.key_dir.contains_key(pending_key(merge, i)));
    }
    assert(merged.key_dir.dom() =~= store.key_dir.dom());
}

/// A merge finds its values: where every value can be read, there is one for
/// each key to copy, and it is the value of that key.
pub proof fn law_merge_finds_every_value(
    store: StoreView,
    disk: Seq<FileView>,
    timestamp: u64,
    merge: MergeView,
)
    requires
        merge.starts(store, timestamp),
        readable(store, disk),
    ensures
        values_read(
            merge,
            disk,
            Seq::new(merge.pending.len(), |i: int| lookup(store, disk, merge.pending[i].0)->0),
        ),
{
    let values = Seq::new(
        merge.pending.len(),
        |i: int| lookup(store, disk, merge.pending[i].0)->0,
    );
    lemma_starts_fresh(merge, store, timestamp);
    assert forall|i: int| 0 <= i < values.len() implies read(
        disk,
        (#[trigger] merge.pending[i]).1,
    ) == Some(values[i]) by {
        assert(store.key_dir.contains_key(pending_key(merge, i)));
        assert(store.found(merge.pending[i].0) is Ok);
    }
}

/// A finished merge makes its data file the active one, as it is, and its keys
/// the known ones.
pub proof fn law_finished_merge(merge: MergeView)
    ensures
        merge.merged().active_file_id == merge.file_id,
        merge.merged().active_len == merge.pos,
        merge.merged().key_dir == merge.key_dir,
{
}

} // verus!
