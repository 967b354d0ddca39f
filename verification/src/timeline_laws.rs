//! The laws of a store through changes, new active files, merges and restarts.

use crate::checksum::crc32;
use crate::key_dir::KeyDirEntry;
use crate::laws::{
    law_delete_removes, law_indexed_is_readable, law_indexed_record_is_intact, law_new_store,
    law_rotation_keeps_contents, law_write_behind_hint_is_not_loaded, law_write_inserts,
    lemma_applied, lemma_empty_text, lemma_highest_is_last, lemma_reads_after_rotation,
    lemma_rebuilt_after_write,
};
use crate::le::le_value;
use crate::merge::MergeView;
use crate::merge_laws::{
    copied_at, law_merge_keeps_contents, lemma_run, lemma_run_replays, lemma_run_updates,
    lemma_starts_fresh, overlaid, pending_key,
};
use crate::model::{
    apply, behind_hint, contents, durable, empty_file, extendable, in_step, indexed, log_of,
    lookup, merged_file, points_at_record, read, readable, record_at, run, run_log, run_succeeds,
    saved, sound, values_read, without_empty, Op,
};
use crate::record::{lemma_record_parts, record_bytes, HEADER_LEN};
use crate::recovery::{rebuilt, FileView, LoadError};
use crate::scan::lemma_rebuilt_has_values;
use crate::store::{opened, ReadAt, StoreView};
use crate::timeline::{
    all_possible, delete, holdings, merged_before_restart, merges, put, restarts, timeline, told,
    Event, Holdings,
};
use vstd::prelude::*;
use vstd::utf8::encode_utf8;

verus! {

/// What a store holds depends on its key directory and the files alone.
proof fn lemma_contents_by_dir(a: StoreView, b: StoreView, disk: Seq<FileView>)
    requires
        a.key_dir == b.key_dir,
    ensures
        contents(a, disk) == contents(b, disk),
{
    assert forall|key: Seq<char>| lookup(a, disk, key) == #[trigger] lookup(b, disk, key) by {
        assert(a.found(key) == b.found(key));
    }
    assert(contents(a, disk) =~= contents(b, disk));
}

/// Where no byte moves, entries point at the records that they pointed at.
proof fn lemma_indexed_stays(
    dir: Map<Seq<char>, KeyDirEntry>,
    disk: Seq<FileView>,
    after: Seq<FileView>,
)
    requires
        indexed(dir, disk),
        forall|at: ReadAt|
            (#[trigger] read(disk, at)) is Some ==> read(after, at) == read(disk, at),
    ensures
        indexed(dir, after),
{
    assert forall|key: Seq<char>| #[trigger] dir.contains_key(key) implies points_at_record(
        after,
        key,
        dir[key],
    ) by {
        assert(points_at_record(disk, key, dir[key]));
    }
}

/// Where no byte moves, every value that could be read reads as it did.
proof fn lemma_contents_stay(store: StoreView, disk: Seq<FileView>, after: Seq<FileView>)
    requires
        readable(store, disk),
        forall|at: ReadAt|
            (#[trigger] read(disk, at)) is Some ==> read(after, at) == read(disk, at),
    ensures
        contents(store, after) == contents(store, disk),
{
    assert forall|key: Seq<char>| #[trigger] store.key_dir.contains_key(key) implies lookup(
        store,
        after,
        key,
    ) == lookup(store, disk, key) by {
        assert(lookup(store, disk, key) is Some);
    }
    assert(contents(store, after) =~= contents(store, disk));
}

/// After a write the entries still point at records, the new one included.
proof fn lemma_write_indexed(
    store: StoreView,
    disk: Seq<FileView>,
    key: Seq<char>,
    value: Seq<char>,
    timestamp: u64,
)
    requires
        in_step(store, disk),
        indexed(store.key_dir, disk),
        store.write_error(encode_utf8(key).len(), encode_utf8(value).len()) is None,
    ensures
        ({
            let after = apply(disk, store.append(key, value, timestamp));
            &&& indexed(store.key_dir, after)
            &&& indexed(store.key_dir.remove(key), after)
            &&& indexed(store.written(key, value, timestamp).key_dir, after)
        }),
{
    let append = store.append(key, value, timestamp);
    let after = apply(disk, append);
    let entry = store.new_entry(value, timestamp);
    let k = encode_utf8(key);
    let v = encode_utf8(value);
    lemma_applied(store, disk, key, value, timestamp);
    lemma_indexed_stays(store.key_dir, disk, after);
    lemma_record_parts(timestamp, k, v);
    assert(points_at_record(after, key, entry)) by {
        assert(record_at(after, key, entry) == Some(append.bytes));
        assert(append.bytes.skip(HEADER_LEN + k.len()) =~= v);
    }
    assert forall|other: Seq<char>| #[trigger]
        store.key_dir.remove(key).contains_key(other) implies points_at_record(
        after,
        other,
        store.key_dir.remove(key)[other],
    ) by {
        assert(store.key_dir.contains_key(other));
    }
    let dir = store.written(key, value, timestamp).key_dir;
    assert forall|other: Seq<char>| #[trigger] dir.contains_key(other) implies points_at_record(
        after,
        other,
        dir[other],
    ) by {
        if other != key {
            assert(store.key_dir.contains_key(other));
        }
    }
}

/// What a write makes of what a store holds that is opened on the directory.
proof fn lemma_write_saved(
    store: StoreView,
    disk: Seq<FileView>,
    key: Seq<char>,
    value: Seq<char>,
    timestamp: u64,
)
    requires
        sound(store, disk),
        store.write_error(encode_utf8(key).len(), encode_utf8(value).len()) is None,
    ensures
        ({
            let after = apply(disk, store.append(key, value, timestamp));
            &&& rebuilt(after) matches Ok(dir) && indexed(dir, after)
            &&& after.last().hint is None ==> extendable(after.last())
            &&& !behind_hint(store, disk) ==> after.last().hint is None
            &&& saved(after) == (if behind_hint(store, disk) {
                saved(disk)
            } else if value.len() == 0 {
                saved(disk).remove(key)
            } else {
                saved(disk).insert(key, encode_utf8(value))
            })
        }),
{
    let after = apply(disk, store.append(key, value, timestamp));
    let dir = rebuilt(disk)->Ok_0;
    let loaded = StoreView { key_dir: dir, ..store };
    let reopened = opened(after, 0)->Ok_0;
    law_indexed_is_readable(loaded, disk);
    lemma_contents_by_dir(loaded, opened(disk, 0)->Ok_0, disk);
    lemma_write_indexed(loaded, disk, key, value, timestamp);
    lemma_empty_text(value);
    if behind_hint(store, disk) {
        law_write_behind_hint_is_not_loaded(store, disk, key, value, timestamp);
        lemma_applied(store, disk, key, value, timestamp);
        lemma_contents_stay(loaded, disk, after);
        lemma_contents_by_dir(loaded, reopened, after);
    } else {
        assert(durable(loaded, disk));
        lemma_rebuilt_after_write(loaded, disk, key, value, timestamp);
        if value.len() == 0 {
            assert(value =~= Seq::empty());
            law_delete_removes(loaded, disk, key, timestamp);
            lemma_contents_by_dir(loaded.deleted(key, timestamp), reopened, after);
        } else {
            law_write_inserts(loaded, disk, key, value, timestamp);
            lemma_contents_by_dir(loaded.written(key, value, timestamp), reopened, after);
        }
    }
}

/// A change of a store and its directory that belong together.
proof fn lemma_change(store: StoreView, disk: Seq<FileView>, op: Op)
    requires
        sound(store, disk),
        op.error(store) is None,
    ensures
        ({
            let after = apply(disk, op.append(store));
            let behind = behind_hint(store, disk);
            let held = (Event::Change { op }).on_holdings(holdings(store, disk), behind);
            &&& sound(op.changed(store), after)
            &&& holdings(op.changed(store), after) == held
            &&& !behind_hint(store, disk) ==> after.last().hint is None
        }),
{
    law_indexed_is_readable(store, disk);
    match op {
        Op::Put { key, value, timestamp } => {
            lemma_write_indexed(store, disk, key, value, timestamp);
            lemma_write_saved(store, disk, key, value, timestamp);
            law_write_inserts(store, disk, key, value, timestamp);
        },
        Op::Delete { key, timestamp } => {
            lemma_empty_text(Seq::empty());
            lemma_write_indexed(store, disk, key, Seq::empty(), timestamp);
            lemma_write_saved(store, disk, key, Seq::empty(), timestamp);
            law_delete_removes(store, disk, key, timestamp);
        },
    }
}

/// A new active file beside a store and its directory that belong together.
proof fn lemma_rotation(store: StoreView, disk: Seq<FileView>)
    requires
        sound(store, disk),
        store.active_file_id < u32::MAX,
    ensures
        ({
            let after = disk.push(empty_file(store.rotated().active_file_id));
            &&& sound(store.rotated(), after)
            &&& holdings(store.rotated(), after) == holdings(store, disk)
        }),
{
    let after = disk.push(empty_file(store.rotated().active_file_id));
    let loaded = opened(disk, 0)->Ok_0;
    law_indexed_is_readable(store, disk);
    law_indexed_is_readable(loaded, disk);
    law_rotation_keeps_contents(store, disk);
    lemma_reads_after_rotation(store, disk);
    lemma_indexed_stays(store.key_dir, disk, after);
    lemma_indexed_stays(loaded.key_dir, disk, after);
    lemma_contents_stay(loaded, disk, after);
    lemma_contents_by_dir(loaded, opened(after, 0)->Ok_0, after);
}

/// A merge leaves a store and a directory that belong together, and keeps all
/// that the store holds. A store that is opened on the directory holds the same,
/// but for the keys with an empty value: it does not know them.
pub proof fn law_merge_drops_empty_values(
    store: StoreView,
    disk: Seq<FileView>,
    timestamp: u64,
    merge: MergeView,
    values: Seq<Seq<u8>>,
)
    requires
        merge.starts(store, timestamp),
        values_read(merge, disk, values),
        run_succeeds(merge, values),
    ensures
        ({
            let after = seq![merged_file(merge, values)];
            let merged = run(merge, values).merged();
            &&& sound(merged, after)
            &&& contents(merged, after) == contents(store, disk)
            &&& saved(after) == without_empty(contents(store, disk))
        }),
{
    let after = seq![merged_file(merge, values)];
    let merged = run(merge, values).merged();
    let log = run_log(merge, values);
    let none = Map::<Seq<char>, KeyDirEntry>::empty();
    let dir = overlaid(none, merged.key_dir);
    lemma_starts_fresh(merge, store, timestamp);
    lemma_run(merge, values);
    lemma_run_replays(merge, values, none);
    lemma_run_updates(merge, values, none);
    assert(after.drop_last() =~= Seq::empty());
    assert(rebuilt(Seq::empty()) == Ok::<Map<Seq<char>, KeyDirEntry>, LoadError>(none));
    assert(rebuilt(after) == Ok::<Map<Seq<char>, KeyDirEntry>, LoadError>(dir));
    assert(log_of(after, merge.file_id) == Some(log));
    law_merge_keeps_contents(store, disk, timestamp, merge, values, after);
    assert forall|key: Seq<char>| #[trigger]
        merged.key_dir.contains_key(key) implies points_at_record(
        after,
        key,
        merged.key_dir[key],
    ) && lookup(merged, after, key) == Some(
        (record_at(after, key, merged.key_dir[key])->0).skip(HEADER_LEN + encode_utf8(key).len()),
    ) by {
        let i = choose|i: int| 0 <= i < values.len() && #[trigger] pending_key(merge, i) == key;
        let k = encode_utf8(key);
        let record = record_bytes(timestamp, k, values[i]);
        assert(copied_at(merge, values, i));
        lemma_record_parts(timestamp, k, values[i]);
        assert(record_at(after, key, merged.key_dir[key]) == Some(record));
        assert(record.skip(HEADER_LEN + k.len()) =~= values[i]);
    }
    assert forall|key: Seq<char>| #[trigger] dir.contains_key(key) implies points_at_record(
        after,
        key,
        dir[key],
    ) by {
        assert(merged.key_dir.contains_key(key));
    }
    let reopened = opened(after, 0)->Ok_0;
    assert forall|key: Seq<char>| #[trigger] reopened.key_dir.contains_key(key) implies lookup(
        reopened,
        after,
        key,
    ) == lookup(merged, after, key) by {
        assert(merged.key_dir.contains_key(key));
        assert(reopened.found(key) == merged.found(key));
    }
    assert forall|key: Seq<char>| #[trigger]
        merged.key_dir.contains_key(key) implies (merged.key_dir[key].value_sz > 0 <==> contents(
        merged,
        after,
    )[key].len() > 0) by {
        assert(points_at_record(after, key, merged.key_dir[key]));
    }
    assert(saved(after) =~= without_empty(contents(merged, after)));
}

/// Opening a store again on its directory.
proof fn lemma_restart(store: StoreView, disk: Seq<FileView>)
    requires
        sound(store, disk),
    ensures
        ({
            let len = (disk.last().log->0).len() as u64;
            &&& opened(disk, len) matches Ok(reopened)
            &&& sound(reopened, disk)
            &&& contents(reopened, disk) == saved(disk)
        }),
{
    let len = (disk.last().log->0).len() as u64;
    lemma_highest_is_last(disk);
    lemma_contents_by_dir(opened(disk, len)->Ok_0, opened(disk, 0)->Ok_0, disk);
}

/// One event in the life of a store.
proof fn lemma_event(store: StoreView, disk: Seq<FileView>, event: Event)
    requires
        sound(store, disk),
        event.possible(store, disk),
    ensures
        ({
            let (s, d) = event.after(store, disk);
            &&& sound(s, d)
            &&& holdings(s, d) == event.on_holdings(
                holdings(store, disk),
                behind_hint(store, disk),
            )
        }),
{
    match event {
        Event::Change { op } => lemma_change(store, disk, op),
        Event::Rotation => lemma_rotation(store, disk),
        Event::Merge { timestamp, merge, values } => law_merge_drops_empty_values(
            store,
            disk,
            timestamp,
            merge,
            values,
        ),
        Event::Restart => lemma_restart(store, disk),
    }
}

/// Through any changes, new active files, merges and restarts, in any order, a
/// store holds what the events make of what it held: it is the map that puts and
/// deletes make, and a restart brings back what is saved. All is saved but an
/// empty value, and a change whose record went behind a hint file, until the
/// next merge. The store and its directory go on belonging together.
pub proof fn law_timeline(store: StoreView, disk: Seq<FileView>, events: Seq<Event>)
    requires
        sound(store, disk),
        all_possible(store, disk, events),
    ensures
        ({
            let (s, d) = timeline(store, disk, events);
            &&& sound(s, d)
            &&& readable(s, d)
            &&& holdings(s, d) == told(store, disk, events)
        }),
    decreases events.len(),
{
    if events.len() > 0 {
        let (s, d) = timeline(store, disk, events.drop_last());
        law_timeline(store, disk, events.drop_last());
        lemma_event(s, d, events.last());
    }
    let (s, d) = timeline(store, disk, events);
    law_indexed_is_readable(s, d);
}

/// One event in the life of a store that stays open.
proof fn lemma_event_live(store: StoreView, disk: Seq<FileView>, event: Event)
    requires
        in_step(store, disk),
        readable(store, disk),
        event.possible(store, disk),
        !(event is Restart),
    ensures
        ({
            let (s, d) = event.after(store, disk);
            &&& in_step(s, d)
            &&& readable(s, d)
            &&& forall|held: Holdings, behind: bool|
                held.live == contents(store, disk) ==> contents(s, d) == (
                #[trigger] event.on_holdings(held, behind)).live
        }),
{
    match event {
        Event::Change { op: Op::Put { key, value, timestamp } } => law_write_inserts(
            store,
            disk,
            key,
            value,
            timestamp,
        ),
        Event::Change { op: Op::Delete { key, timestamp } } => law_delete_removes(
            store,
            disk,
            key,
            timestamp,
        ),
        Event::Rotation => law_rotation_keeps_contents(store, disk),
        Event::Merge { timestamp, merge, values } => {
            let after = seq![merged_file(merge, values)];
            law_merge_keeps_contents(store, disk, timestamp, merge, values, after);
        },
        Event::Restart => {},
    }
}

/// As long as a store stays open it is the map that puts and deletes make, also
/// through new active files and merges, whatever is left in its files: all that
/// it takes is that every value can be read.
pub proof fn law_session(store: StoreView, disk: Seq<FileView>, events: Seq<Event>)
    requires
        in_step(store, disk),
        readable(store, disk),
        all_possible(store, disk, events),
        !restarts(events),
    ensures
        ({
            let (s, d) = timeline(store, disk, events);
            &&& in_step(s, d)
            &&& readable(s, d)
            &&& contents(s, d) == told(store, disk, events).live
        }),
    decreases events.len(),
{
    if events.len() > 0 {
        let (s, d) = timeline(store, disk, events.drop_last());
        lemma_fewer_events(events);
        law_session(store, disk, events.drop_last());
        lemma_event_live(s, d, events.last());
    }
}

/// A new store and its directory belong together, and hold nothing.
pub proof fn law_new_store_is_sound()
    ensures
        ({
            let store = StoreView { key_dir: Map::empty(), active_file_id: 0, active_len: 0 };
            let disk = seq![empty_file(0)];
            &&& sound(store, disk)
            &&& holdings(store, disk) == (Holdings { live: Map::empty(), saved: Map::empty() })
        }),
{
    let store = StoreView { key_dir: Map::empty(), active_file_id: 0, active_len: 0 };
    let disk = seq![empty_file(0)];
    law_new_store();
    assert(contents(store, disk) =~= Map::empty());
    assert(saved(disk) =~= Map::empty());
}

/// At any time every key of a store is indexed by an entry that points at a
/// complete record of that key, with the time and size of the entry and with a
/// checksum that matches, and that holds the value.
pub proof fn law_index_points_at_records(
    store: StoreView,
    disk: Seq<FileView>,
    events: Seq<Event>,
    key: Seq<char>,
)
    requires
        sound(store, disk),
        all_possible(store, disk, events),
        timeline(store, disk, events).0.key_dir.contains_key(key),
    ensures
        ({
            let (s, d) = timeline(store, disk, events);
            let entry = s.key_dir[key];
            let k = encode_utf8(key);
            &&& record_at(d, key, entry) matches Some(record)
            &&& lookup(s, d, key) matches Some(value)
            &&& value.len() == entry.value_sz
            &&& record == record_bytes(entry.timestamp, k, value)
            &&& le_value(record.subrange(0, 4)) == crc32(record.skip(4))
        }),
{
    let (s, d) = timeline(store, disk, events);
    law_timeline(store, disk, events);
    law_indexed_is_readable(s, d);
    law_indexed_record_is_intact(d, key, s.key_dir[key]);
}

/// One event alone.
proof fn lemma_one_event(store: StoreView, disk: Seq<FileView>, event: Event)
    ensures
        timeline(store, disk, seq![event]) == event.after(store, disk),
        all_possible(store, disk, seq![event]) == event.possible(store, disk),
{
    let events = seq![event];
    assert(events.drop_last() =~= Seq::empty());
    assert(timeline(store, disk, events.drop_last()) == (store, disk));
    assert(all_possible(store, disk, events.drop_last()));
}

/// What is saved has no empty value.
proof fn lemma_saved_without_empty(store: StoreView, disk: Seq<FileView>)
    requires
        sound(store, disk),
    ensures
        without_empty(saved(disk)) == saved(disk),
{
    let loaded = opened(disk, 0)->Ok_0;
    lemma_rebuilt_has_values(disk);
    law_indexed_is_readable(loaded, disk);
    assert forall|key: Seq<char>| #[trigger] loaded.key_dir.contains_key(key) implies saved(
        disk,
    )[key].len() > 0 by {
        assert(points_at_record(disk, key, loaded.key_dir[key]));
        assert(loaded.key_dir[key].value_sz > 0);
    }
    assert(without_empty(saved(disk)) =~= saved(disk));
}

/// What holds of events holds of those before the last.
proof fn lemma_fewer_events(events: Seq<Event>)
    requires
        events.len() > 0,
    ensures
        restarts(events.drop_last()) ==> restarts(events),
        events.last() is Restart ==> restarts(events),
        merges(events) <==> merges(events.drop_last()) || events.last() is Merge,
        merged_before_restart(events) ==> {
            &&& merged_before_restart(events.drop_last())
            &&& events.last() is Restart ==> merges(events.drop_last())
        },
{
    let before = events.drop_last();
    let n = before.len() as int;
    assert(events[n] == events.last());
    assert(forall|i: int| 0 <= i < n ==> #[trigger] before[i] == events[i]);
    assert(forall|i: int| 0 <= i < n ==> before[i] == #[trigger] events[i]);
    if merged_before_restart(events) {
        assert forall|i: int|
            0 <= i < before.len() && (#[trigger] before[i]) is Restart implies exists|j: int|
            0 <= j < i && (#[trigger] before[j]) is Merge by {
            assert(events[i] is Restart);
            let j = choose|j: int| 0 <= j < i && (#[trigger] events[j]) is Merge;
            assert(before[j] is Merge);
        }
        if events.last() is Restart {
            let j = choose|j: int| 0 <= j < n && (#[trigger] events[j]) is Merge;
            assert(before[j] is Merge);
        }
    }
    if merges(events) && !(events.last() is Merge) {
        let j = choose|j: int| 0 <= j < events.len() && (#[trigger] events[j]) is Merge;
        assert(before[j] is Merge);
    }
}

/// What events that do not change a key make of its value.
proof fn lemma_told_of_key(
    store: StoreView,
    disk: Seq<FileView>,
    events: Seq<Event>,
    key: Seq<char>,
    value: Seq<u8>,
)
    requires
        contents(store, disk).contains_pair(key, value),
        forall|i: int| 0 <= i < events.len() ==> !(#[trigger] events[i]).changes(key),
        !restarts(events) || (value.len() > 0 && (saved(disk).contains_pair(key, value)
            || merged_before_restart(events))),
    ensures
        told(store, disk, events).live.contains_pair(key, value),
        value.len() > 0 && (saved(disk).contains_pair(key, value) || merges(events)) ==> told(
            store,
            disk,
            events,
        ).saved.contains_pair(key, value),
    decreases events.len(),
{
    if events.len() > 0 {
        let before = events.drop_last();
        assert forall|i: int|
            0 <= i < before.len() implies !(#[trigger] before[i]).changes(key) by {
            assert(before[i] == events[i]);
        }
        assert(events.last() == events[events.len() - 1]);
        lemma_fewer_events(events);
        lemma_told_of_key(store, disk, before, key, value);
    }
}

/// A value that was put is read back, byte for byte, after whatever happens
/// that does not change its key: changes of other keys, new active files, merges
/// and restarts. Restarts are left out for an empty value; for a value whose
/// record went behind a hint file they are left out up to the next merge.
pub proof fn law_put_is_kept(
    store: StoreView,
    disk: Seq<FileView>,
    key: Seq<char>,
    value: Seq<char>,
    timestamp: u64,
    events: Seq<Event>,
)
    requires
        in_step(store, disk),
        readable(store, disk),
        all_possible(store, disk, put(key, value, timestamp)),
        ({
            let (s0, d0) = timeline(store, disk, put(key, value, timestamp));
            all_possible(s0, d0, events)
        }),
        forall|i: int| 0 <= i < events.len() ==> !(#[trigger] events[i]).changes(key),
        restarts(events) ==> {
            &&& sound(store, disk)
            &&& value.len() > 0
            &&& !behind_hint(store, disk) || merged_before_restart(events)
        },
    ensures
        ({
            let (s0, d0) = timeline(store, disk, put(key, value, timestamp));
            let (s, d) = timeline(s0, d0, events);
            &&& lookup(s, d, key) == Some(encode_utf8(value))
            &&& s.found(key) matches Ok(Some(at)) && at.len == encode_utf8(value).len()
        }),
{
    let op = Op::Put { key, value, timestamp };
    let (s0, d0) = timeline(store, disk, put(key, value, timestamp));
    let (s, d) = timeline(s0, d0, events);
    lemma_one_event(store, disk, Event::Change { op });
    lemma_empty_text(value);
    if restarts(events) {
        lemma_change(store, disk, op);
        law_timeline(s0, d0, events);
    } else {
        law_write_inserts(store, disk, key, value, timestamp);
        law_session(s0, d0, events);
    }
    lemma_told_of_key(s0, d0, events, key, encode_utf8(value));
    assert(contents(s, d).contains_pair(key, encode_utf8(value)));
}

/// What events make of holdings that change no key, but may delete an unknown
/// one.
proof fn lemma_told_unchanged(
    store: StoreView,
    disk: Seq<FileView>,
    events: Seq<Event>,
    key: Seq<char>,
)
    requires
        !contents(store, disk).contains_key(key),
        forall|i: int| 0 <= i < events.len() ==> (#[trigger] events[i]).at_most_deletes(key),
        ({
            let held = contents(store, disk);
            !restarts(events) || (without_empty(held) == held && (saved(disk) == held
                || merged_before_restart(events)))
        }),
    ensures
        ({
            let held = contents(store, disk);
            &&& told(store, disk, events).live == held
            &&& without_empty(held) == held && (saved(disk) == held || merges(events)) ==> told(
                store,
                disk,
                events,
            ).saved == held
        }),
    decreases events.len(),
{
    if events.len() > 0 {
        let held = contents(store, disk);
        let before = events.drop_last();
        assert forall|i: int| 0 <= i < before.len() implies (#[trigger] before[i]).at_most_deletes(
            key,
        ) by {
            assert(before[i] == events[i]);
        }
        assert(events.last() == events[events.len() - 1]);
        lemma_fewer_events(events);
        lemma_told_unchanged(store, disk, before, key);
        assert(held.remove(key) =~= held);
    }
}

/// Putting a key that is unknown and deleting it again changes nothing: the
/// store holds what it held, now and after any new active files, merges,
/// restarts and further deletions of that key. Restarts are left out up to the
/// next merge where what is saved was not what the store held, and altogether
/// where the store then holds an empty value. What is saved stays as it was, too.
pub proof fn law_put_then_delete_restores(
    store: StoreView,
    disk: Seq<FileView>,
    key: Seq<char>,
    value: Seq<char>,
    put_at: u64,
    deleted_at: u64,
    events: Seq<Event>,
)
    requires
        in_step(store, disk),
        readable(store, disk),
        !store.key_dir.contains_key(key),
        all_possible(store, disk, put(key, value, put_at)),
        ({
            let (s1, d1) = timeline(store, disk, put(key, value, put_at));
            let (s2, d2) = timeline(s1, d1, delete(key, deleted_at));
            &&& all_possible(s1, d1, delete(key, deleted_at))
            &&& all_possible(s2, d2, events)
        }),
        forall|i: int| 0 <= i < events.len() ==> (#[trigger] events[i]).at_most_deletes(key),
        restarts(events) ==> {
            let held = contents(store, disk);
            &&& sound(store, disk)
            &&& saved(disk) == held || (without_empty(held) == held && merged_before_restart(
                events,
            ))
        },
    ensures
        ({
            let (s1, d1) = timeline(store, disk, put(key, value, put_at));
            let (s2, d2) = timeline(s1, d1, delete(key, deleted_at));
            let (s, d) = timeline(s2, d2, events);
            &&& contents(s, d) == contents(store, disk)
            &&& s.key_dir.dom() == store.key_dir.dom()
            &&& sound(store, disk) && !saved(disk).contains_key(key) ==> saved(d2) == saved(disk)
        }),
{
    let held = contents(store, disk);
    let (s1, d1) = timeline(store, disk, put(key, value, put_at));
    let (s2, d2) = timeline(s1, d1, delete(key, deleted_at));
    let (s, d) = timeline(s2, d2, events);
    let put_op = Op::Put { key, value, timestamp: put_at };
    let delete_op = Op::Delete { key, timestamp: deleted_at };
    lemma_one_event(store, disk, Event::Change { op: put_op });
    lemma_one_event(s1, d1, Event::Change { op: delete_op });
    law_write_inserts(store, disk, key, value, put_at);
    law_delete_removes(s1, d1, key, deleted_at);
    assert(contents(s2, d2) =~= held);
    if sound(store, disk) {
        lemma_change(store, disk, put_op);
        lemma_change(s1, d1, delete_op);
        if !saved(disk).contains_key(key) {
            assert(saved(d2) =~= saved(disk));
        }
        if saved(disk) == held {
            lemma_saved_without_empty(store, disk);
        }
    }
    lemma_told_unchanged(s2, d2, events, key);
    if restarts(events) {
        law_timeline(s2, d2, events);
    } else {
        law_session(s2, d2, events);
    }
    assert(contents(s, d).dom() =~= s.key_dir.dom());
    assert(held.dom() =~= store.key_dir.dom());
}

} // verus!
