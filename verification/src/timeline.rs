//! What happens to a store over time: changes, new active files, merges and
//! restarts, in any order.

use crate::merge::MergeView;
use crate::model::{
    apply, behind_hint, contents, empty_file, merged_file, run, run_succeeds, saved, values_read,
    without_empty, Op,
};
use crate::recovery::FileView;
use crate::store::{opened, StoreView};
use vstd::prelude::*;

verus! {

/// What a store holds, and what it would hold if it were opened again.
#[verifier::ext_equal]
pub struct Holdings {
    pub live: Map<Seq<char>, Seq<u8>>,
    pub saved: Map<Seq<char>, Seq<u8>>,
}

/// What the store holds in its directory.
pub open spec fn holdings(store: StoreView, disk: Seq<FileView>) -> Holdings {
    Holdings { live: contents(store, disk), saved: saved(disk) }
}

/// Something that happens to a store.
pub enum Event {
    /// A key was put or deleted.
    Change { op: Op },
    /// A new active file was started.
    Rotation,
    /// All values were copied, one for each pending key, and the files that were
    /// there before were removed.
    Merge { timestamp: u64, merge: MergeView, values: Seq<Seq<u8>> },
    /// The store was opened again on its directory.
    Restart,
}

impl Event {
    /// The event can happen: the store refuses nothing of it.
    pub open spec fn possible(self, store: StoreView, disk: Seq<FileView>) -> bool {
        match self {
            Event::Change { op } => op.error(store) is None,
            Event::Rotation => store.active_file_id < u32::MAX,
            Event::Merge { timestamp, merge, values } => {
                &&& merge.starts(store, timestamp)
                &&& values_read(merge, disk, values)
                &&& run_succeeds(merge, values)
            },
            Event::Restart => true,
        }
    }

    /// The store and its directory after the event.
    pub open spec fn after(self, store: StoreView, disk: Seq<FileView>) -> (
        StoreView,
        Seq<FileView>,
    ) {
        match self {
            Event::Change { op } => (op.changed(store), apply(disk, op.append(store))),
            Event::Rotation => (
                store.rotated(),
                disk.push(empty_file(store.rotated().active_file_id)),
            ),
            Event::Merge { merge, values, .. } => (
                run(merge, values).merged(),
                seq![merged_file(merge, values)],
            ),
            Event::Restart => (opened(disk, (disk.last().log->0).len() as u64)->Ok_0, disk),
        }
    }

    /// What the event makes of the holdings of a store. A change whose record
    /// goes behind a hint file is not saved; a merge saves all values but the
    /// empty ones; a restart brings back what is saved.
    pub open spec fn on_holdings(self, held: Holdings, behind: bool) -> Holdings {
        match self {
            Event::Change { op } => Holdings {
                live: op.on_map(held.live),
                saved: if behind {
                    held.saved
                } else {
                    op.on_saved(held.saved)
                },
            },
            Event::Rotation => held,
            Event::Merge { .. } => Holdings { live: held.live, saved: without_empty(held.live) },
            Event::Restart => Holdings { live: held.saved, saved: held.saved },
        }
    }

    /// The event puts or deletes the given key.
    pub open spec fn changes(self, key: Seq<char>) -> bool {
        self matches Event::Change { op } && op.key() == key
    }

    /// The event changes no key, unless it deletes the given one.
    pub open spec fn at_most_deletes(self, key: Seq<char>) -> bool {
        match self {
            Event::Change { op } => op is Delete && op.key() == key,
            _ => true,
        }
    }
}

/// A value is put.
pub open spec fn put(key: Seq<char>, value: Seq<char>, timestamp: u64) -> Seq<Event> {
    seq![Event::Change { op: Op::Put { key, value, timestamp } }]
}

/// A key is deleted.
pub open spec fn delete(key: Seq<char>, timestamp: u64) -> Seq<Event> {
    seq![Event::Change { op: Op::Delete { key, timestamp } }]
}

/// The store and its directory after the events, one after the other.
pub open spec fn timeline(store: StoreView, disk: Seq<FileView>, events: Seq<Event>) -> (
    StoreView,
    Seq<FileView>,
)
    decreases events.len(),
{
    if events.len() == 0 {
        (store, disk)
    } else {
        let (s, d) = timeline(store, disk, events.drop_last());
        events.last().after(s, d)
    }
}

/// All of the events can happen, one after the other.
pub open spec fn all_possible(store: StoreView, disk: Seq<FileView>, events: Seq<Event>) -> bool
    decreases events.len(),
{
    events.len() == 0 || {
        let (s, d) = timeline(store, disk, events.drop_last());
        all_possible(store, disk, events.drop_last()) && events.last().possible(s, d)
    }
}

/// What the events make of the holdings of a store.
pub open spec fn told(store: StoreView, disk: Seq<FileView>, events: Seq<Event>) -> Holdings
    decreases events.len(),
{
    if events.len() == 0 {
        holdings(store, disk)
    } else {
        let (s, d) = timeline(store, disk, events.drop_last());
        events.last().on_holdings(told(store, disk, events.drop_last()), behind_hint(s, d))
    }
}

/// One of the events is a restart.
pub open spec fn restarts(events: Seq<Event>) -> bool {
    exists|i: int| 0 <= i < events.len() && (#[trigger] events[i]) is Restart
}

/// One of the events is a merge.
pub open spec fn merges(events: Seq<Event>) -> bool {
    exists|i: int| 0 <= i < events.len() && (#[trigger] events[i]) is Merge
}

/// No restart comes before the first merge.
pub open spec fn merged_before_restart(events: Seq<Event>) -> bool {
    forall|i: int|
        0 <= i < events.len() && (#[trigger] events[i]) is Restart ==> exists|j: int|
            0 <= j < i && (#[trigger] events[j]) is Merge
}

} // verus!
