//! Merging: copying the live values into one new data file with a hint file.
//!
//! `Ronin::merge` starts a merge. As long as `next_read` names bytes to read,
//! `copy` takes them and says what to append to the two new files. Then
//! `Ronin::finish_merge` makes the new data file the active one.

use crate::key_dir::{texts, KeyDir, KeyDirEntry};
use crate::record::{
    encode_hint, encode_record, hint_bytes, record_bytes, record_len, HEADER_LEN, HINT_HEADER_LEN,
};
use crate::store::{OffsetOverflow, ReadAt, Ronin, StoreView};
use vstd::prelude::*;
use vstd::utf8::encode_utf8;

verus! {

/// Why a merge cannot go on.
#[derive(Debug, Clone, Copy, PartialEq, Eq, Structural)]
pub enum MergeError {
    /// There is no id for another data file.
    FileIdsExhausted,
    /// The position of a value does not fit into 64 bits.
    OffsetOverflow,
    /// A record or its hint is larger than a buffer or a file can be.
    RecordTooLarge,
    /// Every value has been copied.
    NothingPending,
    /// Some value has not been copied.
    StillPending,
}

/// A value that is to be copied.
struct Pending {
    key: String,
    at: ReadAt,
}

/// What a `Pending` says: the key, and where its value lies.
spec fn pending_views(pending: Seq<Pending>) -> Seq<(Seq<char>, ReadAt)> {
    pending.map_values(|p: Pending| (p.key@, p.at))
}

/// The bytes to append for one copied value.
pub struct Copied {
    /// For the new data file.
    pub record: Vec<u8>,
    /// For its hint file.
    pub hint: Vec<u8>,
}

/// The state of a merge.
#[verifier::ext_equal]
pub struct MergeView {
    /// The id of the new data file.
    pub file_id: u32,
    /// The time that the new records bear.
    pub timestamp: u64,
    /// The values still to be copied.
    pub pending: Seq<(Seq<char>, ReadAt)>,
    /// The length of the new data file so far.
    pub pos: u64,
    /// Where the copied values lie in the new data file.
    pub key_dir: Map<Seq<char>, KeyDirEntry>,
}

impl MergeView {
    /// Why a value of the given length cannot be copied now.
    pub open spec fn copy_error(self, value_sz: nat) -> Option<MergeError> {
        if self.pending.len() == 0 {
            Some(MergeError::NothingPending)
        } else {
            let key_sz = encode_utf8(self.pending[0].0).len();
            if record_len(key_sz, value_sz) > isize::MAX || HINT_HEADER_LEN + key_sz > isize::MAX
                || self.pos + record_len(key_sz, value_sz) > i64::MAX {
                Some(MergeError::RecordTooLarge)
            } else {
                None
            }
        }
    }

    /// The record for the next pending key.
    pub open spec fn record(self, value: Seq<u8>) -> Seq<u8> {
        record_bytes(self.timestamp, encode_utf8(self.pending[0].0), value)
    }

    /// The hint for that record.
    pub open spec fn hint(self, value: Seq<u8>) -> Seq<u8> {
        hint_bytes(self.timestamp, encode_utf8(self.pending[0].0), value.len(), self.pos)
    }

    /// The entry that points at that record.
    pub open spec fn new_entry(self, value: Seq<u8>) -> KeyDirEntry {
        KeyDirEntry {
            file_id: self.file_id,
            value_sz: value.len() as u64,
            value_pos: self.pos,
            timestamp: self.timestamp,
        }
    }

    /// The merge after `value` was copied for the next pending key.
    pub open spec fn copied(self, value: Seq<u8>) -> MergeView {
        let key = self.pending[0].0;
        MergeView {
            pending: self.pending.skip(1),
            pos: (self.pos + record_len(encode_utf8(key).len(), value.len())) as u64,
            key_dir: self.key_dir.insert(key, self.new_entry(value)),
            ..self
        }
    }

    /// The store after the merge.
    pub open spec fn merged(self) -> StoreView {
        StoreView {
            key_dir: self.key_dir,
            active_file_id: self.file_id,
            active_len: self.pos,
        }
    }

    /// A merge of `store` that has copied nothing yet: each key of the store is
    /// pending once, with the place of its value.
    pub open spec fn starts(self, store: StoreView, timestamp: u64) -> bool {
        &&& store.active_file_id < u32::MAX
        &&& self.file_id == store.active_file_id + 1
        &&& self.timestamp == timestamp
        &&& self.pos == 0
        &&& self.key_dir == Map::<Seq<char>, KeyDirEntry>::empty()
        &&& self.pending.map_values(|p: (Seq<char>, ReadAt)| p.0).no_duplicates()
        &&& self.pending.map_values(|p: (Seq<char>, ReadAt)| p.0).to_set() == store.key_dir.dom()
        &&& forall|i: int|
            0 <= i < self.pending.len() ==> store.found((#[trigger] self.pending[i]).0) == Ok::<
                Option<ReadAt>,
                OffsetOverflow,
            >(Some(self.pending[i].1))
    }
}

/// Some value lies at a position that does not fit into 64 bits.
pub open spec fn some_overflow(store: StoreView) -> bool {
    exists|key: Seq<char>| (#[trigger] store.found(key)) is Err
}

/// A merge in progress.
pub struct Merge {
    file_id: u32,
    timestamp: u64,
    /// The value to copy next stands last.
    pending: Vec<Pending>,
    pos: u64,
    key_dir: KeyDir,
}

impl View for Merge {
    type V = MergeView;

    closed spec fn view(&self) -> MergeView {
        MergeView {
            file_id: self.file_id,
            timestamp: self.timestamp,
            pending: pending_views(self.pending@).reverse(),
            pos: self.pos,
            key_dir: self.key_dir@,
        }
    }
}

impl Merge {
    /// The id of the new data file.
    pub fn file_id(&self) -> (id: u32)
        ensures
            id == self@.file_id,
    {
        self.file_id
    }

    /// The bytes that hold the next value to copy; `None` where all are copied.
    pub fn next_read(&self) -> (at: Option<ReadAt>)
        ensures
            at == (if self@.pending.len() == 0 {
                None
            } else {
                Some(self@.pending[0].1)
            }),
    {
        let left = self.pending.len();
        if left > 0 {
            Some(self.pending[left - 1].at)
        } else {
            None
        }
    }

    /// Copies the value that was read for `next_read`: says what to append to
    /// the new data file and to its hint file.
    pub fn copy(&mut self, value: &[u8]) -> (result: Result<Copied, MergeError>)
        ensures
            match old(self)@.copy_error(value@.len()) {
                None => {
                    &&& result matches Ok(copied)
                    &&& copied.record@ == old(self)@.record(value@)
                    &&& copied.hint@ == old(self)@.hint(value@)
                    &&& final(self)@ == old(self)@.copied(value@)
                },
                Some(e) => {
                    &&& result matches Err(error)
                    &&& error == e
                    &&& final(self)@ == old(self)@
                },
            },
    {
        let left = self.pending.len();
        if left == 0 {
            return Err(MergeError::NothingPending);
        }
        let key = self.pending[left - 1].key.clone();
        let key_bytes = key.as_str().as_bytes();
        let most = isize::MAX as usize;
        if key_bytes.len() > most - HINT_HEADER_LEN || value.len() > most - HEADER_LEN
            - key_bytes.len() {
            return Err(MergeError::RecordTooLarge);
        }
        let len = (HEADER_LEN + key_bytes.len() + value.len()) as u64;
        let furthest = i64::MAX as u64;
        if self.pos > furthest || len > furthest - self.pos {
            return Err(MergeError::RecordTooLarge);
        }
        let value_sz = value.len() as u64;
        let hint = encode_hint(self.timestamp, key_bytes, value_sz, self.pos);
        let record = encode_record(self.timestamp, key_bytes, value);
        let entry = KeyDirEntry {
            file_id: self.file_id,
            value_sz,
            value_pos: self.pos,
            timestamp: self.timestamp,
        };
        self.key_dir.insert(key.as_str(), entry);
        self.pos = self.pos + len;
        self.pending.pop();
        assert(self@ =~= old(self)@.copied(value@));
        Ok(Copied { record, hint })
    }
}

impl Ronin {
    /// Starts a merge into a new data file. The merge copies what the store holds
    /// now: `finish_merge` forgets what is put, and brings back what is deleted,
    /// in between.
    pub fn merge(&self, timestamp: u64) -> (result: Result<Merge, MergeError>)
        ensures
            if self@.active_file_id == u32::MAX {
                result matches Err(e) && e == MergeError::FileIdsExhausted
            } else if some_overflow(self@) {
                result matches Err(e) && e == MergeError::OffsetOverflow
            } else {
                result matches Ok(merge) && merge@.starts(self@, timestamp)
            },
    {
        if self.active_file_id() == u32::MAX {
            return Err(MergeError::FileIdsExhausted);
        }
        let keys = self.list_keys();
        let mut pending: Vec<Pending> = Vec::new();
        let mut i: usize = 0;
        while i < keys.len()
            invariant
                i <= keys@.len(),
                pending@.len() == i,
                self@.active_file_id < u32::MAX,
                texts(keys@).to_set() == self@.key_dir.dom(),
                forall|j: int| 0 <= j < i ==> (#[trigger] pending@[j]).key@ == keys@[j]@,
                forall|j: int|
                    0 <= j < i ==> self@.found((#[trigger] pending@[j]).key@) == Ok::<
                        Option<ReadAt>,
                        OffsetOverflow,
                    >(Some(pending@[j].at)),
            decreases keys@.len() - i,
        {
            let key = keys[i].clone();
            assert(texts(keys@).contains(texts(keys@)[i as int]));
            match self.get(key.as_str()) {
                Err(_) => {
                    return Err(MergeError::OffsetOverflow);
                },
                Ok(None) => {
                    assert(false);
                },
                Ok(Some(at)) => {
                    pending.push(Pending { key, at });
                },
            }
            i = i + 1;
        }
        let merge = Merge {
            file_id: self.active_file_id() + 1,
            timestamp,
            pending,
            pos: 0,
            key_dir: KeyDir::new(),
        };
        proof {
            let listed = texts(keys@);
            let named = merge@.pending.map_values(|p: (Seq<char>, ReadAt)| p.0);
            assert(named =~= listed.reverse());
            assert forall|key: Seq<char>| listed.contains(key) implies named.contains(key) by {
                let j = listed.index_of(key);
                assert(named[listed.len() - 1 - j] == key);
            }
            assert(named.to_set() =~= listed.to_set());
            assert forall|key: Seq<char>| (#[trigger] self@.found(key)) is Ok by {
                if self@.key_dir.contains_key(key) {
                    assert(texts(keys@).to_set().contains(key));
                    let j = texts(keys@).index_of(key);
                    assert(pending@[j].key@ == key);
                }
            }
        }
        Ok(merge)
    }

    /// Makes the new data file of a merge the active one. The store then knows
    /// what the merge copied and nothing else, so the merge has to come from this
    /// store, with no change since it was started.
    ///
    /// The new data file has a hint file, from which alone it is loaded. What is
    /// written into it from now on is not loaded when the store is opened again,
    /// unless the store is merged once more; what is written after the file has
    /// reached the maximum size goes into a file without a hint file, and is.
    pub fn finish_merge(&mut self, merge: Merge) -> (result: Result<(), MergeError>)
        ensures
            if merge@.pending.len() == 0 {
                &&& result is Ok
                &&& final(self)@ == merge@.merged()
            } else {
                &&& result == Err::<(), MergeError>(MergeError::StillPending)
                &&& final(self)@ == old(self)@
            },
    {
        if merge.pending.len() > 0 {
            return Err(MergeError::StillPending);
        }
        self.switch_to(merge.key_dir, merge.file_id, merge.pos);
        Ok(())
    }
}

} // verus!
