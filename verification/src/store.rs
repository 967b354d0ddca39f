//! The store: which bytes go where, and where the value of a key is found.

use crate::key_dir::{texts, KeyDir, KeyDirEntry};
use crate::record::{encode_record, record_bytes, record_len, HEADER_LEN};
use crate::recovery::{rebuild, rebuilt, views, FileImage, FileView, LoadError};
use crate::text::string_from_utf8;
use vstd::prelude::*;
use vstd::utf8::{encode_utf8, valid_utf8};

verus! {

/// A data file of this length or more takes no further record.
pub const MAX_FILE_SIZE: u64 = 2 * 1073741824;

/// Why a record cannot be written.
#[derive(Debug, Clone, Copy, PartialEq, Eq, Structural)]
pub enum WriteError {
    /// The record is larger than a buffer or a file can be.
    RecordTooLarge,
    /// The active file is full and there is no id for another one.
    FileIdsExhausted,
}

/// The position of a value does not fit into 64 bits.
#[derive(Debug, Clone, Copy, PartialEq, Eq, Structural)]
pub struct OffsetOverflow;

/// Bytes to append to a data file.
pub struct Append {
    /// The data file to append to.
    pub file_id: u32,
    /// Whether that file is a new one, which is now the active file.
    pub rotated: bool,
    pub bytes: Vec<u8>,
}

/// What an `Append` says.
#[verifier::ext_equal]
pub struct AppendView {
    pub file_id: u32,
    pub rotated: bool,
    pub bytes: Seq<u8>,
}

impl View for Append {
    type V = AppendView;

    open spec fn view(&self) -> AppendView {
        AppendView { file_id: self.file_id, rotated: self.rotated, bytes: self.bytes@ }
    }
}

/// Bytes to read from a data file.
#[derive(Debug, Clone, Copy, PartialEq, Eq, Structural)]
pub struct ReadAt {
    pub file_id: u32,
    pub offset: u64,
    pub len: u64,
}

/// The state of a store.
#[verifier::ext_equal]
pub struct StoreView {
    /// Where the latest value of every key lies.
    pub key_dir: Map<Seq<char>, KeyDirEntry>,
    /// The id of the file that takes the next record.
    pub active_file_id: u32,
    /// The length of that file.
    pub active_len: u64,
}

impl StoreView {
    pub open spec fn reaches_threshold(self) -> bool {
        self.active_len >= MAX_FILE_SIZE
    }

    /// The store after it has started a new, empty active file.
    pub open spec fn rotated(self) -> StoreView {
        StoreView { active_file_id: (self.active_file_id + 1) as u32, active_len: 0, ..self }
    }

    /// The store ready for the next record: a full active file is replaced.
    pub open spec fn ready(self) -> StoreView {
        if self.reaches_threshold() {
            self.rotated()
        } else {
            self
        }
    }

    /// Why a record with a key and a value of these lengths cannot be written.
    pub open spec fn write_error(self, key_sz: nat, value_sz: nat) -> Option<WriteError> {
        if record_len(key_sz, value_sz) > isize::MAX {
            Some(WriteError::RecordTooLarge)
        } else if self.reaches_threshold() && self.active_file_id == u32::MAX {
            Some(WriteError::FileIdsExhausted)
        } else if self.ready().active_len + record_len(key_sz, value_sz) > i64::MAX {
            Some(WriteError::RecordTooLarge)
        } else {
            None
        }
    }

    /// The bytes that writing `value` under `key` appends, and to which file.
    pub open spec fn append(self, key: Seq<char>, value: Seq<char>, timestamp: u64) -> AppendView {
        AppendView {
            file_id: self.ready().active_file_id,
            rotated: self.reaches_threshold(),
            bytes: record_bytes(timestamp, encode_utf8(key), encode_utf8(value)),
        }
    }

    /// The entry that points at that record.
    pub open spec fn new_entry(self, value: Seq<char>, timestamp: u64) -> KeyDirEntry {
        KeyDirEntry {
            file_id: self.ready().active_file_id,
            value_sz: encode_utf8(value).len() as u64,
            value_pos: self.ready().active_len,
            timestamp,
        }
    }

    /// The store after `value` was written under `key`.
    pub open spec fn written(self, key: Seq<char>, value: Seq<char>, timestamp: u64) -> StoreView {
        StoreView {
            key_dir: self.key_dir.insert(key, self.new_entry(value, timestamp)),
            active_file_id: self.ready().active_file_id,
            active_len: (self.ready().active_len + record_len(
                encode_utf8(key).len(),
                encode_utf8(value).len(),
            )) as u64,
        }
    }

    /// The store after `key` was deleted: an empty value was written under it,
    /// and the key was forgotten.
    pub open spec fn deleted(self, key: Seq<char>, timestamp: u64) -> StoreView {
        StoreView {
            key_dir: self.key_dir.remove(key),
            ..self.written(key, Seq::empty(), timestamp)
        }
    }

    /// Where the value of `key` lies; `None` where the key is unknown.
    pub open spec fn found(self, key: Seq<char>) -> Result<Option<ReadAt>, OffsetOverflow> {
        if !self.key_dir.contains_key(key) {
            Ok(None)
        } else {
            let entry = self.key_dir[key];
            let offset = entry.value_pos + HEADER_LEN + encode_utf8(key).len();
            if offset > u64::MAX {
                Err(OffsetOverflow)
            } else {
                Ok(
                    Some(
                        ReadAt {
                            file_id: entry.file_id,
                            offset: offset as u64,
                            len: entry.value_sz,
                        },
                    ),
                )
            }
        }
    }
}

/// The highest id among the files, and 0 where there is no file.
pub open spec fn highest_id(files: Seq<FileView>) -> u32
    decreases files.len(),
{
    if files.len() == 0 {
        0
    } else {
        let before = highest_id(files.drop_last());
        if files.last().file_id > before {
            files.last().file_id
        } else {
            before
        }
    }
}

/// The store that is opened on the given files, whose active file has the
/// length `active_len`.
pub open spec fn opened(files: Seq<FileView>, active_len: u64) -> Result<StoreView, LoadError> {
    match rebuilt(files) {
        Ok(key_dir) => Ok(
            StoreView { key_dir, active_file_id: highest_id(files), active_len },
        ),
        Err(e) => Err(e),
    }
}

/// The state of the store that was opened, or the error.
pub open spec fn state(result: Result<Ronin, LoadError>) -> Result<StoreView, LoadError> {
    match result {
        Ok(store) => Ok(store@),
        Err(e) => Err(e),
    }
}

/// A store.
pub struct Ronin {
    key_dir: KeyDir,
    active_file_id: u32,
    active_len: u64,
}

impl View for Ronin {
    type V = StoreView;

    closed spec fn view(&self) -> StoreView {
        StoreView {
            key_dir: self.key_dir@,
            active_file_id: self.active_file_id,
            active_len: self.active_len,
        }
    }
}

impl Ronin {
    /// Opens a store on the files of its directory, given in ascending order of
    /// their ids. `active_len` is the length of the data file with the highest
    /// id, 0 where it does not exist yet.
    pub fn new(files: &Vec<FileImage>, active_len: u64) -> (result: Result<Ronin, LoadError>)
        ensures
            state(result) == opened(views(files@), active_len),
    {
        let mut active_file_id: u32 = 0;
        let mut i: usize = 0;
        let ghost all = views(files@);
        while i < files.len()
            invariant
                i <= files@.len(),
                all == views(files@),
                active_file_id == highest_id(all.take(i as int)),
            decreases files@.len() - i,
        {
            assert(all.take(i + 1).drop_last() =~= all.take(i as int));
            assert(all.take(i + 1).last() == files@[i as int]@);
            if files[i].file_id > active_file_id {
                active_file_id = files[i].file_id;
            }
            i = i + 1;
        }
        assert(all.take(i as int) =~= all);
        match rebuild(files) {
            Ok(key_dir) => Ok(Ronin { key_dir, active_file_id, active_len }),
            Err(e) => Err(e),
        }
    }

    /// Opens a store on the files of another directory; see `new`.
    pub fn open(&mut self, files: &Vec<FileImage>, active_len: u64) -> (result: Result<
        Ronin,
        LoadError,
    >)
        ensures
            state(result) == opened(views(files@), active_len),
            *final(self) == *old(self),
    {
        Ronin::new(files, active_len)
    }

    /// The id of the file that takes the next record, unless it is full.
    pub fn active_file_id(&self) -> (id: u32)
        ensures
            id == self@.active_file_id,
    {
        self.active_file_id
    }

    /// Whether the active file has reached the maximum size.
    pub fn reach_file_threshold(&self) -> (yes: bool)
        ensures
            yes == self@.reaches_threshold(),
    {
        self.active_len >= MAX_FILE_SIZE
    }

    /// Starts a new active file and returns the position of its end.
    fn rotate_active_file(&mut self) -> (pos: u64)
        requires
            old(self)@.active_file_id < u32::MAX,
        ensures
            final(self)@ == old(self)@.rotated(),
            pos == 0,
    {
        self.active_file_id = self.active_file_id + 1;
        self.active_len = 0;
        0
    }

    /// Goes on with another active file, of the given length, and another key
    /// directory.
    pub(crate) fn switch_to(&mut self, key_dir: KeyDir, file_id: u32, len: u64)
        ensures
            final(self)@ == (StoreView {
                key_dir: key_dir@,
                active_file_id: file_id,
                active_len: len,
            }),
    {
        self.key_dir = key_dir;
        self.active_file_id = file_id;
        self.active_len = len;
    }

    /// Writes `value` under `key`: says which bytes to append to which file, and
    /// remembers where they lie.
    pub fn write(&mut self, key: &str, value: &str, timestamp: u64) -> (result: Result<
        Append,
        WriteError,
    >)
        ensures
            match old(self)@.write_error(encode_utf8(key@).len(), encode_utf8(value@).len()) {
                None => {
                    &&& result matches Ok(append)
                    &&& append@ == old(self)@.append(key@, value@, timestamp)
                    &&& final(self)@ == old(self)@.written(key@, value@, timestamp)
                },
                Some(e) => {
                    &&& result matches Err(error)
                    &&& error == e
                    &&& final(self)@ == old(self)@
                },
            },
    {
        let key_bytes = key.as_bytes();
        let value_bytes = value.as_bytes();
        let most = isize::MAX as usize;
        if key_bytes.len() > most - HEADER_LEN || value_bytes.len() > most - HEADER_LEN
            - key_bytes.len() {
            return Err(WriteError::RecordTooLarge);
        }
        let len = (HEADER_LEN + key_bytes.len() + value_bytes.len()) as u64;
        let rotated = self.reach_file_threshold();
        if rotated && self.active_file_id == u32::MAX {
            return Err(WriteError::FileIdsExhausted);
        }
        let mut current_pos = self.active_len;
        if !rotated && len > i64::MAX as u64 - current_pos {
            return Err(WriteError::RecordTooLarge);
        }
        if rotated {
            current_pos = self.rotate_active_file();
        }
        let bytes = encode_record(timestamp, key_bytes, value_bytes);
        let entry = KeyDirEntry {
            file_id: self.active_file_id,
            value_sz: value_bytes.len() as u64,
            value_pos: current_pos,
            timestamp,
        };
        self.key_dir.insert(key, entry);
        self.active_len = current_pos + len;
        Ok(Append { file_id: self.active_file_id, rotated, bytes })
    }

    /// Stores `value` under `key`; see `write`.
    pub fn put(&mut self, key: &str, value: &str, timestamp: u64) -> (result: Result<
        Append,
        WriteError,
    >)
        ensures
            match old(self)@.write_error(encode_utf8(key@).len(), encode_utf8(value@).len()) {
                None => {
                    &&& result matches Ok(append)
                    &&& append@ == old(self)@.append(key@, value@, timestamp)
                    &&& final(self)@ == old(self)@.written(key@, value@, timestamp)
                },
                Some(e) => {
                    &&& result matches Err(error)
                    &&& error == e
                    &&& final(self)@ == old(self)@
                },
            },
    {
        self.write(key, value, timestamp)
    }

    /// Finds the value of `key`: says which bytes of which file hold it. The
    /// position of a value in a loaded hint file may be too large for that.
    pub fn get(&self, key: &str) -> (result: Result<Option<ReadAt>, OffsetOverflow>)
        ensures
            result == self@.found(key@),
    {
        match self.key_dir.get(key) {
            None => Ok(None),
            Some(entry) => {
                let ahead = key.as_bytes().len() as u64;
                if ahead > u64::MAX - HEADER_LEN as u64 || entry.value_pos > u64::MAX
                    - HEADER_LEN as u64 - ahead {
                    return Err(OffsetOverflow);
                }
                let offset = entry.value_pos + HEADER_LEN as u64 + ahead;
                Ok(Some(ReadAt { file_id: entry.file_id, offset, len: entry.value_sz }))
            },
        }
    }

    /// Deletes `key`: says which bytes to append to which file, and forgets the
    /// key. The record has an empty value, whether or not the key is known.
    pub fn delete(&mut self, key: &str, timestamp: u64) -> (result: Result<Append, WriteError>)
        ensures
            match old(self)@.write_error(encode_utf8(key@).len(), 0) {
                None => {
                    &&& result matches Ok(append)
                    &&& append@ == old(self)@.append(key@, Seq::empty(), timestamp)
                    &&& final(self)@ == old(self)@.deleted(key@, timestamp)
                },
                Some(e) => {
                    &&& result matches Err(error)
                    &&& error == e
                    &&& final(self)@ == old(self)@
                },
            },
    {
        proof {
            reveal_strlit("");
            assert(""@ =~= Seq::<char>::empty());
            assert(encode_utf8(""@).len() == 0);
        }
        let result = self.put(key, "", timestamp);
        if result.is_ok() {
            self.key_dir.remove(key);
            assert(self@ =~= old(self)@.deleted(key@, timestamp));
        }
        result
    }

    /// All known keys, each once, in no particular order.
    pub fn list_keys(&self) -> (keys: Vec<String>)
        ensures
            texts(keys@).no_duplicates(),
            texts(keys@).to_set() == self@.key_dir.dom(),
    {
        self.key_dir.keys()
    }
}

/// The value that was read: its text, or `None` where the bytes are not UTF-8.
pub fn value_from_bytes(bytes: Vec<u8>) -> (value: Option<String>)
    ensures
        value is Some <==> valid_utf8(bytes@),
        value matches Some(text) ==> encode_utf8(text@) == bytes@,
{
    string_from_utf8(bytes)
}

} // verus!
