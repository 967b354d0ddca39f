//! Rebuilding the key directory from the files on disk.

use crate::key_dir::{KeyDir, KeyDirEntry};
use crate::le::{lemma_capacities, read_u64};
use crate::record::{field, HEADER_LEN, HINT_HEADER_LEN};
use crate::text::string_from_utf8;
use vstd::prelude::*;
use vstd::slice::{slice_subrange, slice_to_vec};
use vstd::utf8::{decode_utf8, valid_utf8};

verus! {

/// Why the contents of a file cannot be loaded.
#[derive(Debug, Clone, Copy, PartialEq, Eq, Structural)]
pub enum LoadError {
    /// The file ends within a key.
    TruncatedKey,
    /// A key is not UTF-8.
    KeyNotUtf8,
    /// The size of a value leads to a position that no file has.
    ValueOutOfRange,
    /// The sizes of values lead backwards, over the same records again and again.
    EndlessScan,
}

/// The contents of one data file and its hint file, as far as they were found
/// and read.
pub struct FileImage {
    pub file_id: u32,
    pub hint: Option<Vec<u8>>,
    pub log: Option<Vec<u8>>,
}

/// What a `FileImage` holds.
#[verifier::ext_equal]
pub struct FileView {
    pub file_id: u32,
    pub hint: Option<Seq<u8>>,
    pub log: Option<Seq<u8>>,
}

pub open spec fn bytes_of(bytes: Option<Vec<u8>>) -> Option<Seq<u8>> {
    match bytes {
        Some(b) => Some(b@),
        None => None,
    }
}

impl View for FileImage {
    type V = FileView;

    open spec fn view(&self) -> FileView {
        FileView { file_id: self.file_id, hint: bytes_of(self.hint), log: bytes_of(self.log) }
    }
}

/// What a list of images holds.
pub open spec fn views(files: Seq<FileImage>) -> Seq<FileView> {
    files.map_values(|f: FileImage| f@)
}

/// The directory after one more record or hint: an empty value forgets the key.
pub open spec fn updated(
    dir: Map<Seq<char>, KeyDirEntry>,
    key: Seq<char>,
    entry: KeyDirEntry,
) -> Map<Seq<char>, KeyDirEntry> {
    if entry.value_sz == 0 {
        dir.remove(key)
    } else {
        dir.insert(key, entry)
    }
}

/// The distance from the end of a key to the next record. The value size counts
/// as a signed 64-bit number, so that a size of 2^63 or more leads backwards.
pub open spec fn stride(value_sz: nat) -> int {
    if value_sz <= i64::MAX {
        value_sz as int
    } else {
        value_sz - 0x1_0000_0000_0000_0000
    }
}

/// The directory after at most `steps` records of a data file, from position
/// `pos` on.
///
/// Fewer bytes than a header end the file; a value that the file ends within
/// counts as one that it ends behind.
pub open spec fn replay_records(
    log: Seq<u8>,
    file_id: u32,
    pos: nat,
    dir: Map<Seq<char>, KeyDirEntry>,
    steps: nat,
) -> Result<Map<Seq<char>, KeyDirEntry>, LoadError>
    decreases steps,
{
    if log.len() < pos + HEADER_LEN {
        Ok(dir)
    } else if steps == 0 {
        Err(LoadError::EndlessScan)
    } else {
        let timestamp = field(log, pos + 4int);
        let key_sz = field(log, pos + 12int);
        let value_sz = field(log, pos + 20int);
        let key_end = pos + HEADER_LEN as nat + key_sz;
        if log.len() < key_end {
            Err(LoadError::TruncatedKey)
        } else {
            let key = log.subrange(pos + HEADER_LEN, key_end as int);
            let next = key_end + stride(value_sz);
            if !valid_utf8(key) {
                Err(LoadError::KeyNotUtf8)
            } else if next < 0 || next > i64::MAX {
                Err(LoadError::ValueOutOfRange)
            } else {
                let entry = KeyDirEntry {
                    file_id,
                    value_sz: value_sz as u64,
                    value_pos: pos as u64,
                    timestamp: timestamp as u64,
                };
                replay_records(
                    log,
                    file_id,
                    next as nat,
                    updated(dir, decode_utf8(key), entry),
                    (steps - 1) as nat,
                )
            }
        }
    }
}

/// The directory after the records of a data file.
///
/// A scan that has not ended after as many records as the file has bytes has
/// been at some position twice, and never ends.
pub open spec fn replay_log(
    log: Seq<u8>,
    file_id: u32,
    dir: Map<Seq<char>, KeyDirEntry>,
) -> Result<Map<Seq<char>, KeyDirEntry>, LoadError> {
    replay_records(log, file_id, 0, dir, log.len())
}

/// The directory after the hints of a hint file from position `at` on.
///
/// Fewer bytes than a header end the file.
pub open spec fn replay_hints(
    hints: Seq<u8>,
    file_id: u32,
    at: nat,
    dir: Map<Seq<char>, KeyDirEntry>,
) -> Result<Map<Seq<char>, KeyDirEntry>, LoadError>
    decreases hints.len() - at,
{
    if hints.len() < at + HINT_HEADER_LEN {
        Ok(dir)
    } else {
        let key_end = at + HINT_HEADER_LEN as nat + field(hints, at + 8int);
        if hints.len() < key_end {
            Err(LoadError::TruncatedKey)
        } else {
            let key = hints.subrange(at + HINT_HEADER_LEN, key_end as int);
            if !valid_utf8(key) {
                Err(LoadError::KeyNotUtf8)
            } else {
                let entry = KeyDirEntry {
                    file_id,
                    value_sz: field(hints, at + 16int) as u64,
                    value_pos: field(hints, at + 24int) as u64,
                    timestamp: field(hints, at as int) as u64,
                };
                replay_hints(hints, file_id, key_end, updated(dir, decode_utf8(key), entry))
            }
        }
    }
}

/// The directory after one file: its hints where it has a hint file, else the
/// records of its data file, else nothing new.
pub open spec fn replay_file(
    file: FileView,
    dir: Map<Seq<char>, KeyDirEntry>,
) -> Result<Map<Seq<char>, KeyDirEntry>, LoadError> {
    match (file.hint, file.log) {
        (Some(hints), _) => replay_hints(hints, file.file_id, 0, dir),
        (None, Some(log)) => replay_log(log, file.file_id, dir),
        (None, None) => Ok(dir),
    }
}

/// The directory after all files, one after the other.
pub open spec fn rebuilt(files: Seq<FileView>) -> Result<Map<Seq<char>, KeyDirEntry>, LoadError>
    decreases files.len(),
{
    if files.len() == 0 {
        Ok(Map::empty())
    } else {
        match rebuilt(files.drop_last()) {
            Ok(dir) => replay_file(files.last(), dir),
            Err(e) => Err(e),
        }
    }
}

/// The directory that was loaded, or the error.
pub open spec fn loaded(result: Result<KeyDir, LoadError>) -> Result<
    Map<Seq<char>, KeyDirEntry>,
    LoadError,
> {
    match result {
        Ok(dir) => Ok(dir@),
        Err(e) => Err(e),
    }
}

/// Applies one record or hint.
fn update(dir: &mut KeyDir, key: &str, entry: KeyDirEntry)
    ensures
        final(dir)@ == updated(old(dir)@, key@, entry),
{
    if entry.value_sz == 0 {
        dir.remove(key);
    } else {
        dir.insert(key, entry);
    }
}

/// Reads the text `bytes[from..to]`.
fn text_at(bytes: &[u8], from: usize, to: usize) -> (text: Option<String>)
    requires
        from <= to <= bytes@.len(),
    ensures
        text is Some <==> valid_utf8(bytes@.subrange(from as int, to as int)),
        text matches Some(s) ==> s@ == decode_utf8(bytes@.subrange(from as int, to as int)),
{
    let text = string_from_utf8(slice_to_vec(slice_subrange(bytes, from, to)));
    proof {
        if text is Some {
            vstd::utf8::encode_utf8_decode_utf8(text->0@);
        }
    }
    text
}

/// The position of the next record behind a key that ends at `key_end`; `None`
/// where no file has such a position.
fn next_record(key_end: u64, value_sz: u64) -> (next: Option<u64>)
    ensures
        next == ({
            let pos = key_end + stride(value_sz as nat);
            if pos < 0 || pos > i64::MAX {
                None
            } else {
                Some(pos as u64)
            }
        }),
{
    let most: u64 = 0x7fff_ffff_ffff_ffff;
    if value_sz <= most {
        if key_end > most || value_sz > most - key_end {
            None
        } else {
            Some(key_end + value_sz)
        }
    } else {
        let back: u64 = u64::MAX - value_sz + 1;
        if key_end < back || key_end - back > most {
            None
        } else {
            Some(key_end - back)
        }
    }
}

/// Applies the records of a data file.
fn load_log(known: KeyDir, file_id: u32, log: &[u8]) -> (result: Result<KeyDir, LoadError>)
    ensures
        loaded(result) == replay_log(log@, file_id, known@),
{
    let mut dir = known;
    let len = log.len() as u64;
    let mut pos: u64 = 0;
    let mut steps: usize = log.len();
    proof {
        lemma_capacities();
    }
    while pos <= len && len - pos >= HEADER_LEN as u64
        invariant
            len == log.len(),
            replay_records(log@, file_id, pos as nat, dir@, steps as nat) == replay_log(
                log@,
                file_id,
                known@,
            ),
        decreases steps,
    {
        if steps == 0 {
            return Err(LoadError::EndlessScan);
        }
        let at = pos as usize;
        let timestamp = read_u64(log, at + 4);
        let key_sz = read_u64(log, at + 12);
        let value_sz = read_u64(log, at + 20);
        let room = len - pos - HEADER_LEN as u64;
        if room < key_sz {
            return Err(LoadError::TruncatedKey);
        }
        let key_start = at + HEADER_LEN;
        let key_end = key_start + key_sz as usize;
        match text_at(log, key_start, key_end) {
            None => {
                return Err(LoadError::KeyNotUtf8);
            },
            Some(key) => match next_record(key_end as u64, value_sz) {
                None => {
                    return Err(LoadError::ValueOutOfRange);
                },
                Some(next) => {
                    let entry = KeyDirEntry { file_id, value_sz, value_pos: pos, timestamp };
                    update(&mut dir, key.as_str(), entry);
                    pos = next;
                    steps = steps - 1;
                },
            },
        }
    }
    Ok(dir)
}

/// Applies the hints of a hint file.
fn load_hints(known: KeyDir, file_id: u32, hints: &[u8]) -> (result: Result<KeyDir, LoadError>)
    ensures
        loaded(result) == replay_hints(hints@, file_id, 0, known@),
{
    let mut dir = known;
    let len = hints.len();
    let mut at: usize = 0;
    proof {
        lemma_capacities();
    }
    while len - at >= HINT_HEADER_LEN
        invariant
            at <= len == hints.len(),
            replay_hints(hints@, file_id, at as nat, dir@) == replay_hints(
                hints@,
                file_id,
                0,
                known@,
            ),
        decreases len - at,
    {
        let timestamp = read_u64(hints, at);
        let key_sz = read_u64(hints, at + 8);
        let value_sz = read_u64(hints, at + 16);
        let value_pos = read_u64(hints, at + 24);
        let room = len - at - HINT_HEADER_LEN;
        if (room as u64) < key_sz {
            return Err(LoadError::TruncatedKey);
        }
        let key_start = at + HINT_HEADER_LEN;
        let key_end = key_start + key_sz as usize;
        match text_at(hints, key_start, key_end) {
            None => {
                return Err(LoadError::KeyNotUtf8);
            },
            Some(key) => {
                let entry = KeyDirEntry { file_id, value_sz, value_pos, timestamp };
                update(&mut dir, key.as_str(), entry);
                at = key_end;
            },
        }
    }
    Ok(dir)
}

/// Applies one file.
fn load_file(dir: KeyDir, file: &FileImage) -> (result: Result<KeyDir, LoadError>)
    ensures
        loaded(result) == replay_file(file@, dir@),
{
    match &file.hint {
        Some(hints) => load_hints(dir, file.file_id, hints.as_slice()),
        None => match &file.log {
            Some(log) => load_log(dir, file.file_id, log.as_slice()),
            None => Ok(dir),
        },
    }
}

/// Rebuilds the key directory from the files, taken in the given order.
pub fn rebuild(files: &Vec<FileImage>) -> (result: Result<KeyDir, LoadError>)
    ensures
        loaded(result) == rebuilt(views(files@)),
{
    let ghost all = views(files@);
    let mut dir = KeyDir::new();
    let mut i: usize = 0;
    while i < files.len()
        invariant
            i <= files@.len(),
            all == views(files@),
            rebuilt(all.take(i as int)) == Ok::<_, LoadError>(dir@),
        decreases files@.len() - i,
    {
        assert(all.take(i + 1).drop_last() =~= all.take(i as int));
        assert(all.take(i + 1).last() == files@[i as int]@);
        match load_file(dir, &files[i]) {
            Ok(longer) => {
                dir = longer;
            },
            Err(e) => {
                proof {
                    lemma_rebuild_stops(all, i + 1);
                }
                return Err(e);
            },
        }
        i = i + 1;
    }
    assert(all.take(i as int) =~= all);
    Ok(dir)
}

/// The first file that cannot be loaded decides.
proof fn lemma_rebuild_stops(files: Seq<FileView>, n: int)
    requires
        0 <= n <= files.len(),
        rebuilt(files.take(n)) is Err,
    ensures
        rebuilt(files) == rebuilt(files.take(n)),
    decreases files.len(),
{
    if n == files.len() {
        assert(files.take(n) =~= files);
    } else {
        assert(files.drop_last().take(n) =~= files.take(n));
        lemma_rebuild_stops(files.drop_last(), n);
    }
}

} // verus!
