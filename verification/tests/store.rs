//! The store on a directory that is kept in memory.

use ronin_rs::{
    data_file_ids, data_file_name, hint_file_name, is_superseded, value_from_bytes, Append,
    FileImage, LoadError, MergeError, OffsetOverflow, ReadAt, Ronin, WriteError, MAX_FILE_SIZE,
};
use std::collections::BTreeMap;

/// The files of a directory.
#[derive(Clone)]
struct Dir {
    files: BTreeMap<String, Vec<u8>>,
}

impl Dir {
    fn new() -> Dir {
        Dir { files: BTreeMap::new() }
    }

    fn names(&self) -> Vec<String> {
        self.files.keys().cloned().collect()
    }

    fn images(&self) -> Vec<FileImage> {
        let mut images = Vec::new();
        for file_id in data_file_ids(&self.names()) {
            images.push(FileImage {
                file_id,
                hint: self.files.get(&hint_file_name(file_id)).cloned(),
                log: self.files.get(&data_file_name(file_id)).cloned(),
            });
        }
        images
    }

    fn append(&mut self, name: String, bytes: &[u8]) {
        self.files.entry(name).or_default().extend_from_slice(bytes);
    }

    fn read(&self, at: ReadAt) -> Vec<u8> {
        let log = &self.files[&data_file_name(at.file_id)];
        let start = at.offset as usize;
        log[start..start + at.len as usize].to_vec()
    }
}

/// A store on a directory in memory, with a clock of its own.
struct Db {
    store: Ronin,
    dir: Dir,
    now: u64,
}

impl Db {
    fn open(mut dir: Dir) -> Db {
        let images = dir.images();
        let name = data_file_name(images.last().unwrap().file_id);
        let len = dir.files.entry(name).or_default().len() as u64;
        let store = Ronin::new(&images, len).expect("the directory loads");
        Db { store, dir, now: 1_700_000_000 }
    }

    fn carry_out(&mut self, append: Append) {
        let name = data_file_name(append.file_id);
        if append.rotated {
            assert!(!self.dir.files.contains_key(&name));
        }
        self.dir.append(name, &append.bytes);
    }

    fn put(&mut self, key: &str, value: &str) {
        self.now += 1;
        let append = self.store.put(key, value, self.now).unwrap();
        self.carry_out(append);
    }

    fn delete(&mut self, key: &str) {
        self.now += 1;
        let append = self.store.delete(key, self.now).unwrap();
        self.carry_out(append);
    }

    fn get(&self, key: &str) -> Option<String> {
        let at = self.store.get(key).unwrap()?;
        Some(value_from_bytes(self.dir.read(at)).unwrap())
    }

    fn merge(&mut self) {
        self.now += 1;
        let mut merge = self.store.merge(self.now).unwrap();
        let id = merge.file_id();
        self.dir.append(data_file_name(id), &[]);
        self.dir.append(hint_file_name(id), &[]);
        while let Some(at) = merge.next_read() {
            let copied = merge.copy(&self.dir.read(at)).unwrap();
            self.dir.append(data_file_name(id), &copied.record);
            self.dir.append(hint_file_name(id), &copied.hint);
        }
        self.store.finish_merge(merge).unwrap();
        for name in self.dir.names() {
            if is_superseded(&name, id) {
                self.dir.files.remove(&name);
            }
        }
    }

    fn keys(&self) -> Vec<String> {
        let mut keys = self.store.list_keys();
        keys.sort();
        keys
    }

    fn entries(&self) -> Vec<(String, String)> {
        let keys = self.keys();
        keys.into_iter().map(|key| (key.clone(), self.get(&key).unwrap())).collect()
    }
}

#[test]
fn test_put_retrieves_correct_data() {
    let mut db = Db::open(Dir::new());

    let key1 = "kenechukwu";
    let val1 = "ifediora";
    db.put(key1, val1);

    let retrieved = db.get(key1);

    assert_eq!(retrieved.as_deref(), Some(val1));
}

#[test]
fn test_delete_removes_key() {
    let mut db = Db::open(Dir::new());

    let key = "Shinske";
    let val = "Nakamura";

    db.put(key, val);
    assert_eq!(db.get(key).as_deref(), Some(val));

    db.delete(key);

    let retrieved = db.get(key);
    assert_eq!(retrieved, None);
}

#[test]
fn test_recovery_reloads_data_after_restart() {
    let key = "ghost";
    let val = "tsushima";

    let mut db = Db::open(Dir::new());
    db.put(key, val);
    let dir = db.dir;

    let db2 = Db::open(dir);

    let retrieved = db2.get(key);
    assert_eq!(retrieved.as_deref(), Some(val));
}

#[test]
fn test_merge_compacts_data_files() {
    let key = "A";
    let val1 = "foo";
    let val2 = "bar";
    let val3 = "baz";

    let mut db = Db::open(Dir::new());

    db.put(key, val1);
    db.put(key, val2);
    db.put(key, val3);

    db.merge();

    let retrieved = db.get(key);
    assert_eq!(retrieved.as_deref(), Some(val3));

    let mut rn_count = 0;
    for name in db.dir.names() {
        if name.ends_with(".rn") {
            rn_count += 1;
        }
    }

    assert_eq!(rn_count, 1, "Merge should leave exactly 1 .rn file");
}

#[test]
fn test_merge_put_instance() {
    let mut db = Db::open(Dir::new());
    let mut idx = 0;
    let key = "always_ronin";

    while idx < 100 {
        let format = format!("Data-{}", idx);
        let val = format.as_str();

        db.put(key, val);
        idx += 1;
    }

    let last_val = db.get(key);
    assert_eq!(last_val.as_deref(), Some("Data-99"));
}

#[test]
fn reads_between_writes_do_not_move_the_next_record() {
    let mut db = Db::open(Dir::new());
    db.put("first", "one");
    db.put("second", "two");
    assert_eq!(db.get("first").as_deref(), Some("one"));
    db.put("third", "three");
    assert_eq!(db.get("third").as_deref(), Some("three"));
    assert_eq!(db.get("second").as_deref(), Some("two"));
}

#[test]
fn writes_after_a_restart_go_behind_what_is_there() {
    let mut db = Db::open(Dir::new());
    db.put("a", "before");
    let mut db = Db::open(db.dir);
    db.put("b", "after");
    assert_eq!(db.get("a").as_deref(), Some("before"));
    assert_eq!(db.get("b").as_deref(), Some("after"));
    let db = Db::open(db.dir);
    assert_eq!(db.get("a").as_deref(), Some("before"));
    assert_eq!(db.get("b").as_deref(), Some("after"));
}

#[test]
fn a_deletion_survives_a_restart() {
    let mut db = Db::open(Dir::new());
    db.put("kept", "yes");
    db.put("dropped", "no");
    db.delete("dropped");
    db.delete("never there");
    assert_eq!(db.keys(), vec!["kept".to_string()]);
    let db = Db::open(db.dir);
    assert_eq!(db.get("dropped"), None);
    assert_eq!(db.get("never there"), None);
    assert_eq!(db.get("kept").as_deref(), Some("yes"));
    assert_eq!(db.keys(), vec!["kept".to_string()]);
}

#[test]
fn a_deletion_appends_a_record_with_an_empty_value() {
    let mut store = Ronin::new(&vec![], 0).unwrap();
    let append = store.delete("k", 5).unwrap();
    assert_eq!(append.file_id, 0);
    assert_eq!(append.bytes.len(), 29);
    assert_eq!(append.bytes[20..28], [0, 0, 0, 0, 0, 0, 0, 0]);
    assert_eq!(append.bytes[28], b'k');
    assert_eq!(store.get("k"), Ok(None));
}

#[test]
fn an_empty_value_reads_back_until_the_store_is_closed() {
    let mut db = Db::open(Dir::new());
    db.put("k", "");
    assert_eq!(db.get("k").as_deref(), Some(""));
    let db = Db::open(db.dir);
    assert_eq!(db.get("k"), None);
}

#[test]
fn a_value_is_found_behind_its_header_and_key() {
    let mut store = Ronin::new(&vec![], 0).unwrap();
    store.put("user", "ronin-rs", 1).unwrap();
    assert_eq!(store.get("user"), Ok(Some(ReadAt { file_id: 0, offset: 32, len: 8 })));
    store.put("é", "ß", 2).unwrap();
    assert_eq!(store.get("é"), Ok(Some(ReadAt { file_id: 0, offset: 40 + 28 + 2, len: 2 })));
    assert_eq!(store.get("ronin"), Ok(None));
}

#[test]
fn an_appended_record_has_the_documented_layout() {
    let mut store = Ronin::new(&vec![], 0).unwrap();
    let append = store.write("user", "ronin-rs", 1_700_000_000).unwrap();
    let mut expected: Vec<u8> = vec![34, 113, 134, 170];
    expected.extend_from_slice(&[0, 241, 83, 101, 0, 0, 0, 0]);
    expected.extend_from_slice(&[4, 0, 0, 0, 0, 0, 0, 0]);
    expected.extend_from_slice(&[8, 0, 0, 0, 0, 0, 0, 0]);
    expected.extend_from_slice(b"userronin-rs");
    assert_eq!(append.bytes, expected);
    assert!(!append.rotated);
}

#[test]
fn a_full_file_is_replaced() {
    let files = vec![FileImage { file_id: 3, hint: None, log: Some(vec![]) }];
    let mut store = Ronin::new(&files, MAX_FILE_SIZE).unwrap();
    assert_eq!(MAX_FILE_SIZE, 2_147_483_648);
    assert!(store.reach_file_threshold());
    let append = store.put("k", "v", 1).unwrap();
    assert!(append.rotated);
    assert_eq!(append.file_id, 4);
    assert_eq!(store.active_file_id(), 4);
    assert!(!store.reach_file_threshold());
    assert_eq!(store.get("k"), Ok(Some(ReadAt { file_id: 4, offset: 29, len: 1 })));
}

#[test]
fn a_file_one_byte_short_of_full_takes_another_record() {
    let files = vec![FileImage { file_id: 3, hint: None, log: Some(vec![]) }];
    let mut store = Ronin::new(&files, MAX_FILE_SIZE - 1).unwrap();
    assert!(!store.reach_file_threshold());
    let append = store.put("k", "v", 1).unwrap();
    assert!(!append.rotated);
    assert_eq!(append.file_id, 3);
    assert_eq!(
        store.get("k"),
        Ok(Some(ReadAt { file_id: 3, offset: MAX_FILE_SIZE - 1 + 29, len: 1 }))
    );
    assert!(store.reach_file_threshold());
}

#[test]
fn values_in_older_files_are_found() {
    let mut db = Db::open(Dir::new());
    db.put("old", "stays");
    db.put("both", "first");
    db.dir.append(data_file_name(1), &[]);
    let mut db = Db::open(db.dir);
    assert_eq!(db.store.active_file_id(), 1);
    db.put("both", "second");
    assert_eq!(db.get("old").as_deref(), Some("stays"));
    assert_eq!(db.get("both").as_deref(), Some("second"));
    let db = Db::open(db.dir);
    assert_eq!(db.get("old").as_deref(), Some("stays"));
    assert_eq!(db.get("both").as_deref(), Some("second"));
}

#[test]
fn no_id_is_left_for_another_file() {
    let files = vec![FileImage { file_id: u32::MAX, hint: None, log: Some(vec![]) }];
    let mut store = Ronin::new(&files, MAX_FILE_SIZE).unwrap();
    assert_eq!(store.put("k", "v", 1).err(), Some(WriteError::FileIdsExhausted));
    assert_eq!(store.delete("k", 1).err(), Some(WriteError::FileIdsExhausted));
    assert_eq!(store.get("k"), Ok(None));
    assert_eq!(store.merge(1).err(), Some(MergeError::FileIdsExhausted));
}

#[test]
fn opening_another_directory_leaves_the_store_alone() {
    let mut db = Db::open(Dir::new());
    db.put("here", "1");
    let mut other = Db::open(Dir::new());
    other.put("there", "2");
    let len = other.dir.files[&data_file_name(0)].len() as u64;
    let opened = db.store.open(&other.dir.images(), len).unwrap();
    assert_eq!(opened.list_keys(), vec!["there".to_string()]);
    assert_eq!(db.store.list_keys(), vec!["here".to_string()]);
}

fn hint(timestamp: u64, key: &[u8], value_sz: u64, pos: u64) -> Vec<u8> {
    let mut bytes = Vec::new();
    bytes.extend_from_slice(&timestamp.to_le_bytes());
    bytes.extend_from_slice(&(key.len() as u64).to_le_bytes());
    bytes.extend_from_slice(&value_sz.to_le_bytes());
    bytes.extend_from_slice(&pos.to_le_bytes());
    bytes.extend_from_slice(key);
    bytes
}

fn header(key_sz: u64, value_sz: u64) -> Vec<u8> {
    let mut bytes = vec![0; 4];
    bytes.extend_from_slice(&7u64.to_le_bytes());
    bytes.extend_from_slice(&key_sz.to_le_bytes());
    bytes.extend_from_slice(&value_sz.to_le_bytes());
    bytes
}

fn load(hint: Option<Vec<u8>>, log: Option<Vec<u8>>) -> Result<Ronin, LoadError> {
    Ronin::new(&vec![FileImage { file_id: 2, hint, log }], 0)
}

#[test]
fn a_hint_file_is_preferred_to_its_data_file() {
    let mut log = header(1, 1);
    log.extend_from_slice(b"ab");
    let mut hints = hint(9, b"x", 5, 100);
    hints.extend(hint(9, b"y", 6, 200));
    hints.extend(hint(9, b"x", 0, 300));
    let store = load(Some(hints), Some(log.clone())).unwrap();
    assert_eq!(store.list_keys(), vec!["y".to_string()]);
    assert_eq!(store.get("y"), Ok(Some(ReadAt { file_id: 2, offset: 229, len: 6 })));
    let store = load(None, Some(log)).unwrap();
    assert_eq!(store.get("a"), Ok(Some(ReadAt { file_id: 2, offset: 29, len: 1 })));
    let store = load(None, None).unwrap();
    assert_eq!(store.list_keys().len(), 0);
    assert_eq!(store.active_file_id(), 2);
}

#[test]
fn a_torn_header_is_ignored() {
    let mut db = Db::open(Dir::new());
    db.put("k", "v");
    let whole = db.dir.clone();
    db.put("torn", "record");
    let name = data_file_name(0);
    let len = whole.files[&name].len();
    for kept in 0..28 {
        let mut dir = db.dir.clone();
        dir.files.get_mut(&name).unwrap().truncate(len + kept);
        let db = Db::open(dir);
        assert_eq!(db.keys(), vec!["k".to_string()]);
        assert_eq!(db.get("k").as_deref(), Some("v"));
    }
    let mut hints = hint(9, b"y", 6, 200);
    hints.extend_from_slice(&[1; 31]);
    assert_eq!(load(Some(hints), None).unwrap().list_keys(), vec!["y".to_string()]);
}

#[test]
fn a_torn_header_in_an_older_file_is_ignored() {
    let mut db = Db::open(Dir::new());
    db.put("k", "v");
    db.dir.append(data_file_name(0), &[1; 27]);
    db.dir.append(data_file_name(1), &[]);
    let mut db = Db::open(db.dir);
    db.put("later", "value");
    let db = Db::open(db.dir);
    assert_eq!(db.keys(), vec!["k".to_string(), "later".to_string()]);
    assert_eq!(db.get("k").as_deref(), Some("v"));
    assert_eq!(db.get("later").as_deref(), Some("value"));
}

#[test]
fn a_torn_key_is_an_error() {
    let mut log = header(3, 0);
    log.extend_from_slice(b"ab");
    assert_eq!(load(None, Some(log)).err(), Some(LoadError::TruncatedKey));
    let log = header(u64::MAX, 0);
    assert_eq!(load(None, Some(log)).err(), Some(LoadError::TruncatedKey));
    let mut hints = hint(9, b"abc", 6, 200);
    hints.pop();
    assert_eq!(load(Some(hints), None).err(), Some(LoadError::TruncatedKey));
}

#[test]
fn a_torn_value_is_still_listed() {
    let mut log = header(1, 10);
    log.extend_from_slice(b"kabc");
    let store = load(None, Some(log)).unwrap();
    assert_eq!(store.get("k"), Ok(Some(ReadAt { file_id: 2, offset: 29, len: 10 })));
}

#[test]
fn a_key_that_is_not_text_is_an_error() {
    let mut log = header(1, 0);
    log.push(0xff);
    assert_eq!(load(None, Some(log)).err(), Some(LoadError::KeyNotUtf8));
    assert_eq!(load(Some(hint(9, &[0xc3], 6, 200)), None).err(), Some(LoadError::KeyNotUtf8));
}

#[test]
fn a_value_that_no_file_can_hold_is_an_error() {
    let mut log = header(1, i64::MAX as u64 - 28);
    log.push(b'k');
    assert_eq!(load(None, Some(log)).err(), Some(LoadError::ValueOutOfRange));
    let mut log = header(1, i64::MAX as u64 - 29);
    log.push(b'k');
    assert!(load(None, Some(log)).is_ok());
}

#[test]
fn a_value_size_that_is_negative_leads_backwards() {
    let mut log = header(1, u64::MAX);
    log.push(b'k');
    assert_eq!(log.len(), 29);
    let store = load(None, Some(log)).unwrap();
    assert_eq!(store.list_keys(), vec!["k".to_string()]);
    let at = ReadAt { file_id: 2, offset: 29, len: u64::MAX };
    assert_eq!(store.get("k"), Ok(Some(at)));

    let mut log = header(1, 0u64.wrapping_sub(30));
    log.push(b'k');
    assert_eq!(load(None, Some(log)).err(), Some(LoadError::ValueOutOfRange));
}

#[test]
fn a_record_may_lie_within_the_key_before_it() {
    let inner = header(0, 3);
    let mut log = header(28, 0u64.wrapping_sub(28));
    log.extend_from_slice(&inner);
    let store = load(None, Some(log)).unwrap();
    let mut keys = store.list_keys();
    keys.sort();
    assert_eq!(keys, vec!["".to_string(), String::from_utf8(inner).unwrap()]);
    assert_eq!(store.get(""), Ok(Some(ReadAt { file_id: 2, offset: 56, len: 3 })));
}

#[test]
fn a_scan_in_a_circle_is_given_up() {
    let mut log = header(1, 0u64.wrapping_sub(29));
    log.push(b'k');
    assert_eq!(load(None, Some(log)).err(), Some(LoadError::EndlessScan));

    let mut log = header(1, 1);
    log.extend_from_slice(b"kv");
    log.extend(header(2, 0u64.wrapping_sub(30)));
    log.extend_from_slice(b"xy");
    assert_eq!(load(None, Some(log)).err(), Some(LoadError::EndlessScan));

    let mut log = header(1, 1);
    log.extend_from_slice(b"kv");
    log.extend(header(2, 0u64.wrapping_sub(60)));
    log.extend_from_slice(b"xy");
    assert_eq!(load(None, Some(log)).err(), Some(LoadError::EndlessScan));

    let mut log = header(1, 1);
    log.extend_from_slice(b"kv");
    log.extend(header(2, 0u64.wrapping_sub(61)));
    log.extend_from_slice(b"xy");
    assert_eq!(load(None, Some(log)).err(), Some(LoadError::ValueOutOfRange));
}

#[test]
fn an_offset_that_does_not_fit_is_an_error() {
    let store = load(Some(hint(9, b"k", 1, u64::MAX - 28)), None).unwrap();
    assert_eq!(store.get("k"), Err(OffsetOverflow));
    assert_eq!(store.get("other"), Ok(None));
    assert_eq!(store.merge(1).err(), Some(MergeError::OffsetOverflow));
    let store = load(Some(hint(9, b"k", 1, u64::MAX - 29)), None).unwrap();
    assert_eq!(store.get("k"), Ok(Some(ReadAt { file_id: 2, offset: u64::MAX, len: 1 })));
}

#[test]
fn a_merge_keeps_every_live_value() {
    let mut db = Db::open(Dir::new());
    for i in 0..20 {
        db.put(&format!("key-{}", i), &format!("stale-{}", i));
    }
    for i in 0..20 {
        db.put(&format!("key-{}", i), &format!("value-{}", i));
    }
    for i in 0..5 {
        db.delete(&format!("key-{}", i));
    }
    let before = db.keys();
    db.merge();
    assert_eq!(db.keys(), before);
    assert_eq!(db.keys().len(), 15);
    for i in 5..20 {
        assert_eq!(db.get(&format!("key-{}", i)), Some(format!("value-{}", i)));
    }
    assert_eq!(db.dir.names(), vec![hint_file_name(1), data_file_name(1)]);
    let db = Db::open(db.dir);
    assert_eq!(db.keys(), before);
    for i in 5..20 {
        assert_eq!(db.get(&format!("key-{}", i)), Some(format!("value-{}", i)));
    }
}

#[test]
fn a_merge_can_be_loaded_from_either_new_file() {
    let mut db = Db::open(Dir::new());
    db.put("a", "1");
    db.put("b", "22");
    db.merge();
    let by_hints = Db::open(db.dir.clone());
    db.dir.files.remove(&hint_file_name(1));
    let by_log = Db::open(db.dir);
    assert_eq!(by_hints.keys(), by_log.keys());
    assert_eq!(by_hints.store.get("a"), by_log.store.get("a"));
    assert_eq!(by_hints.store.get("b"), by_log.store.get("b"));
}

#[test]
fn an_interrupted_merge_loses_nothing() {
    let mut db = Db::open(Dir::new());
    for i in 0..4 {
        db.put(&format!("key-{}", i), &format!("value-{}", i));
    }
    let mut merge = db.store.merge(9).unwrap();
    for _ in 0..2 {
        let at = merge.next_read().unwrap();
        let copied = merge.copy(&db.dir.read(at)).unwrap();
        db.dir.append(hint_file_name(1), &copied.hint);
        db.dir.append(data_file_name(1), &copied.record);
    }
    let db = Db::open(db.dir);
    assert_eq!(db.store.active_file_id(), 1);
    assert_eq!(db.keys().len(), 4);
    for i in 0..4 {
        assert_eq!(db.get(&format!("key-{}", i)), Some(format!("value-{}", i)));
    }
}

#[test]
fn a_file_that_is_listed_twice_is_loaded_once() {
    let mut db = Db::open(Dir::new());
    db.put("a", "1");
    db.put("b", "2");
    db.delete("a");
    db.dir.append("bitcask-00.rn".to_string(), b"anything");
    assert_eq!(data_file_ids(&db.dir.names()), vec![0, 0]);
    let db = Db::open(db.dir);
    assert_eq!(db.keys(), vec!["b".to_string()]);
    assert_eq!(db.get("b").as_deref(), Some("2"));
}

#[test]
fn writes_behind_a_hint_file_are_not_loaded() {
    let mut db = Db::open(Dir::new());
    db.put("a", "1");
    db.merge();
    db.put("a", "2");
    let db = Db::open(db.dir);
    assert_eq!(db.get("a").as_deref(), Some("1"));
}

#[test]
fn a_second_merge_saves_what_stands_behind_a_hint_file() {
    let mut db = Db::open(Dir::new());
    db.put("a", "1");
    db.put("b", "1");
    db.merge();
    db.put("a", "2");
    db.delete("b");
    let unmerged = Db::open(db.dir.clone());
    assert_eq!(unmerged.keys(), vec!["a".to_string(), "b".to_string()]);
    assert_eq!(unmerged.get("a").as_deref(), Some("1"));
    db.merge();
    let merged = Db::open(db.dir);
    assert_eq!(merged.keys(), vec!["a".to_string()]);
    assert_eq!(merged.get("a").as_deref(), Some("2"));
}

#[test]
fn a_put_is_read_back_through_merges_and_restarts() {
    let mut db = Db::open(Dir::new());
    db.put("kept", "größer");
    for round in 0..3 {
        for i in 0..4 {
            db.put(&format!("other-{}", i), &format!("{}-{}", round, i));
        }
        db.delete("other-1");
        assert_eq!(db.get("kept").as_deref(), Some("größer"));
        db.merge();
        assert_eq!(db.get("kept").as_deref(), Some("größer"));
        db = Db::open(db.dir);
        assert_eq!(db.get("kept").as_deref(), Some("größer"));
        assert_eq!(db.store.get("kept").unwrap().unwrap().len, 8);
    }
    assert_eq!(db.keys(), vec!["kept", "other-0", "other-2", "other-3"]);
    assert_eq!(db.get("other-3").as_deref(), Some("2-3"));
}

#[test]
fn a_merged_empty_value_is_gone_after_a_restart() {
    let mut db = Db::open(Dir::new());
    db.put("empty", "");
    db.put("full", "x");
    db.merge();
    assert_eq!(db.keys(), vec!["empty".to_string(), "full".to_string()]);
    assert_eq!(db.get("empty").as_deref(), Some(""));
    let db = Db::open(db.dir);
    assert_eq!(db.keys(), vec!["full".to_string()]);
    assert_eq!(db.get("full").as_deref(), Some("x"));
}

#[test]
fn a_put_and_a_deletion_cancel_out() {
    let mut db = Db::open(Dir::new());
    db.put("a", "1");
    db.put("b", "2");
    let before = vec![("a".to_string(), "1".to_string()), ("b".to_string(), "2".to_string())];
    assert_eq!(db.entries(), before);
    db.put("k", "v");
    db.delete("k");
    assert_eq!(db.entries(), before);
    assert_eq!(Db::open(db.dir.clone()).entries(), before);
    db.delete("k");
    assert_eq!(db.entries(), before);
    assert_eq!(Db::open(db.dir.clone()).entries(), before);
    db.merge();
    assert_eq!(db.entries(), before);
    assert_eq!(Db::open(db.dir.clone()).entries(), before);
    db.put("k", "v");
    db.delete("k");
    assert_eq!(db.entries(), before);
    assert_eq!(Db::open(db.dir).entries(), before);
}

#[test]
fn a_new_active_file_leaves_every_value_in_place() {
    let mut db = Db::open(Dir::new());
    db.put("a", "1");
    db.put("b", "22");
    db.store = Ronin::new(&db.dir.images(), MAX_FILE_SIZE).unwrap();
    let (a, b) = (db.store.get("a"), db.store.get("b"));
    let older = db.dir.files[&data_file_name(0)].clone();
    db.delete("unknown");
    assert_eq!(db.store.active_file_id(), 1);
    assert_eq!(db.keys(), vec!["a".to_string(), "b".to_string()]);
    assert_eq!((db.store.get("a"), db.store.get("b")), (a, b));
    assert_eq!(db.get("b").as_deref(), Some("22"));
    assert_eq!(db.dir.files[&data_file_name(0)], older);
}

#[test]
fn every_entry_points_at_a_record_of_its_key() {
    let mut db = Db::open(Dir::new());
    db.put("a", "1");
    db.put("bb", "22");
    db.put("a", "333");
    for _ in 0..2 {
        for (key, value) in db.entries() {
            let at = db.store.get(&key).unwrap().unwrap();
            let len = 28 + key.len() as u64 + at.len;
            let start = at.offset - 28 - key.len() as u64;
            let record = db.dir.read(ReadAt { file_id: at.file_id, offset: start, len });
            let sum = crc32fast::hash(&record[4..]);
            assert_eq!(record[..4], sum.to_le_bytes());
            assert_eq!(record[12..20], (key.len() as u64).to_le_bytes());
            assert_eq!(record[20..28], (value.len() as u64).to_le_bytes());
            assert_eq!(record[28..], format!("{}{}", key, value).into_bytes());
        }
        db.merge();
    }
}

#[test]
fn a_write_during_a_merge_is_forgotten() {
    let mut db = Db::open(Dir::new());
    db.put("a", "1");
    let mut merge = db.store.merge(9).unwrap();
    db.put("b", "2");
    let copied = merge.copy(&db.dir.read(merge.next_read().unwrap())).unwrap();
    db.dir.append(data_file_name(1), &copied.record);
    db.store.finish_merge(merge).unwrap();
    assert_eq!(db.keys(), vec!["a".to_string()]);
    assert_eq!(db.get("a").as_deref(), Some("1"));
}

#[test]
fn a_write_after_a_merge_goes_behind_the_merged_records() {
    let mut db = Db::open(Dir::new());
    db.put("a", "1");
    db.merge();
    db.put("a", "2");
    db.put("b", "3");
    assert_eq!(db.get("a").as_deref(), Some("2"));
    assert_eq!(db.get("b").as_deref(), Some("3"));
    assert_eq!(db.store.active_file_id(), 1);
}

#[test]
fn a_merge_lays_out_records_and_hints() {
    let mut store = Ronin::new(&vec![], 0).unwrap();
    store.put("user", "ronin-rs", 1).unwrap();
    let mut merge = store.merge(1_700_000_000).unwrap();
    assert_eq!(merge.file_id(), 1);
    assert_eq!(merge.next_read(), Some(ReadAt { file_id: 0, offset: 32, len: 8 }));
    let copied = merge.copy(b"ronin-rs").unwrap();
    assert_eq!(copied.record[0..4], [34, 113, 134, 170]);
    assert_eq!(copied.record.len(), 40);
    assert_eq!(copied.hint, hint(1_700_000_000, b"user", 8, 0));
    assert_eq!(merge.next_read(), None);
    assert_eq!(merge.copy(b"more").err(), Some(MergeError::NothingPending));
    store.finish_merge(merge).unwrap();
    assert_eq!(store.active_file_id(), 1);
    assert_eq!(store.get("user"), Ok(Some(ReadAt { file_id: 1, offset: 32, len: 8 })));
}

#[test]
fn an_unfinished_merge_changes_nothing() {
    let mut store = Ronin::new(&vec![], 0).unwrap();
    store.put("user", "ronin-rs", 1).unwrap();
    let merge = store.merge(2).unwrap();
    assert_eq!(store.finish_merge(merge), Err(MergeError::StillPending));
    assert_eq!(store.active_file_id(), 0);
    assert_eq!(store.get("user"), Ok(Some(ReadAt { file_id: 0, offset: 32, len: 8 })));
}

#[test]
fn every_data_file_only_grows() {
    let mut db = Db::open(Dir::new());
    let mut before = Vec::new();
    for i in 0..10 {
        db.put(&format!("k{}", i % 3), &format!("v{}", i));
        let log = db.dir.files[&data_file_name(0)].clone();
        assert!(log.len() > before.len());
        assert_eq!(log[..before.len()], before[..]);
        before = log;
    }
}

#[test]
fn stored_bytes_are_text_or_rejected() {
    assert_eq!(value_from_bytes("größer".as_bytes().to_vec()).as_deref(), Some("größer"));
    assert_eq!(value_from_bytes(vec![]).as_deref(), Some(""));
    assert_eq!(value_from_bytes(vec![0xff]), None);
}
