//! File names, record layout and the key directory.

use ronin_rs::le::read_u64;
use ronin_rs::record::{encode_body, encode_hint, encode_record, seal};
use ronin_rs::recovery::rebuild;
use ronin_rs::{
    data_file_id, data_file_ids, data_file_name, hint_file_name, is_superseded, FileImage, KeyDir,
    KeyDirEntry,
};

fn names(names: &[&str]) -> Vec<String> {
    names.iter().map(|n| n.to_string()).collect()
}

#[test]
fn file_names_are_decimal() {
    assert_eq!(data_file_name(0), "bitcask-0.rn");
    assert_eq!(data_file_name(1), "bitcask-1.rn");
    assert_eq!(data_file_name(1020304056), "bitcask-1020304056.rn");
    assert_eq!(data_file_name(789), "bitcask-789.rn");
    assert_eq!(data_file_name(u32::MAX), "bitcask-4294967295.rn");
    assert_eq!(hint_file_name(0), "bitcask-0.hint");
    assert_eq!(hint_file_name(42), "bitcask-42.hint");
}

#[test]
fn data_file_names_are_recognised() {
    for id in [0, 7, 10, 99, 100, 4294967295] {
        assert_eq!(data_file_id(&data_file_name(id)), Some(id));
        assert_eq!(data_file_id(&hint_file_name(id)), None);
    }
    assert_eq!(data_file_id("bitcask-007.rn"), Some(7));
    assert_eq!(data_file_id("bitcask-00000000000000000000000007.rn"), Some(7));
    assert_eq!(data_file_id("bitcask-+5.rn"), Some(5));
}

#[test]
fn other_file_names_are_not_data_files() {
    for name in [
        "",
        ".rn",
        "bitcask-",
        "bitcask-.rn",
        "bitcask-+.rn",
        "bitcask-++1.rn",
        "bitcask--1.rn",
        "bitcask-1x.rn",
        "bitcask-x1.rn",
        "bitcask- 1.rn",
        "bitcask-4294967296.rn",
        "bitcask-99999999999999999999999.rn",
        "bitcask-1.rn2",
        "bitcask-1.RN",
        "Bitcask-1.rn",
        "xbitcask-1.rn",
        "bitcask-1.hint",
        "bitcask-\u{661}.rn",
        "1700000000_1.rn",
    ] {
        assert_eq!(data_file_id(name), None, "{}", name);
    }
}

#[test]
fn data_files_are_loaded_in_ascending_order() {
    let listed = names(&[
        "bitcask-10.rn",
        "notes.txt",
        "bitcask-2.rn",
        "bitcask-3.hint",
        "bitcask-1.rn",
        "bitcask-02.rn",
    ]);
    assert_eq!(data_file_ids(&listed), vec![1, 2, 2, 10]);
    assert_eq!(data_file_ids(&names(&["notes.txt", "bitcask-3.hint"])), vec![0]);
    assert_eq!(data_file_ids(&names(&[])), vec![0]);
}

#[test]
fn a_merge_supersedes_data_files_with_lower_ids() {
    assert!(is_superseded("bitcask-0.rn", 2));
    assert!(is_superseded("bitcask-1.rn", 2));
    assert!(!is_superseded("bitcask-2.rn", 2));
    assert!(!is_superseded("bitcask-3.rn", 2));
    assert!(!is_superseded("bitcask-1.hint", 2));
    assert!(!is_superseded("other.rn", 2));
}

#[test]
fn a_record_bears_the_checksum_of_its_body() {
    let body = encode_body(0, b"", b"");
    assert_eq!(body, vec![0; 24]);
    let record = encode_record(0, b"", b"");
    assert_eq!(record[0..4], [32, 202, 193, 163]);
    assert_eq!(record[4..], body[..]);
    assert_eq!(seal(0x01020304, b"xy"), vec![4, 3, 2, 1, b'x', b'y']);
}

#[test]
fn a_record_can_be_taken_apart() {
    let record = encode_record(0x0102030405060708, b"key", b"value");
    assert_eq!(record.len(), 36);
    assert_eq!(read_u64(&record, 4), 0x0102030405060708);
    assert_eq!(read_u64(&record, 12), 3);
    assert_eq!(read_u64(&record, 20), 5);
    assert_eq!(&record[28..31], b"key");
    assert_eq!(&record[31..36], b"value");
    assert_eq!(read_u64(&[255; 8], 0), u64::MAX);
}

#[test]
fn a_hint_has_the_documented_layout() {
    let hint = encode_hint(1, b"A", 300, 2);
    let mut expected: Vec<u8> = vec![1, 0, 0, 0, 0, 0, 0, 0];
    expected.extend_from_slice(&[1, 0, 0, 0, 0, 0, 0, 0]);
    expected.extend_from_slice(&[44, 1, 0, 0, 0, 0, 0, 0]);
    expected.extend_from_slice(&[2, 0, 0, 0, 0, 0, 0, 0]);
    expected.push(b'A');
    assert_eq!(hint, expected);
}

fn entry(value_pos: u64) -> KeyDirEntry {
    KeyDirEntry { file_id: 1, value_sz: 2, value_pos, timestamp: 3 }
}

#[test]
fn the_key_directory_is_a_map() {
    let mut dir = KeyDir::new();
    assert_eq!(dir.get("a"), None);
    for i in 0..50 {
        dir.insert(&format!("k{}", i), entry(i));
    }
    dir.insert("k7", entry(700));
    for i in (0..50).step_by(2) {
        dir.remove(&format!("k{}", i));
    }
    dir.remove("k0");
    dir.remove("absent");
    for i in 0..50 {
        let expected = if i % 2 == 0 {
            None
        } else if i == 7 {
            Some(entry(700))
        } else {
            Some(entry(i))
        };
        assert_eq!(dir.get(&format!("k{}", i)), expected);
    }
    let mut keys = dir.keys();
    keys.sort();
    let mut expected: Vec<String> = (0..25).map(|i| format!("k{}", 2 * i + 1)).collect();
    expected.sort();
    assert_eq!(keys, expected);
}

#[test]
fn later_records_replace_earlier_ones() {
    let mut log = encode_record(1, b"k", b"one");
    log.extend(encode_record(2, b"gone", b"x"));
    log.extend(encode_record(3, b"k", b"three"));
    log.extend(encode_record(4, b"gone", b""));
    let files = vec![FileImage { file_id: 6, hint: None, log: Some(log) }];
    let dir = rebuild(&files).unwrap();
    assert_eq!(dir.keys(), vec!["k".to_string()]);
    assert_eq!(
        dir.get("k"),
        Some(KeyDirEntry { file_id: 6, value_sz: 5, value_pos: 32 + 33, timestamp: 3 })
    );
}
