# ronin-rs

An embedded, log-structured key-value store in the manner of Bitcask, with its
logic verified by Verus.

Writes append a record to the active data file; an in-memory directory says for
every key where its latest record lies, so that a read is one seek. A data file
that has reached 2 GiB is replaced by a new one. A merge copies the live values
into a new data file, with a hint file from which the directory is rebuilt
faster.

## Files

Data files are named `bitcask-<id>.rn`, hint files `bitcask-<id>.hint`. All
numbers are little-endian.

| Record | CRC-32 (4) | timestamp (8) | key size (8) | value size (8) | key | value |
| ------ | ---------- | ------------- | ------------ | -------------- | --- | ----- |

| Hint | timestamp (8) | key size (8) | value size (8) | record position (8) | key |
| ---- | ------------- | ------------ | -------------- | ------------------- | --- |

A deletion is a record with an empty value. A store that is opened again takes an
empty value for a deletion, and where a data file has a hint file it loads the
hint file alone. The active file after a merge has one: until it has reached 2 GiB,
what is written into it is read back as long as the store is open, but is not
loaded when the store is opened again, unless it was merged before.

## Layout

- `src/` decides, and is verified. `store` holds `Ronin`: each operation says
  which bytes to append or to read. `merge` is the merge, step by step;
  `recovery` rebuilds the key directory from file contents; `record`, `names`,
  `le` and `text` are the formats; `key_dir` is the key directory; `checksum`
  calls `crc32fast`. `model` says what a directory of files holds, `timeline` what
  happens to it through changes, new files, merges and restarts, and `laws`,
  `merge_laws`, `timeline_laws` and `names` prove what the operations do to it.
- `app/` carries the decisions out on the file system.
- `tests/` runs the library on a directory that is kept in memory.
