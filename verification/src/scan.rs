//! How scanning a file relates to scanning a longer one.

use crate::key_dir::KeyDirEntry;
use crate::record::{
    field, hint_bytes, lemma_hint_fields, lemma_record_fields, lemma_record_parts, record_bytes,
    record_len, HEADER_LEN, HINT_HEADER_LEN,
};
use crate::recovery::{
    rebuilt, replay_hints, replay_log, replay_records, stride, updated, FileView, LoadError,
};
use vstd::prelude::*;
use vstd::utf8::{decode_utf8, encode_utf8, valid_utf8};

verus! {

/// The records of a data file from position `pos` on end where the file ends.
pub open spec fn whole_log(log: Seq<u8>, pos: nat) -> bool
    decreases log.len() - pos,
{
    if pos == log.len() {
        true
    } else if log.len() < pos + HEADER_LEN {
        false
    } else {
        let end = pos + record_len(field(log, pos + 12int), field(log, pos + 20int));
        end <= log.len() && end <= i64::MAX && whole_log(log, end)
    }
}

/// The number of records in a whole data file from position `pos` on.
pub open spec fn record_count(log: Seq<u8>, pos: nat) -> nat
    decreases log.len() - pos,
{
    let end = pos + record_len(field(log, pos + 12int), field(log, pos + 20int));
    if log.len() < pos + HEADER_LEN || log.len() < end {
        0
    } else {
        1 + record_count(log, end)
    }
}

/// Where the record with number `n` of a data file starts, the first being
/// number 0, each found from the sizes that the one before it bears.
pub open spec fn record_pos(log: Seq<u8>, n: nat) -> int
    decreases n,
{
    if n == 0 {
        0
    } else {
        let pos = record_pos(log, (n - 1) as nat);
        pos + HEADER_LEN + field(log, pos + 12) + stride(field(log, pos + 20))
    }
}

/// The header of the record with number `n` lies in the data file.
pub open spec fn has_record(log: Seq<u8>, n: nat) -> bool {
    0 <= record_pos(log, n) && record_pos(log, n) + HEADER_LEN <= log.len()
}

/// The hints of a hint file from position `at` on end where the file ends.
pub open spec fn whole_hints(hints: Seq<u8>, at: nat) -> bool
    decreases hints.len() - at,
{
    if at == hints.len() {
        true
    } else if hints.len() < at + HINT_HEADER_LEN {
        false
    } else {
        let end = at + HINT_HEADER_LEN as nat + field(hints, at + 8int);
        end <= hints.len() && whole_hints(hints, end)
    }
}

/// Fields that lie in a file are the same in a longer file.
proof fn lemma_field_of_longer(s: Seq<u8>, more: Seq<u8>, at: int)
    requires
        0 <= at,
        at + 8 <= s.len(),
    ensures
        field(s + more, at) == field(s, at),
{
    assert((s + more).subrange(at, at + 8) =~= s.subrange(at, at + 8));
}

/// A whole data file has fewer records than bytes.
proof fn lemma_record_count(log: Seq<u8>, pos: nat)
    requires
        whole_log(log, pos),
        pos <= log.len(),
    ensures
        record_count(log, pos) <= log.len() - pos,
    decreases log.len() - pos,
{
    if pos < log.len() {
        let end = pos + record_len(field(log, pos + 12int), field(log, pos + 20int));
        lemma_record_count(log, end);
    }
}

/// Bytes behind a whole data file are scanned as if they stood alone.
pub proof fn lemma_replay_records_longer(
    log: Seq<u8>,
    more: Seq<u8>,
    file_id: u32,
    pos: nat,
    dir: Map<Seq<char>, KeyDirEntry>,
    steps: nat,
    more_steps: nat,
)
    requires
        whole_log(log, pos),
        pos <= log.len(),
        steps >= record_count(log, pos),
        more_steps >= record_count(log, pos),
    ensures
        replay_records(log + more, file_id, pos, dir, more_steps) == (match replay_records(
            log,
            file_id,
            pos,
            dir,
            steps,
        ) {
            Ok(d) => replay_records(
                log + more,
                file_id,
                log.len(),
                d,
                (more_steps - record_count(log, pos)) as nat,
            ),
            Err(e) => Err(e),
        }),
    decreases log.len() - pos,
{
    if pos < log.len() {
        lemma_field_of_longer(log, more, pos + 4int);
        lemma_field_of_longer(log, more, pos + 12int);
        lemma_field_of_longer(log, more, pos + 20int);
        let key_end = pos + HEADER_LEN as nat + field(log, pos + 12int);
        let end = key_end + field(log, pos + 20int);
        let key = log.subrange(pos + HEADER_LEN, key_end as int);
        assert((log + more).subrange(pos + HEADER_LEN, key_end as int) =~= key);
        assert(stride(field(log, pos + 20int)) == field(log, pos + 20int));
        if valid_utf8(key) {
            let entry = KeyDirEntry {
                file_id,
                value_sz: field(log, pos + 20int) as u64,
                value_pos: pos as u64,
                timestamp: field(log, pos + 4int) as u64,
            };
            lemma_replay_records_longer(
                log,
                more,
                file_id,
                end,
                updated(dir, decode_utf8(key), entry),
                (steps - 1) as nat,
                (more_steps - 1) as nat,
            );
        }
    }
}

/// Less than a header behind a whole data file makes no difference.
pub proof fn lemma_replay_log_torn(
    log: Seq<u8>,
    torn: Seq<u8>,
    file_id: u32,
    dir: Map<Seq<char>, KeyDirEntry>,
)
    requires
        whole_log(log, 0),
        torn.len() < HEADER_LEN,
    ensures
        replay_log(log + torn, file_id, dir) == replay_log(log, file_id, dir),
{
    lemma_record_count(log, 0);
    lemma_replay_records_longer(log, torn, file_id, 0, dir, log.len(), (log + torn).len());
}

/// A whole data file stays whole where whole records follow.
pub proof fn lemma_whole_log_longer(log: Seq<u8>, more: Seq<u8>, pos: nat)
    requires
        whole_log(log, pos),
        pos <= log.len(),
        whole_log(log + more, log.len()),
    ensures
        whole_log(log + more, pos),
    decreases log.len() - pos,
{
    if pos < log.len() {
        lemma_field_of_longer(log, more, pos + 12int);
        lemma_field_of_longer(log, more, pos + 20int);
        let end = pos + record_len(field(log, pos + 12int), field(log, pos + 20int));
        lemma_whole_log_longer(log, more, end);
    }
}

/// One record behind a whole data file updates the directory once.
pub proof fn lemma_replay_one_record(
    log: Seq<u8>,
    file_id: u32,
    dir: Map<Seq<char>, KeyDirEntry>,
    timestamp: u64,
    key: Seq<char>,
    value: Seq<u8>,
)
    requires
        log.len() + record_len(encode_utf8(key).len(), value.len()) <= i64::MAX,
        whole_log(log, 0),
    ensures
        ({
            let longer = log + record_bytes(timestamp, encode_utf8(key), value);
            let entry = KeyDirEntry {
                file_id,
                value_sz: value.len() as u64,
                value_pos: log.len() as u64,
                timestamp,
            };
            &&& longer.len() == log.len() + record_len(encode_utf8(key).len(), value.len())
            &&& whole_log(longer, 0)
            &&& replay_log(longer, file_id, dir) == (match replay_log(log, file_id, dir) {
                Ok(d) => Ok(updated(d, key, entry)),
                Err(e) => Err(e),
            })
        }),
{
    let k = encode_utf8(key);
    let record = record_bytes(timestamp, k, value);
    let longer = log + record;
    let pos = log.len();
    lemma_record_parts(timestamp, k, value);
    assert(longer.subrange(pos as int, pos as int + record_len(k.len(), value.len())) =~= record);
    lemma_record_fields(longer, pos as int, timestamp, k, value);
    vstd::utf8::encode_utf8_valid_utf8(key);
    vstd::utf8::encode_utf8_decode_utf8(key);
    let left = (longer.len() - record_count(log, 0)) as nat;
    lemma_record_count(log, 0);
    lemma_replay_records_longer(log, record, file_id, 0, dir, log.len(), longer.len());
    assert(whole_log(longer, longer.len()));
    assert(whole_log(longer, pos));
    lemma_whole_log_longer(log, record, 0);
    if let Ok(d) = replay_log(log, file_id, dir) {
        let entry = KeyDirEntry {
            file_id,
            value_sz: value.len() as u64,
            value_pos: pos as u64,
            timestamp,
        };
        let next = updated(d, key, entry);
        assert(longer.subrange(pos + HEADER_LEN, pos + HEADER_LEN + k.len()) == k);
        assert(stride(value.len()) == value.len());
        assert(replay_records(longer, file_id, longer.len(), next, (left - 1) as nat) == Ok::<
            Map<Seq<char>, KeyDirEntry>,
            LoadError,
        >(next));
        assert(replay_records(longer, file_id, pos, d, left) == replay_records(
            longer,
            file_id,
            longer.len(),
            next,
            (left - 1) as nat,
        ));
    }
}

/// Bytes behind a whole hint file are scanned as if they stood alone.
pub proof fn lemma_replay_hints_longer(
    hints: Seq<u8>,
    more: Seq<u8>,
    file_id: u32,
    at: nat,
    dir: Map<Seq<char>, KeyDirEntry>,
)
    requires
        whole_hints(hints, at),
        at <= hints.len(),
    ensures
        replay_hints(hints + more, file_id, at, dir) == (match replay_hints(
            hints,
            file_id,
            at,
            dir,
        ) {
            Ok(d) => replay_hints(hints + more, file_id, hints.len(), d),
            Err(e) => Err(e),
        }),
    decreases hints.len() - at,
{
    if at < hints.len() {
        lemma_field_of_longer(hints, more, at as int);
        lemma_field_of_longer(hints, more, at + 8int);
        lemma_field_of_longer(hints, more, at + 16int);
        lemma_field_of_longer(hints, more, at + 24int);
        let end = at + HINT_HEADER_LEN as nat + field(hints, at + 8int);
        let key = hints.subrange(at + HINT_HEADER_LEN, end as int);
        assert((hints + more).subrange(at + HINT_HEADER_LEN, end as int) =~= key);
        if valid_utf8(key) {
            let entry = KeyDirEntry {
                file_id,
                value_sz: field(hints, at + 16int) as u64,
                value_pos: field(hints, at + 24int) as u64,
                timestamp: field(hints, at as int) as u64,
            };
            lemma_replay_hints_longer(
                hints,
                more,
                file_id,
                end,
                updated(dir, decode_utf8(key), entry),
            );
        }
    }
}

/// A whole hint file stays whole where whole hints follow.
pub proof fn lemma_whole_hints_longer(hints: Seq<u8>, more: Seq<u8>, at: nat)
    requires
        whole_hints(hints, at),
        at <= hints.len(),
        whole_hints(hints + more, hints.len()),
    ensures
        whole_hints(hints + more, at),
    decreases hints.len() - at,
{
    if at < hints.len() {
        lemma_field_of_longer(hints, more, at + 8int);
        let end = at + HINT_HEADER_LEN as nat + field(hints, at + 8int);
        lemma_whole_hints_longer(hints, more, end);
    }
}

/// One hint behind a whole hint file updates the directory once.
pub proof fn lemma_replay_one_hint(
    hints: Seq<u8>,
    file_id: u32,
    dir: Map<Seq<char>, KeyDirEntry>,
    timestamp: u64,
    key: Seq<char>,
    value_sz: nat,
    pos: u64,
)
    requires
        encode_utf8(key).len() <= u64::MAX,
        value_sz <= u64::MAX,
        whole_hints(hints, 0),
    ensures
        ({
            let longer = hints + hint_bytes(timestamp, encode_utf8(key), value_sz, pos);
            let entry = KeyDirEntry {
                file_id,
                value_sz: value_sz as u64,
                value_pos: pos,
                timestamp,
            };
            &&& whole_hints(longer, 0)
            &&& replay_hints(longer, file_id, 0, dir) == (match replay_hints(
                hints,
                file_id,
                0,
                dir,
            ) {
                Ok(d) => Ok(updated(d, key, entry)),
                Err(e) => Err(e),
            })
        }),
{
    let k = encode_utf8(key);
    let hint = hint_bytes(timestamp, k, value_sz, pos);
    let longer = hints + hint;
    let at = hints.len();
    crate::le::lemma_le_bytes_len(timestamp as nat, 8);
    crate::le::lemma_le_bytes_len(k.len(), 8);
    crate::le::lemma_le_bytes_len(value_sz, 8);
    crate::le::lemma_le_bytes_len(pos as nat, 8);
    assert(hint.len() == 32 + k.len());
    assert(longer.subrange(at as int, at + 32int + k.len()) =~= hint);
    lemma_hint_fields(longer, at as int, timestamp, k, value_sz, pos);
    vstd::utf8::encode_utf8_valid_utf8(key);
    vstd::utf8::encode_utf8_decode_utf8(key);
    lemma_replay_hints_longer(hints, hint, file_id, 0, dir);
    assert(whole_hints(longer, longer.len()));
    assert(whole_hints(longer, at));
    lemma_whole_hints_longer(hints, hint, 0);
    if let Ok(d) = replay_hints(hints, file_id, 0, dir) {
        let entry = KeyDirEntry { file_id, value_sz: value_sz as u64, value_pos: pos, timestamp };
        let next = updated(d, key, entry);
        assert(replay_hints(longer, file_id, longer.len(), next) == Ok::<
            Map<Seq<char>, KeyDirEntry>,
            LoadError,
        >(next));
        assert(longer.subrange(at + HINT_HEADER_LEN, at + HINT_HEADER_LEN + k.len()) == k);
        assert(replay_hints(longer, file_id, at, d) == replay_hints(
            longer,
            file_id,
            longer.len(),
            next,
        ));
    }
}

/// A scan that was given up had found a record at each step.
proof fn lemma_steps_taken(
    log: Seq<u8>,
    file_id: u32,
    n: nat,
    dir: Map<Seq<char>, KeyDirEntry>,
    steps: nat,
    taken: nat,
)
    requires
        record_pos(log, n) >= 0,
        replay_records(log, file_id, record_pos(log, n) as nat, dir, steps) == Err::<
            Map<Seq<char>, KeyDirEntry>,
            LoadError,
        >(LoadError::EndlessScan),
        taken <= steps,
    ensures
        has_record(log, n + taken),
    decreases steps,
{
    if taken > 0 {
        let pos = record_pos(log, n) as nat;
        let key_end = pos + HEADER_LEN as nat + field(log, pos + 12int);
        let entry = KeyDirEntry {
            file_id,
            value_sz: field(log, pos + 20int) as u64,
            value_pos: pos as u64,
            timestamp: field(log, pos + 4int) as u64,
        };
        lemma_steps_taken(
            log,
            file_id,
            n + 1,
            updated(dir, decode_utf8(log.subrange(pos + HEADER_LEN, key_end as int)), entry),
            (steps - 1) as nat,
            (taken - 1) as nat,
        );
    }
}

/// Where two records start at the same position, so do those that follow them.
pub(crate) proof fn lemma_same_path(log: Seq<u8>, i: nat, j: nat, n: nat)
    requires
        record_pos(log, i) == record_pos(log, j),
    ensures
        record_pos(log, i + n) == record_pos(log, j + n),
    decreases n,
{
    if n > 0 {
        lemma_same_path(log, i, j, (n - 1) as nat);
    }
}

/// Among more numbers below `most` than there are, two are equal.
pub(crate) proof fn lemma_two_are_equal(numbers: Seq<int>, most: nat)
    requires
        numbers.len() > most,
        forall|i: int| 0 <= i < numbers.len() ==> 0 <= #[trigger] numbers[i] < most,
    ensures
        exists|i: int, j: int| 0 <= i < j < numbers.len() && numbers[i] == numbers[j],
{
    if forall|i: int, j: int| 0 <= i < j < numbers.len() ==> numbers[i] != numbers[j] {
        let range = vstd::set_lib::set_int_range(0, most as int);
        vstd::set_lib::lemma_int_range(0, most as int);
        numbers.unique_seq_to_set();
        assert forall|x: int| numbers.to_set().contains(x) implies range.contains(x) by {
            let i = numbers.index_of(x);
        }
        vstd::set_lib::lemma_len_subset(numbers.to_set(), range);
    }
}

/// A scan that has not ended after as many records as the file has bytes goes
/// on in a circle: behind any number of records there is another one.
pub proof fn lemma_endless_scan(
    log: Seq<u8>,
    file_id: u32,
    dir: Map<Seq<char>, KeyDirEntry>,
    n: nat,
)
    requires
        replay_log(log, file_id, dir) == Err::<Map<Seq<char>, KeyDirEntry>, LoadError>(
            LoadError::EndlessScan,
        ),
    ensures
        has_record(log, n),
    decreases n,
{
    if n <= log.len() {
        lemma_steps_taken(log, file_id, 0, dir, log.len(), n);
    } else {
        let starts = Seq::new((log.len() + 1) as nat, |i: int| record_pos(log, i as nat));
        assert forall|i: int| 0 <= i < starts.len() implies 0 <= #[trigger] starts[i]
            < log.len() by {
            lemma_steps_taken(log, file_id, 0, dir, log.len(), i as nat);
        }
        lemma_two_are_equal(starts, log.len());
        let (i, j) = choose|i: int, j: int|
            0 <= i < j < starts.len() && starts[i] == starts[j];
        lemma_same_path(log, i as nat, j as nat, (n - j) as nat);
        lemma_endless_scan(log, file_id, dir, (n - j + i) as nat);
    }
}

/// No key of a directory has an empty value.
pub open spec fn has_values(dir: Map<Seq<char>, KeyDirEntry>) -> bool {
    forall|key: Seq<char>| #[trigger] dir.contains_key(key) ==> dir[key].value_sz > 0
}

proof fn lemma_records_have_values(
    log: Seq<u8>,
    file_id: u32,
    pos: nat,
    dir: Map<Seq<char>, KeyDirEntry>,
    steps: nat,
)
    requires
        has_values(dir),
    ensures
        replay_records(log, file_id, pos, dir, steps) matches Ok(d) ==> has_values(d),
    decreases steps,
{
    if log.len() >= pos + HEADER_LEN && steps > 0 {
        let key_end = pos + HEADER_LEN as nat + field(log, pos + 12int);
        let value_sz = field(log, pos + 20int);
        let entry = KeyDirEntry {
            file_id,
            value_sz: value_sz as u64,
            value_pos: pos as u64,
            timestamp: field(log, pos + 4int) as u64,
        };
        let next = updated(
            dir,
            decode_utf8(log.subrange(pos + HEADER_LEN, key_end as int)),
            entry,
        );
        assert(has_values(next));
        lemma_records_have_values(
            log,
            file_id,
            (key_end + stride(value_sz)) as nat,
            next,
            (steps - 1) as nat,
        );
    }
}

proof fn lemma_hints_have_values(
    hints: Seq<u8>,
    file_id: u32,
    at: nat,
    dir: Map<Seq<char>, KeyDirEntry>,
)
    requires
        has_values(dir),
    ensures
        replay_hints(hints, file_id, at, dir) matches Ok(d) ==> has_values(d),
    decreases hints.len() - at,
{
    let end = at + HINT_HEADER_LEN as nat + field(hints, at + 8int);
    if hints.len() >= at + HINT_HEADER_LEN && hints.len() >= end {
        let entry = KeyDirEntry {
            file_id,
            value_sz: field(hints, at + 16int) as u64,
            value_pos: field(hints, at + 24int) as u64,
            timestamp: field(hints, at as int) as u64,
        };
        let next = updated(
            dir,
            decode_utf8(hints.subrange(at + HINT_HEADER_LEN, end as int)),
            entry,
        );
        assert(has_values(next));
        lemma_hints_have_values(hints, file_id, end, next);
    }
}

/// No key that is loaded has an empty value.
pub proof fn lemma_rebuilt_has_values(files: Seq<FileView>)
    ensures
        rebuilt(files) matches Ok(dir) ==> has_values(dir),
    decreases files.len(),
{
    if files.len() > 0 {
        let before = files.drop_last();
        let file = files.last();
        lemma_rebuilt_has_values(before);
        if let Ok(dir) = rebuilt(before) {
            if let Some(hints) = file.hint {
                lemma_hints_have_values(hints, file.file_id, 0, dir);
            } else if let Some(log) = file.log {
                lemma_records_have_values(log, file.file_id, 0, dir, log.len());
            }
        }
    }
}

/// Two directories say the same of a key.
pub open spec fn agree(
    a: Map<Seq<char>, KeyDirEntry>,
    b: Map<Seq<char>, KeyDirEntry>,
    key: Seq<char>,
) -> bool {
    &&& a.contains_key(key) == b.contains_key(key)
    &&& a.contains_key(key) ==> a[key] == b[key]
}

/// A data file either decides what is said of a key, or leaves it as it was.
pub proof fn lemma_log_decides(
    log: Seq<u8>,
    file_id: u32,
    pos: nat,
    a: Map<Seq<char>, KeyDirEntry>,
    b: Map<Seq<char>, KeyDirEntry>,
    steps: nat,
    key: Seq<char>,
)
    requires
        replay_records(log, file_id, pos, a, steps) is Ok,
    ensures
        replay_records(log, file_id, pos, b, steps) is Ok,
        ({
            let a1 = replay_records(log, file_id, pos, a, steps)->Ok_0;
            let b1 = replay_records(log, file_id, pos, b, steps)->Ok_0;
            agree(a1, b1, key) || (agree(a1, a, key) && agree(b1, b, key))
        }),
    decreases steps,
{
    if log.len() >= pos + HEADER_LEN {
        let key_end = pos + HEADER_LEN as nat + field(log, pos + 12int);
        let value_sz = field(log, pos + 20int);
        let name = decode_utf8(log.subrange(pos + HEADER_LEN, key_end as int));
        let entry = KeyDirEntry {
            file_id,
            value_sz: value_sz as u64,
            value_pos: pos as u64,
            timestamp: field(log, pos + 4int) as u64,
        };
        lemma_log_decides(
            log,
            file_id,
            (key_end + stride(value_sz)) as nat,
            updated(a, name, entry),
            updated(b, name, entry),
            (steps - 1) as nat,
            key,
        );
    }
}

/// A hint file either decides what is said of a key, or leaves it as it was.
pub proof fn lemma_hints_decide(
    hints: Seq<u8>,
    file_id: u32,
    at: nat,
    a: Map<Seq<char>, KeyDirEntry>,
    b: Map<Seq<char>, KeyDirEntry>,
    key: Seq<char>,
)
    requires
        replay_hints(hints, file_id, at, a) is Ok,
    ensures
        replay_hints(hints, file_id, at, b) is Ok,
        ({
            let a1 = replay_hints(hints, file_id, at, a)->Ok_0;
            let b1 = replay_hints(hints, file_id, at, b)->Ok_0;
            agree(a1, b1, key) || (agree(a1, a, key) && agree(b1, b, key))
        }),
    decreases hints.len() - at,
{
    if hints.len() >= at + HINT_HEADER_LEN {
        let end = at + HINT_HEADER_LEN as nat + field(hints, at + 8int);
        let name = decode_utf8(hints.subrange(at + HINT_HEADER_LEN, end as int));
        let entry = KeyDirEntry {
            file_id,
            value_sz: field(hints, at + 16int) as u64,
            value_pos: field(hints, at + 24int) as u64,
            timestamp: field(hints, at as int) as u64,
        };
        lemma_hints_decide(
            hints,
            file_id,
            end,
            updated(a, name, entry),
            updated(b, name, entry),
            key,
        );
    }
}

} // verus!
