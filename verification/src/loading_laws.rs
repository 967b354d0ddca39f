//! The laws of loading: what any data file and any hint file say, record by
//! record and hint by hint.

use crate::key_dir::KeyDirEntry;
use crate::record::field;
use crate::recovery::{
    rebuilt, replay_hints, replay_log, replay_records, stride, updated, FileView, LoadError,
};
use crate::scan::{
    has_record, lemma_endless_scan, lemma_same_path, lemma_two_are_equal, record_pos,
};
use vstd::prelude::*;
use vstd::utf8::{decode_utf8, valid_utf8};

verus! {

/// A value of fewer than 2^63 bytes is skipped; a larger size is a negative
/// 64-bit number, and leads back by that many bytes.
pub proof fn law_stride(value_sz: u64)
    ensures
        value_sz < 0x8000_0000_0000_0000 ==> stride(value_sz as nat) == value_sz,
        value_sz >= 0x8000_0000_0000_0000 ==> stride(value_sz as nat) == value_sz
            - 0x1_0000_0000_0000_0000,
{
}

/// The first record of a data file starts at its first byte, and every other one
/// where the sizes in the one before lead.
pub proof fn law_record_pos(log: Seq<u8>, n: nat)
    ensures
        record_pos(log, 0) == 0,
        ({
            let pos = record_pos(log, n);
            &&& record_pos(log, n + 1) == pos + 28 + field(log, pos + 12) + stride(
                field(log, pos + 20),
            )
            &&& has_record(log, n) <==> 0 <= pos && pos + 28 <= log.len()
        }),
{
}

/// The bytes of the key of a record.
pub open spec fn record_key(log: Seq<u8>, n: nat) -> Seq<u8> {
    let pos = record_pos(log, n);
    log.subrange(pos + 28, pos + 28 + field(log, pos + 12))
}

/// What is wrong with a record whose header lies in the file.
pub open spec fn record_error(log: Seq<u8>, n: nat) -> Option<LoadError> {
    let pos = record_pos(log, n);
    if pos + 28 + field(log, pos + 12) > log.len() {
        Some(LoadError::TruncatedKey)
    } else if !valid_utf8(record_key(log, n)) {
        Some(LoadError::KeyNotUtf8)
    } else if record_pos(log, n + 1) < 0 || record_pos(log, n + 1) > i64::MAX {
        Some(LoadError::ValueOutOfRange)
    } else {
        None
    }
}

/// A record is there, and nothing is wrong with it.
pub open spec fn good_record(log: Seq<u8>, n: nat) -> bool {
    has_record(log, n) && record_error(log, n) is None
}

/// The key directory after the first `n` records: each one forgets its key if it
/// says that the value is empty, and else makes the key known at its position.
pub open spec fn after_records(
    log: Seq<u8>,
    file_id: u32,
    dir: Map<Seq<char>, KeyDirEntry>,
    n: nat,
) -> Map<Seq<char>, KeyDirEntry>
    decreases n,
{
    if n == 0 {
        dir
    } else {
        let i = (n - 1) as nat;
        let pos = record_pos(log, i);
        let key = decode_utf8(record_key(log, i));
        let before = after_records(log, file_id, dir, i);
        if field(log, pos + 20) == 0 {
            before.remove(key)
        } else {
            before.insert(
                key,
                KeyDirEntry {
                    file_id,
                    value_sz: field(log, pos + 20) as u64,
                    value_pos: pos as u64,
                    timestamp: field(log, pos + 4) as u64,
                },
            )
        }
    }
}

/// Good records are scanned one after the other.
proof fn lemma_scanned(
    log: Seq<u8>,
    file_id: u32,
    dir: Map<Seq<char>, KeyDirEntry>,
    n: nat,
    steps: nat,
)
    requires
        n <= steps,
        forall|i: nat| i < n ==> #[trigger] good_record(log, i),
    ensures
        record_pos(log, n) >= 0,
        replay_records(log, file_id, 0, dir, steps) == replay_records(
            log,
            file_id,
            record_pos(log, n) as nat,
            after_records(log, file_id, dir, n),
            (steps - n) as nat,
        ),
    decreases n,
{
    if n > 0 {
        let i = (n - 1) as nat;
        lemma_scanned(log, file_id, dir, i, steps);
        assert(good_record(log, i));
        let pos = record_pos(log, i) as nat;
        let key = record_key(log, i);
        let before = after_records(log, file_id, dir, i);
        let entry = KeyDirEntry {
            file_id,
            value_sz: field(log, pos + 20int) as u64,
            value_pos: pos as u64,
            timestamp: field(log, pos + 4int) as u64,
        };
        crate::le::lemma_capacities();
        crate::le::lemma_le_value_bound(log.subrange(pos + 20int, pos + 20int + 8));
        assert(after_records(log, file_id, dir, n) == updated(before, decode_utf8(key), entry));
    }
}

/// A data file has no more positions than bytes: a record behind more good ones
/// starts where one of them does.
proof fn lemma_comes_back(log: Seq<u8>, n: nat) -> (earlier: nat)
    requires
        n >= log.len(),
        forall|i: nat| i < n ==> #[trigger] good_record(log, i),
        has_record(log, n),
    ensures
        earlier < n,
        record_pos(log, earlier) == record_pos(log, n),
        record_pos(log, earlier + 1) == record_pos(log, n + 1),
{
    let starts = Seq::new((log.len() + 1) as nat, |i: int| record_pos(log, i as nat));
    assert forall|i: int| 0 <= i < starts.len() implies 0 <= #[trigger] starts[i] < log.len() by {
        if i < n {
            assert(good_record(log, i as nat));
        }
        assert(has_record(log, i as nat));
    }
    lemma_two_are_equal(starts, log.len());
    let (i, j) = choose|i: int, j: int| 0 <= i < j < starts.len() && starts[i] == starts[j];
    lemma_same_path(log, i as nat, j as nat, (n - j) as nat);
    lemma_same_path(log, i as nat, j as nat, (n - j + 1) as nat);
    (n - j + i) as nat
}

/// Where the good records of a data file have an end, there are no more of them
/// than the file has bytes.
proof fn lemma_few_records(log: Seq<u8>, n: nat)
    requires
        forall|i: nat| i < n ==> #[trigger] good_record(log, i),
        !has_record(log, n),
    ensures
        n <= log.len(),
{
    if n > log.len() {
        let starts = Seq::new((log.len() + 1) as nat, |i: int| record_pos(log, i as nat));
        assert forall|i: int| 0 <= i < starts.len() implies 0 <= #[trigger] starts[i]
            < log.len() by {
            assert(good_record(log, i as nat));
        }
        lemma_two_are_equal(starts, log.len());
        let (i, j) = choose|i: int, j: int| 0 <= i < j < starts.len() && starts[i] == starts[j];
        lemma_same_path(log, i as nat, j as nat, (n - j) as nat);
        assert(good_record(log, (n - j + i) as nat));
    }
}

/// A data file of good records, behind which there is no room for another header,
/// is loaded record by record, up to the last one. The last value may be cut off.
pub proof fn law_good_records_are_loaded(
    log: Seq<u8>,
    file_id: u32,
    dir: Map<Seq<char>, KeyDirEntry>,
    n: nat,
)
    requires
        forall|i: nat| i < n ==> #[trigger] good_record(log, i),
        !has_record(log, n),
    ensures
        replay_log(log, file_id, dir) == Ok::<Map<Seq<char>, KeyDirEntry>, LoadError>(
            after_records(log, file_id, dir, n),
        ),
{
    lemma_few_records(log, n);
    lemma_scanned(log, file_id, dir, n, log.len());
}

/// The first record that is not good decides with which error a data file is
/// refused: the file ends within its key, its key is not text, or its value leads
/// where no file has a position.
pub proof fn law_bad_record_is_refused(
    log: Seq<u8>,
    file_id: u32,
    dir: Map<Seq<char>, KeyDirEntry>,
    n: nat,
)
    requires
        forall|i: nat| i < n ==> #[trigger] good_record(log, i),
        has_record(log, n),
        record_error(log, n) is Some,
    ensures
        replay_log(log, file_id, dir) == Err::<Map<Seq<char>, KeyDirEntry>, LoadError>(
            record_error(log, n)->0,
        ),
{
    if n >= log.len() {
        let earlier = lemma_comes_back(log, n);
        assert(good_record(log, earlier));
        assert(record_key(log, earlier) == record_key(log, n));
    }
    lemma_scanned(log, file_id, dir, n, log.len());
}

/// A data file is refused as endless exactly if its records are good and never
/// end.
pub proof fn law_endless_records_are_refused(
    log: Seq<u8>,
    file_id: u32,
    dir: Map<Seq<char>, KeyDirEntry>,
)
    ensures
        replay_log(log, file_id, dir) == Err::<Map<Seq<char>, KeyDirEntry>, LoadError>(
            LoadError::EndlessScan,
        ) <==> forall|n: nat| #[trigger] good_record(log, n),
{
    let endless = Err::<Map<Seq<char>, KeyDirEntry>, LoadError>(LoadError::EndlessScan);
    if forall|n: nat| #[trigger] good_record(log, n) {
        lemma_scanned(log, file_id, dir, log.len(), log.len());
        assert(good_record(log, log.len()));
    }
    if replay_log(log, file_id, dir) == endless {
        assert forall|n: nat| #[trigger] good_record(log, n) by {
            lemma_all_good(log, file_id, dir, n);
        }
    }
}

proof fn lemma_all_good(log: Seq<u8>, file_id: u32, dir: Map<Seq<char>, KeyDirEntry>, n: nat)
    requires
        replay_log(log, file_id, dir) == Err::<Map<Seq<char>, KeyDirEntry>, LoadError>(
            LoadError::EndlessScan,
        ),
    ensures
        forall|i: nat| i <= n ==> #[trigger] good_record(log, i),
    decreases n,
{
    if n > 0 {
        lemma_all_good(log, file_id, dir, (n - 1) as nat);
    }
    lemma_endless_scan(log, file_id, dir, n);
    if record_error(log, n) is Some {
        law_bad_record_is_refused(log, file_id, dir, n);
    }
}

/// Where the hint with number `n` of a hint file starts.
pub open spec fn hint_pos(hints: Seq<u8>, n: nat) -> nat
    decreases n,
{
    if n == 0 {
        0
    } else {
        let at = hint_pos(hints, (n - 1) as nat);
        at + 32 + field(hints, at + 8int)
    }
}

/// The bytes of the key of a hint.
pub open spec fn hint_key(hints: Seq<u8>, n: nat) -> Seq<u8> {
    hints.subrange(hint_pos(hints, n) + 32int, hint_pos(hints, n + 1) as int)
}

/// What is wrong with a hint whose header lies in the file.
pub open spec fn hint_error(hints: Seq<u8>, n: nat) -> Option<LoadError> {
    if hint_pos(hints, n + 1) > hints.len() {
        Some(LoadError::TruncatedKey)
    } else if !valid_utf8(hint_key(hints, n)) {
        Some(LoadError::KeyNotUtf8)
    } else {
        None
    }
}

/// A hint is there, and nothing is wrong with it.
pub open spec fn good_hint(hints: Seq<u8>, n: nat) -> bool {
    hint_pos(hints, n) + 32 <= hints.len() && hint_error(hints, n) is None
}

/// The key directory after the first `n` hints: each one forgets its key if it
/// says that the value is empty, and else makes the key known where it says.
pub open spec fn after_hints(
    hints: Seq<u8>,
    file_id: u32,
    dir: Map<Seq<char>, KeyDirEntry>,
    n: nat,
) -> Map<Seq<char>, KeyDirEntry>
    decreases n,
{
    if n == 0 {
        dir
    } else {
        let i = (n - 1) as nat;
        let at = hint_pos(hints, i) as int;
        let key = decode_utf8(hint_key(hints, i));
        let before = after_hints(hints, file_id, dir, i);
        if field(hints, at + 16) == 0 {
            before.remove(key)
        } else {
            before.insert(
                key,
                KeyDirEntry {
                    file_id,
                    value_sz: field(hints, at + 16) as u64,
                    value_pos: field(hints, at + 24) as u64,
                    timestamp: field(hints, at) as u64,
                },
            )
        }
    }
}

/// Good hints are scanned one after the other.
proof fn lemma_hints_scanned(
    hints: Seq<u8>,
    file_id: u32,
    dir: Map<Seq<char>, KeyDirEntry>,
    n: nat,
)
    requires
        forall|i: nat| i < n ==> #[trigger] good_hint(hints, i),
    ensures
        replay_hints(hints, file_id, 0, dir) == replay_hints(
            hints,
            file_id,
            hint_pos(hints, n),
            after_hints(hints, file_id, dir, n),
        ),
    decreases n,
{
    if n > 0 {
        let i = (n - 1) as nat;
        lemma_hints_scanned(hints, file_id, dir, i);
        assert(good_hint(hints, i));
        let at = hint_pos(hints, i);
        let before = after_hints(hints, file_id, dir, i);
        let entry = KeyDirEntry {
            file_id,
            value_sz: field(hints, at + 16int) as u64,
            value_pos: field(hints, at + 24int) as u64,
            timestamp: field(hints, at as int) as u64,
        };
        crate::le::lemma_capacities();
        crate::le::lemma_le_value_bound(hints.subrange(at + 16int, at + 16int + 8));
        assert(after_hints(hints, file_id, dir, n) == updated(
            before,
            decode_utf8(hint_key(hints, i)),
            entry,
        ));
    }
}

/// A hint file of good hints, behind which there is no room for another header,
/// is loaded hint by hint, up to the last one.
pub proof fn law_good_hints_are_loaded(
    hints: Seq<u8>,
    file_id: u32,
    dir: Map<Seq<char>, KeyDirEntry>,
    n: nat,
)
    requires
        forall|i: nat| i < n ==> #[trigger] good_hint(hints, i),
        hint_pos(hints, n) + 32 > hints.len(),
    ensures
        replay_hints(hints, file_id, 0, dir) == Ok::<Map<Seq<char>, KeyDirEntry>, LoadError>(
            after_hints(hints, file_id, dir, n),
        ),
{
    lemma_hints_scanned(hints, file_id, dir, n);
}

/// The first hint that is not good decides with which error a hint file is
/// refused: the file ends within its key, or its key is not text.
pub proof fn law_bad_hint_is_refused(
    hints: Seq<u8>,
    file_id: u32,
    dir: Map<Seq<char>, KeyDirEntry>,
    n: nat,
)
    requires
        forall|i: nat| i < n ==> #[trigger] good_hint(hints, i),
        hint_pos(hints, n) + 32 <= hints.len(),
        hint_error(hints, n) is Some,
    ensures
        replay_hints(hints, file_id, 0, dir) == Err::<Map<Seq<char>, KeyDirEntry>, LoadError>(
            hint_error(hints, n)->0,
        ),
{
    lemma_hints_scanned(hints, file_id, dir, n);
}

/// Files are loaded one on top of the other, each from its hint file if it has
/// one and else from its data file; a file that is not there adds nothing, and a
/// file that is refused ends the loading with its error.
pub proof fn law_files_are_loaded_in_turn(files: Seq<FileView>, file: FileView)
    ensures
        rebuilt(Seq::empty()) == Ok::<_, LoadError>(Map::<Seq<char>, KeyDirEntry>::empty()),
        ({
            let after = rebuilt(files.push(file));
            match rebuilt(files) {
                Err(e) => after == Err::<Map<Seq<char>, KeyDirEntry>, LoadError>(e),
                Ok(dir) => {
                    &&& file.hint matches Some(hints) ==> after == replay_hints(
                        hints,
                        file.file_id,
                        0,
                        dir,
                    )
                    &&& file.hint is None && file.log is Some ==> after == replay_log(
                        file.log->0,
                        file.file_id,
                        dir,
                    )
                    &&& file.hint is None && file.log is None ==> after == Ok::<
                        Map<Seq<char>, KeyDirEntry>,
                        LoadError,
                    >(dir)
                },
            }
        }),
{
    assert(files.push(file).drop_last() =~= files);
}

} // verus!
