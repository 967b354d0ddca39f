//! The names of the files in a store's directory: `bitcask-<id>.rn` for the
//! data file with that id and `bitcask-<id>.hint` for its hint file.

use crate::key_dir::texts;
use vstd::prelude::*;
use vstd::string::*;

verus! {

/// The decimal digit `d`.
pub open spec fn digit(d: nat) -> char {
    (48 + d) as char
}

pub open spec fn is_digit(c: char) -> bool {
    '0' <= c <= '9'
}

/// `n` in decimal, without leading zeros.
pub open spec fn decimal(n: nat) -> Seq<char>
    decreases n,
{
    if n < 10 {
        seq![digit(n)]
    } else {
        decimal(n / 10).push(digit(n % 10))
    }
}

/// The number that a row of decimal digits denotes.
pub open spec fn digits_value(s: Seq<char>) -> nat
    decreases s.len(),
{
    if s.len() == 0 {
        0
    } else {
        10 * digits_value(s.drop_last()) + (s.last() as nat - 48) as nat
    }
}

pub open spec fn all_digits(s: Seq<char>) -> bool {
    forall|i: int| 0 <= i < s.len() ==> is_digit(#[trigger] s[i])
}

/// The number that `s` denotes as an unsigned 32-bit integer: one or more
/// digits, behind at most one `+`.
pub open spec fn parsed_u32(s: Seq<char>) -> Option<u32> {
    let digits = if s.len() > 0 && s[0] == '+' {
        s.skip(1)
    } else {
        s
    };
    if digits.len() > 0 && all_digits(digits) && digits_value(digits) <= u32::MAX {
        Some(digits_value(digits) as u32)
    } else {
        None
    }
}

/// The name of the data file with the given id.
pub open spec fn data_name(file_id: u32) -> Seq<char> {
    "bitcask-"@ + decimal(file_id as nat) + ".rn"@
}

/// The name of the hint file with the given id.
pub open spec fn hint_name(file_id: u32) -> Seq<char> {
    "bitcask-"@ + decimal(file_id as nat) + ".hint"@
}

/// The id of the data file that has this name; `None` for any other file.
pub open spec fn data_id(name: Seq<char>) -> Option<u32> {
    let prefix = "bitcask-"@;
    let suffix = ".rn"@;
    if prefix.is_prefix_of(name) && suffix.is_suffix_of(name) && prefix.len() + suffix.len()
        <= name.len() {
        parsed_u32(name.subrange(prefix.len() as int, name.len() - suffix.len()))
    } else {
        None
    }
}

/// The ids of the data files among `names`, in the order of the names.
pub open spec fn listed_ids(names: Seq<Seq<char>>) -> Seq<u32>
    decreases names.len(),
{
    if names.len() == 0 {
        Seq::empty()
    } else {
        match data_id(names.last()) {
            Some(id) => listed_ids(names.drop_last()).push(id),
            None => listed_ids(names.drop_last()),
        }
    }
}

pub open spec fn ascending(ids: Seq<u32>) -> bool {
    forall|i: int, j: int| 0 <= i <= j < ids.len() ==> ids[i] <= ids[j]
}

/// A merge into file `merged_id` supersedes the data file with this name.
pub open spec fn superseded(name: Seq<char>, merged_id: u32) -> bool {
    data_id(name) matches Some(id) && id < merged_id
}

fn digit_text(d: u32) -> (text: &'static str)
    requires
        d < 10,
    ensures
        text@ == seq![digit(d as nat)],
{
    proof {
        reveal_strlit("0");
        reveal_strlit("1");
        reveal_strlit("2");
        reveal_strlit("3");
        reveal_strlit("4");
        reveal_strlit("5");
        reveal_strlit("6");
        reveal_strlit("7");
        reveal_strlit("8");
        reveal_strlit("9");
    }
    let text = match d {
        0 => "0",
        1 => "1",
        2 => "2",
        3 => "3",
        4 => "4",
        5 => "5",
        6 => "6",
        7 => "7",
        8 => "8",
        _ => "9",
    };
    assert(text@ =~= seq![digit(d as nat)]);
    text
}

/// Appends `n` in decimal.
fn push_decimal(out: &mut String, n: u32)
    ensures
        final(out)@ == old(out)@ + decimal(n as nat),
    decreases n,
{
    if n >= 10 {
        push_decimal(out, n / 10);
    }
    out.append(digit_text(n % 10));
    assert(out@ =~= old(out)@ + decimal(n as nat));
}

/// The name of the data file with the given id.
pub fn data_file_name(file_id: u32) -> (name: String)
    ensures
        name@ == data_name(file_id),
{
    let mut name = "bitcask-".to_owned();
    push_decimal(&mut name, file_id);
    name.append(".rn");
    name
}

/// The name of the hint file with the given id.
pub fn hint_file_name(file_id: u32) -> (name: String)
    ensures
        name@ == hint_name(file_id),
{
    let mut name = "bitcask-".to_owned();
    push_decimal(&mut name, file_id);
    name.append(".hint");
    name
}

/// Reads the digits `name[from..to]`, given as bytes.
fn parse_digits(name: &str, from: usize, to: usize) -> (id: Option<u32>)
    requires
        is_ascii(name),
        from <= to <= name@.len(),
    ensures
        id == ({
            let digits = name@.subrange(from as int, to as int);
            if digits.len() > 0 && all_digits(digits) && digits_value(digits) <= u32::MAX {
                Some(digits_value(digits) as u32)
            } else {
                None
            }
        }),
{
    broadcast use is_ascii_spec_bytes;

    if from == to {
        return None;
    }
    let bytes = name.as_bytes();
    let limit: u64 = 0xffff_ffff;
    let mut value: u64 = 0;
    let mut i: usize = from;
    let ghost digits = name@.subrange(from as int, to as int);
    while i < to
        invariant
            is_ascii(name),
            from <= i <= to <= name@.len(),
            bytes@ == name.spec_bytes(),
            bytes@ == Seq::new(name@.len(), |j| name@.index(j) as u8),
            limit == u32::MAX,
            digits == name@.subrange(from as int, to as int),
            all_digits(digits.take(i - from)),
            value <= limit ==> value == digits_value(digits.take(i - from)),
            value > limit ==> digits_value(digits.take(i - from)) > limit,
            value <= 10 * limit + 9,
        decreases to - i,
    {
        let ghost taken = digits.take(i - from);
        let ghost longer = digits.take(i + 1 - from);
        let b = bytes[i];
        assert(longer.last() == name@[i as int]);
        assert(name@[i as int] as u8 == b);
        if b < 48 || b > 57 {
            assert(!is_digit(digits[i - from]));
            return None;
        }
        assert(longer.drop_last() =~= taken);
        if value <= limit {
            value = 10 * value + (b - 48) as u64;
        }
        i = i + 1;
    }
    assert(digits.take(to - from) =~= digits);
    if value <= limit {
        Some(value as u32)
    } else {
        None
    }
}

/// A name that denotes a data file is made of ASCII characters.
proof fn lemma_data_name_ascii(name: Seq<char>)
    requires
        data_id(name) is Some,
    ensures
        vstd::utf8::is_ascii_chars(name),
{
    reveal_strlit("bitcask-");
    reveal_strlit(".rn");
    let middle = name.subrange(8, name.len() - 3);
    let digits = if middle.len() > 0 && middle[0] == '+' {
        middle.skip(1)
    } else {
        middle
    };
    assert forall|i: int| 0 <= i < name.len() implies '\0' <= #[trigger] name[i] <= '\u{7f}' by {
        if i < 8 {
            assert(name[i] == "bitcask-"@[i]);
        } else if i >= name.len() - 3 {
            assert(name[i] == ".rn"@[i - (name.len() - 3)]);
        } else if i > 8 || middle[0] != '+' {
            assert(is_digit(digits[i - (name.len() - 3 - digits.len())]));
        }
    }
}

/// The id of the data file that has this name; `None` for any other file.
pub fn data_file_id(name: &str) -> (id: Option<u32>)
    ensures
        id == data_id(name@),
{
    broadcast use is_ascii_spec_bytes;

    proof {
        reveal_strlit("bitcask-");
        reveal_strlit(".rn");
    }
    if !name.is_ascii() {
        proof {
            if data_id(name@) is Some {
                lemma_data_name_ascii(name@);
            }
        }
        return None;
    }
    let bytes = name.as_bytes();
    let n = bytes.len();
    if n < 11 {
        return None;
    }
    let ghost chars = name@;
    assert forall|i: int| 0 <= i < n implies #[trigger] chars[i] as u8 == bytes@[i] by {}
    let starts = bytes[0] == 98 && bytes[1] == 105 && bytes[2] == 116 && bytes[3] == 99 && bytes[4]
        == 97 && bytes[5] == 115 && bytes[6] == 107 && bytes[7] == 45;
    let ends = bytes[n - 3] == 46 && bytes[n - 2] == 114 && bytes[n - 1] == 110;
    assert(starts == "bitcask-"@.is_prefix_of(chars)) by {
        if starts {
            assert("bitcask-"@ =~= chars.subrange(0, 8));
        } else {
            if "bitcask-"@.is_prefix_of(chars) {
                assert(chars[0] == "bitcask-"@[0]);
                assert(chars[1] == "bitcask-"@[1]);
                assert(chars[2] == "bitcask-"@[2]);
                assert(chars[3] == "bitcask-"@[3]);
                assert(chars[4] == "bitcask-"@[4]);
                assert(chars[5] == "bitcask-"@[5]);
                assert(chars[6] == "bitcask-"@[6]);
                assert(chars[7] == "bitcask-"@[7]);
            }
        }
    }
    assert(ends == ".rn"@.is_suffix_of(chars)) by {
        if ends {
            assert(".rn"@ =~= chars.subrange(n - 3, n as int));
        } else {
            if ".rn"@.is_suffix_of(chars) {
                assert(chars[n - 3] == ".rn"@[0]);
                assert(chars[n - 2] == ".rn"@[1]);
                assert(chars[n - 1] == ".rn"@[2]);
            }
        }
    }
    if !starts || !ends {
        return None;
    }
    let ghost middle = chars.subrange(8, n - 3);
    if n > 11 && bytes[8] == 43 {
        assert(middle[0] == '+');
        assert(middle.skip(1) =~= chars.subrange(9, n - 3));
        parse_digits(name, 9, n - 3)
    } else {
        assert(middle.len() > 0 ==> middle[0] != '+');
        parse_digits(name, 8, n - 3)
    }
}

/// Adds `id` to an ascending list, behind the ids that are not larger.
fn insert_ascending(ids: &mut Vec<u32>, id: u32)
    requires
        ascending(old(ids)@),
    ensures
        ascending(final(ids)@),
        final(ids)@.to_multiset() == old(ids)@.to_multiset().insert(id),
{
    let mut at: usize = ids.len();
    while at > 0 && ids[at - 1] > id
        invariant
            at <= ids@.len(),
            ids@ == old(ids)@,
            ascending(ids@),
            forall|i: int| at <= i < ids@.len() ==> ids@[i] > id,
        decreases at,
    {
        at = at - 1;
    }
    ids.insert(at, id);
    proof {
        let longer = ids@;
        assert(longer.remove(at as int) =~= old(ids)@);
        assert(longer[at as int] == id);
        longer.to_multiset_ensures();
        vstd::seq_lib::to_multiset_remove(longer, at as int);
        assert(longer.to_multiset() =~= old(ids)@.to_multiset().insert(id));
    }
}

/// The ids of the data files to load, given the names of all files in the
/// directory: those of the data files in ascending order, or 0 alone where
/// there is no data file.
pub fn data_file_ids(names: &Vec<String>) -> (ids: Vec<u32>)
    ensures
        listed_ids(texts(names@)).len() == 0 ==> ids@ == seq![0u32],
        listed_ids(texts(names@)).len() > 0 ==> {
            &&& ascending(ids@)
            &&& ids@.to_multiset() == listed_ids(texts(names@)).to_multiset()
        },
{
    let mut ids: Vec<u32> = Vec::new();
    let mut i: usize = 0;
    let ghost all = texts(names@);
    while i < names.len()
        invariant
            i <= names@.len(),
            all == texts(names@),
            ascending(ids@),
            ids@.to_multiset() == listed_ids(all.take(i as int)).to_multiset(),
        decreases names@.len() - i,
    {
        assert(all.take(i + 1).drop_last() =~= all.take(i as int));
        assert(all.take(i + 1).last() == names@[i as int]@);
        proof {
            listed_ids(all.take(i as int)).to_multiset_ensures();
        }
        if let Some(id) = data_file_id(names[i].as_str()) {
            insert_ascending(&mut ids, id);
        }
        i = i + 1;
    }
    assert(all.take(i as int) =~= all);
    proof {
        ids@.to_multiset_ensures();
        listed_ids(all).to_multiset_ensures();
    }
    if ids.len() == 0 {
        ids.push(0);
        assert(ids@ =~= seq![0u32]);
    }
    ids
}

/// Whether a merge into file `merged_id` supersedes the file with this name,
/// so that it can be removed.
pub fn is_superseded(name: &str, merged_id: u32) -> (yes: bool)
    ensures
        yes == superseded(name@, merged_id),
{
    match data_file_id(name) {
        Some(id) => id < merged_id,
        None => false,
    }
}

/// A number in decimal is made of digits and denotes that number.
proof fn lemma_decimal(n: nat)
    ensures
        decimal(n).len() > 0,
        all_digits(decimal(n)),
        digits_value(decimal(n)) == n,
    decreases n,
{
    let s = decimal(n);
    if n >= 10 {
        lemma_decimal(n / 10);
        assert(s.drop_last() =~= decimal(n / 10));
    } else {
        assert(s.drop_last() =~= Seq::<char>::empty());
        assert(digits_value(s.drop_last()) == 0);
    }
}

/// The name of a data file denotes the id that it was made from.
pub proof fn law_data_name_round_trip(file_id: u32)
    ensures
        data_id(data_name(file_id)) == Some(file_id),
{
    reveal_strlit("bitcask-");
    reveal_strlit(".rn");
    let digits = decimal(file_id as nat);
    let name = data_name(file_id);
    lemma_decimal(file_id as nat);
    assert(is_digit(digits[0]));
    assert(name.subrange(0, 8) =~= "bitcask-"@);
    assert(name.subrange(name.len() - 3, name.len() as int) =~= ".rn"@);
    assert(name.subrange(8, name.len() - 3) =~= digits);
}

/// Different data files have different names.
pub proof fn law_data_names_differ(a: u32, b: u32)
    requires
        a != b,
    ensures
        data_name(a) != data_name(b),
{
    law_data_name_round_trip(a);
    law_data_name_round_trip(b);
}

/// No data file is overlooked in a listing.
pub proof fn law_data_files_are_listed(names: Seq<Seq<char>>, file_id: u32)
    requires
        names.contains(data_name(file_id)),
    ensures
        listed_ids(names).contains(file_id),
    decreases names.len(),
{
    let before = names.drop_last();
    let i = names.index_of(data_name(file_id));
    if i == before.len() {
        law_data_name_round_trip(file_id);
        assert(listed_ids(names).last() == file_id);
    } else {
        assert(before[i] == data_name(file_id));
        law_data_files_are_listed(before, file_id);
        let j = listed_ids(before).index_of(file_id);
        assert(listed_ids(names)[j] == file_id);
    }
}

/// A row of digits denotes its first digits times ten, and its last digit; no
/// digits denote 0.
pub proof fn law_digits_count_in_tens(digits: Seq<char>, last: char)
    requires
        '0' <= last <= '9',
    ensures
        digits_value(Seq::empty()) == 0,
        digits_value(digits.push(last)) == 10 * digits_value(digits) + (last as int - '0' as int),
{
    assert(digits.push(last).drop_last() =~= digits);
}

/// `digits` is one or more of the characters `0` to `9`, and denotes `n`.
pub open spec fn spells(digits: Seq<char>, n: nat) -> bool {
    &&& digits.len() > 0
    &&& forall|i: int| 0 <= i < digits.len() ==> '0' <= #[trigger] digits[i] <= '9'
    &&& digits_value(digits) == n
}

/// A number in decimal starts with 0 only if it is 0.
proof fn lemma_no_leading_zero(n: nat)
    ensures
        decimal(n).len() > 0,
        decimal(n).len() > 1 ==> decimal(n)[0] != '0',
        n > 0 ==> decimal(n)[0] != '0',
    decreases n,
{
    if n >= 10 {
        lemma_no_leading_zero(n / 10);
        assert(decimal(n)[0] == decimal(n / 10)[0]);
    } else {
        assert(decimal(n) =~= seq![digit(n)]);
    }
}

/// Every name of a data file and of a hint file holds, between `bitcask-` and
/// its suffix, the id in decimal digits without leading zeros. The data file and
/// the hint file of one id hold the same digits.
pub proof fn law_names_spell_the_id(file_id: u32)
    ensures
        ({
            let name = data_name(file_id);
            let hint = hint_name(file_id);
            let digits = name.subrange(8, name.len() - 3);
            &&& name == "bitcask-"@ + digits + ".rn"@
            &&& hint == "bitcask-"@ + digits + ".hint"@
            &&& spells(digits, file_id as nat)
            &&& digits.len() > 1 ==> digits[0] != '0'
        }),
{
    reveal_strlit("bitcask-");
    reveal_strlit(".rn");
    reveal_strlit(".hint");
    let name = data_name(file_id);
    lemma_decimal(file_id as nat);
    lemma_no_leading_zero(file_id as nat);
    assert(name.subrange(8, name.len() - 3) =~= decimal(file_id as nat));
}

/// Different hint files have different names.
pub proof fn law_hint_names_differ(a: u32, b: u32)
    requires
        a != b,
    ensures
        hint_name(a) != hint_name(b),
{
    reveal_strlit("bitcask-");
    reveal_strlit(".hint");
    lemma_decimal(a as nat);
    lemma_decimal(b as nat);
    let x = hint_name(a);
    let y = hint_name(b);
    assert(x.subrange(8, x.len() - 5) =~= decimal(a as nat));
    assert(y.subrange(8, y.len() - 5) =~= decimal(b as nat));
}

/// A name denotes a data file if it is made of `bitcask-`, at most one `+`,
/// digits and `.rn`, and the digits denote the id.
pub proof fn law_data_file_is_recognised(
    name: Seq<char>,
    plus: bool,
    digits: Seq<char>,
    file_id: u32,
)
    requires
        spells(digits, file_id as nat),
        name == (if plus {
            "bitcask-+"@
        } else {
            "bitcask-"@
        }) + digits + ".rn"@,
    ensures
        data_id(name) == Some(file_id),
{
    reveal_strlit("bitcask-+");
    reveal_strlit("bitcask-");
    reveal_strlit(".rn");
    let middle = name.subrange(8, name.len() - 3);
    assert(name.subrange(0, 8) =~= "bitcask-"@);
    assert(name.subrange(name.len() - 3, name.len() as int) =~= ".rn"@);
    if plus {
        assert(middle[0] == '+');
        assert(middle.skip(1) =~= digits);
    } else {
        assert(middle =~= digits);
        assert('0' <= digits[0]);
    }
}

/// No other name denotes a data file.
pub proof fn law_only_data_files_are_recognised(name: Seq<char>)
    requires
        data_id(name) is Some,
    ensures
        exists|digits: Seq<char>|
            {
                &&& #[trigger] spells(digits, data_id(name)->0 as nat)
                &&& name == "bitcask-"@ + digits + ".rn"@ || name == "bitcask-+"@ + digits + ".rn"@
            },
{
    reveal_strlit("bitcask-+");
    reveal_strlit("bitcask-");
    reveal_strlit(".rn");
    let middle = name.subrange(8, name.len() - 3);
    assert(name =~= "bitcask-"@ + middle + ".rn"@);
    let plus = middle.len() > 0 && middle[0] == '+';
    let digits = if plus {
        middle.skip(1)
    } else {
        middle
    };
    assert forall|i: int| 0 <= i < digits.len() implies '0' <= #[trigger] digits[i] <= '9' by {
        assert(is_digit(digits[i]));
    }
    assert(spells(digits, data_id(name)->0 as nat));
    if plus {
        assert(name =~= "bitcask-+"@ + digits + ".rn"@);
    }
}

/// An id is listed as often as there are data files with that id among the
/// names: no data file is overlooked, none is listed twice, and nothing else is
/// listed.
pub proof fn law_listed_as_often_as_named(names: Seq<Seq<char>>, file_id: u32)
    ensures
        listed_ids(names).to_multiset().count(file_id) == names.filter(
            |name: Seq<char>| data_id(name) == Some(file_id),
        ).len(),
    decreases names.len(),
{
    let named = |name: Seq<char>| data_id(name) == Some(file_id);
    reveal(Seq::filter);
    listed_ids(names).to_multiset_ensures();
    if names.len() > 0 {
        let before = names.drop_last();
        law_listed_as_often_as_named(before, file_id);
        listed_ids(before).to_multiset_ensures();
    }
}

/// Every listed id is that of a data file among the names, and where none is
/// listed, no name denotes a data file.
pub proof fn law_listed_ids_are_named(names: Seq<Seq<char>>)
    ensures
        forall|i: int|
            0 <= i < listed_ids(names).len() ==> exists|j: int|
                0 <= j < names.len() && data_id(#[trigger] names[j]) == Some(
                    #[trigger] listed_ids(names)[i],
                ),
        listed_ids(names).len() == 0 <==> forall|j: int|
            0 <= j < names.len() ==> data_id(#[trigger] names[j]) is None,
        listed_ids(names).len() <= names.len(),
    decreases names.len(),
{
    if names.len() > 0 {
        let before = names.drop_last();
        let n = names.len() - 1;
        law_listed_ids_are_named(before);
        assert forall|i: int| 0 <= i < listed_ids(names).len() implies exists|j: int|
            0 <= j < names.len() && data_id(#[trigger] names[j]) == Some(
                #[trigger] listed_ids(names)[i],
            ) by {
            if i < listed_ids(before).len() {
                let j = choose|j: int|
                    0 <= j < before.len() && data_id(#[trigger] before[j]) == Some(
                        listed_ids(before)[i],
                    );
                assert(names[j] == before[j]);
            } else {
                assert(data_id(names[n]) == Some(listed_ids(names)[i]));
            }
        }
        if forall|j: int| 0 <= j < names.len() ==> data_id(#[trigger] names[j]) is None {
            assert(data_id(names[n]) is None);
            assert forall|j: int| 0 <= j < before.len() implies data_id(
                #[trigger] before[j],
            ) is None by {
                assert(data_id(names[j]) is None);
            }
        }
        if listed_ids(names).len() == 0 {
            assert forall|j: int| 0 <= j < names.len() implies data_id(
                #[trigger] names[j],
            ) is None by {
                if j < n {
                    assert(data_id(before[j]) is None);
                }
            }
        }
    }
}

/// An ascending list never steps down.
pub proof fn law_ascending(ids: Seq<u32>)
    ensures
        ascending(ids) <==> forall|i: int, j: int| 0 <= i < j < ids.len() ==> ids[i] <= ids[j],
{
}

/// A merge supersedes exactly the data files with a lower id than its own.
pub proof fn law_superseded_is_lower(name: Seq<char>, merged_id: u32)
    ensures
        superseded(name, merged_id) <==> data_id(name) is Some && data_id(name)->0 < merged_id,
{
}

/// A hint file is not taken for a data file.
pub proof fn law_hint_file_is_no_data_file(file_id: u32)
    ensures
        data_id(hint_name(file_id)) is None,
{
    reveal_strlit("bitcask-");
    reveal_strlit(".rn");
    reveal_strlit(".hint");
    let name = hint_name(file_id);
    assert(name.last() == 't');
    if ".rn"@.is_suffix_of(name) {
        assert(name.last() == ".rn"@.last());
    }
}

} // verus!
