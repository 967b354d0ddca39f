//! Fixed-width little-endian integers.

use vstd::prelude::*;

verus! {

/// 256 to the power of `width`: one more than the largest number that `width`
/// bytes can hold.
pub open spec fn capacity(width: nat) -> nat
    decreases width,
{
    if width == 0 {
        1
    } else {
        256 * capacity((width - 1) as nat)
    }
}

/// The `width` lowest base-256 digits of `x`, least significant first.
pub open spec fn le_bytes(x: nat, width: nat) -> Seq<u8>
    decreases width,
{
    if width == 0 {
        Seq::empty()
    } else {
        seq![(x % 256) as u8] + le_bytes(x / 256, (width - 1) as nat)
    }
}

/// The number whose base-256 digits are `s`, least significant first.
pub open spec fn le_value(s: Seq<u8>) -> nat
    decreases s.len(),
{
    if s.len() == 0 {
        0
    } else {
        s[0] as nat + 256 * le_value(s.skip(1))
    }
}

pub proof fn lemma_le_bytes_len(x: nat, width: nat)
    ensures
        le_bytes(x, width).len() == width,
    decreases width,
{
    if width > 0 {
        lemma_le_bytes_len(x / 256, (width - 1) as nat);
    }
}

/// Reading back the bytes of a number that fits gives the number.
pub proof fn lemma_le_round_trip(x: nat, width: nat)
    requires
        x < capacity(width),
    ensures
        le_value(le_bytes(x, width)) == x,
    decreases width,
{
    if width > 0 {
        let rest = le_bytes(x / 256, (width - 1) as nat);
        lemma_le_round_trip(x / 256, (width - 1) as nat);
        assert(le_bytes(x, width).skip(1) =~= rest);
    }
}

pub proof fn lemma_le_value_bound(s: Seq<u8>)
    ensures
        le_value(s) < capacity(s.len()),
    decreases s.len(),
{
    if s.len() > 0 {
        lemma_le_value_bound(s.skip(1));
    }
}

pub proof fn lemma_capacities()
    ensures
        capacity(4) == 0x1_0000_0000,
        capacity(8) == 0x1_0000_0000_0000_0000,
{
    reveal_with_fuel(capacity, 9);
}

/// Numbers are read with the least significant byte first: each byte counts
/// once, and those behind it 256 times.
pub proof fn law_least_significant_first(first: u8, rest: Seq<u8>)
    ensures
        le_value(Seq::empty()) == 0,
        le_value(seq![first] + rest) == first + 256 * le_value(rest),
{
    assert((seq![first] + rest).skip(1) =~= rest);
}

/// The bytes of a 32-bit number are four, those of a 64-bit number eight, and
/// reading them back gives the number.
pub proof fn law_numbers_round_trip(small: u32, large: u64)
    ensures
        le_bytes(small as nat, 4).len() == 4,
        le_value(le_bytes(small as nat, 4)) == small,
        le_bytes(large as nat, 8).len() == 8,
        le_value(le_bytes(large as nat, 8)) == large,
{
    lemma_capacities();
    lemma_le_bytes_len(small as nat, 4);
    lemma_le_bytes_len(large as nat, 8);
    lemma_le_round_trip(small as nat, 4);
    lemma_le_round_trip(large as nat, 8);
}

/// However many bytes a number is written with, the first one is its lowest
/// base-256 digit and the others are those of the rest.
pub proof fn law_digit_by_digit(x: nat, width: nat)
    ensures
        le_bytes(x, width).len() == width,
        width > 0 ==> {
            &&& le_bytes(x, width)[0] == x % 256
            &&& le_bytes(x, width).skip(1) == le_bytes(x / 256, (width - 1) as nat)
        },
{
    lemma_le_bytes_len(x, width);
    if width > 0 {
        assert(le_bytes(x, width).skip(1) =~= le_bytes(x / 256, (width - 1) as nat));
    }
}

/// Appends the `width` lowest base-256 digits of `x` to `out`.
pub fn push_le(out: &mut Vec<u8>, x: u64, width: usize)
    ensures
        final(out)@ == old(out)@ + le_bytes(x as nat, width as nat),
{
    let mut rest: u64 = x;
    let mut left: usize = width;
    while left > 0
        invariant
            out@ + le_bytes(rest as nat, left as nat) == old(out)@ + le_bytes(
                x as nat,
                width as nat,
            ),
        decreases left,
    {
        let ghost before = out@;
        let ghost tail = le_bytes((rest / 256) as nat, (left - 1) as nat);
        out.push((rest % 256) as u8);
        assert(out@ + tail =~= before + le_bytes(rest as nat, left as nat));
        rest = rest / 256;
        left = left - 1;
    }
    assert(out@ + le_bytes(rest as nat, 0) =~= out@);
}

/// Reads the eight-byte number that starts at `at`.
pub fn read_u64(s: &[u8], at: usize) -> (x: u64)
    requires
        at + 8 <= s.len(),
    ensures
        x == le_value(s@.subrange(at as int, at + 8)),
{
    let mut x: u64 = 0;
    let mut left: usize = 8;
    proof {
        lemma_capacities();
    }
    assert(s@.subrange(at + 8, at + 8) =~= Seq::<u8>::empty());
    while left > 0
        invariant
            left <= 8,
            at + 8 <= s.len(),
            x == le_value(s@.subrange(at + left, at + 8)),
        decreases left,
    {
        let ghost rest = s@.subrange(at + left, at + 8);
        let ghost wider = s@.subrange(at + left - 1, at + 8);
        assert(wider.skip(1) =~= rest);
        proof {
            lemma_le_value_bound(wider);
            lemma_capacities();
            lemma_capacity_monotonic(wider.len(), 8);
        }
        left = left - 1;
        x = x * 256 + s[at + left] as u64;
    }
    x
}

proof fn lemma_capacity_monotonic(a: nat, b: nat)
    requires
        a <= b,
    ensures
        capacity(a) <= capacity(b),
    decreases b,
{
    if a < b {
        lemma_capacity_monotonic(a, (b - 1) as nat);
    }
}

} // verus!
