//! Fixed-width little-endian integers, and parts of byte sequences.

use vstd::prelude::*;

verus! {

/// 256 raised to `width`: the number of values that fit in `width` bytes.
pub open spec fn pow256(width: nat) -> nat
    decreases width,
{
    if width == 0 {
        1
    } else {
        256 * pow256((width - 1) as nat)
    }
}

/// The low `width` bytes of `value`, least significant byte first.
pub open spec fn le_bytes(value: nat, width: nat) -> Seq<u8>
    decreases width,
{
    if width == 0 {
        Seq::empty()
    } else {
        seq![(value % 256) as u8] + le_bytes(value / 256, (width - 1) as nat)
    }
}

/// The number that `bytes` denote, least significant byte first.
pub open spec fn le_value(bytes: Seq<u8>) -> nat
    decreases bytes.len(),
{
    if bytes.len() == 0 {
        0
    } else {
        bytes[0] as nat + 256 * le_value(bytes.subrange(1, bytes.len() as int))
    }
}

pub proof fn lemma_le_len(value: nat, width: nat)
    ensures
        le_bytes(value, width).len() == width,
    decreases width,
{
    if width > 0 {
        lemma_le_len(value / 256, (width - 1) as nat);
    }
}

pub proof fn lemma_pow256_values()
    ensures
        pow256(4) == 0x1_0000_0000,
        pow256(8) == 0x1_0000_0000_0000_0000,
{
    reveal_with_fuel(pow256, 9);
}

/// Reading back a number that fits in `width` bytes gives the number.
pub proof fn lemma_le_round_trip(value: nat, width: nat)
    requires
        value < pow256(width),
    ensures
        le_value(le_bytes(value, width)) == value,
        le_bytes(value, width).len() == width,
    decreases width,
{
    lemma_le_len(value, width);
    if width > 0 {
        let rest = le_bytes(value / 256, (width - 1) as nat);
        assert(value / 256 < pow256((width - 1) as nat));
        lemma_le_round_trip(value / 256, (width - 1) as nat);
        let bytes = le_bytes(value, width);
        assert(bytes.subrange(1, bytes.len() as int) =~= rest);
        assert(bytes[0] as nat == value % 256);
    }
}

/// What `bytes` denote fits in as many bytes.
pub proof fn lemma_le_value_bound(bytes: Seq<u8>)
    ensures
        le_value(bytes) < pow256(bytes.len()),
    decreases bytes.len(),
{
    if bytes.len() > 0 {
        lemma_le_value_bound(bytes.subrange(1, bytes.len() as int));
    }
}

/// Appends the low `width` bytes of `value` to `out`.
pub fn push_le(out: &mut Vec<u8>, value: u64, width: usize)
    ensures
        final(out)@ == old(out)@ + le_bytes(value as nat, width as nat),
{
    let mut rest: u64 = value;
    let mut written: usize = 0;
    while written < width
        invariant
            written <= width,
            old(out)@ + le_bytes(value as nat, width as nat) =~= out@ + le_bytes(
                rest as nat,
                (width - written) as nat,
            ),
        decreases width - written,
    {
        out.push((rest % 256) as u8);
        rest = rest / 256;
        written = written + 1;
    }
}

/// The number that up to eight bytes denote.
pub fn read_le(bytes: &[u8]) -> (value: u64)
    requires
        bytes@.len() <= 8,
    ensures
        value == le_value(bytes@),
{
    let mut value: u64 = 0;
    let mut index: usize = bytes.len();
    while index > 0
        invariant
            index <= bytes@.len() <= 8,
            value == le_value(bytes@.subrange(index as int, bytes@.len() as int)),
        decreases index,
    {
        index = index - 1;
        proof {
            let tail = bytes@.subrange(index as int, bytes@.len() as int);
            assert(tail.subrange(1, tail.len() as int) =~= bytes@.subrange(
                index + 1,
                bytes@.len() as int,
            ));
            lemma_le_value_bound(tail);
            lemma_pow256_monotone(tail.len(), 8);
            lemma_pow256_values();
        }
        value = bytes[index] as u64 + 256 * value;
    }
    assert(bytes@.subrange(0, bytes@.len() as int) =~= bytes@);
    value
}

/// Whether `part` stands in `bytes` at `at`.
pub open spec fn holds_at(bytes: Seq<u8>, at: nat, part: Seq<u8>) -> bool {
    &&& at + part.len() <= bytes.len()
    &&& bytes.subrange(at as int, (at + part.len()) as int) == part
}

/// Where two parts stand behind each other, each of them stands.
pub proof fn lemma_holds_parts(bytes: Seq<u8>, at: nat, first: Seq<u8>, second: Seq<u8>)
    requires
        holds_at(bytes, at, first + second),
    ensures
        holds_at(bytes, at, first),
        holds_at(bytes, at + first.len(), second),
{
    let whole = bytes.subrange(at as int, (at + (first + second).len()) as int);
    assert(whole =~= first + second);
    assert(bytes.subrange(at as int, (at + first.len()) as int) =~= whole.take(first.len() as int));
    assert((first + second).take(first.len() as int) =~= first);
    assert(bytes.subrange(
        (at + first.len()) as int,
        (at + first.len() + second.len()) as int,
    ) =~= whole.skip(first.len() as int));
    assert((first + second).skip(first.len() as int) =~= second);
}

proof fn lemma_pow256_monotone(small: nat, large: nat)
    requires
        small <= large,
    ensures
        pow256(small) <= pow256(large),
    decreases large,
{
    if small < large {
        lemma_pow256_monotone(small, (large - 1) as nat);
    }
}

/// A part stands where it stood when more bytes follow.
pub proof fn lemma_holds_longer(front: Seq<u8>, behind: Seq<u8>, at: nat, part: Seq<u8>)
    requires
        holds_at(front, at, part),
    ensures
        holds_at(front + behind, at, part),
{
    assert((front + behind).subrange(at as int, (at + part.len()) as int) =~= front.subrange(
        at as int,
        (at + part.len()) as int,
    ));
}

/// Bytes that follow others stand behind them.
pub proof fn lemma_holds_behind(front: Seq<u8>, behind: Seq<u8>)
    ensures
        holds_at(front + behind, front.len(), behind),
{
    assert((front + behind).subrange(front.len() as int, (front.len() + behind.len()) as int)
        =~= behind);
}

/// The lowest byte comes first: each byte tells how often the power of 256 at its place
/// goes into the number.
pub proof fn lemma_lowest_byte_first(value: nat, width: nat, place: nat)
    requires
        place < width,
    ensures
        le_bytes(value, width)[place as int] as int == value / pow256(place) % 256,
    decreases place,
{
    lemma_le_len(value, width);
    if place > 0 {
        let rest = (place - 1) as nat;
        lemma_lowest_byte_first(value / 256, (width - 1) as nat, rest);
        lemma_pow256_positive(rest);
        vstd::arithmetic::div_mod::lemma_div_denominator(value as int, 256, pow256(rest) as int);
        assert(le_bytes(value, width)[place as int] == le_bytes(
            value / 256,
            (width - 1) as nat,
        )[rest as int]);
        assert(value / pow256(place) == value / 256 / pow256(rest));
    } else {
        assert(pow256(0) == 1);
        assert(value / 1 == value);
    }
}

proof fn lemma_pow256_positive(width: nat)
    ensures
        pow256(width) > 0,
    decreases width,
{
    if width > 0 {
        lemma_pow256_positive((width - 1) as nat);
    }
}

} // verus!
