//! Numbers as bytes, most significant byte first.

use vstd::arithmetic::div_mod::{lemma_div_denominator, lemma_mod_breakdown};
use vstd::arithmetic::power::{lemma_pow0, lemma_pow_positive, pow};
use vstd::prelude::*;

verus! {

/// The number that `bytes` spell, most significant byte first.
pub open spec fn be_value(bytes: Seq<u8>) -> nat
    decreases bytes.len(),
{
    if bytes.len() == 0 {
        0
    } else {
        be_value(bytes.drop_last()) * 256 + bytes.last() as nat
    }
}

/// The last `width` bytes of `n`, most significant byte first.
pub open spec fn be_bytes(n: nat, width: nat) -> Seq<u8>
    decreases width,
{
    if width == 0 {
        Seq::empty()
    } else {
        be_bytes(n / 256, (width - 1) as nat).push((n % 256) as u8)
    }
}

/// How many numbers can be spelled in `width` bytes.
pub open spec fn be_range(width: nat) -> nat
    decreases width,
{
    if width == 0 {
        1
    } else {
        256 * be_range((width - 1) as nat)
    }
}

/// Bytes spell a number that fits in as many bytes.
pub(crate) proof fn lemma_be_value_fits(bytes: Seq<u8>)
    ensures
        be_value(bytes) < be_range(bytes.len()),
    decreases bytes.len(),
{
    if bytes.len() > 0 {
        lemma_be_value_fits(bytes.drop_last());
    }
}

/// `n` bytes longer is a larger range.
proof fn lemma_be_range_grows(small: nat, large: nat)
    requires
        small <= large,
    ensures
        0 < be_range(small) <= be_range(large),
    decreases large,
{
    if small < large {
        lemma_be_range_grows(small, (large - 1) as nat);
    } else if small > 0 {
        lemma_be_range_grows((small - 1) as nat, (small - 1) as nat);
    }
}

/// A number that fits is spelled by its bytes.
pub proof fn law_bytes_spell_the_number(n: nat, width: nat)
    requires
        n < be_range(width),
    ensures
        be_value(be_bytes(n, width)) == n,
        be_bytes(n, width).len() == width,
    decreases width,
{
    if width > 0 {
        law_bytes_spell_the_number(n / 256, (width - 1) as nat);
        assert(be_bytes(n, width).drop_last() =~= be_bytes(n / 256, (width - 1) as nat));
    }
}

/// Bytes are those of the number that they spell.
pub proof fn law_a_number_has_the_bytes_that_spell_it(bytes: Seq<u8>)
    ensures
        be_bytes(be_value(bytes), bytes.len()) == bytes,
    decreases bytes.len(),
{
    if bytes.len() > 0 {
        law_a_number_has_the_bytes_that_spell_it(bytes.drop_last());
        assert(be_bytes(be_value(bytes), bytes.len()) =~= bytes);
    } else {
        assert(be_bytes(be_value(bytes), bytes.len()) =~= bytes);
    }
}

/// A single byte spells itself, and bytes that stand before others count 256
/// times more for each of those.
pub proof fn law_the_first_byte_counts_most(front: Seq<u8>, back: Seq<u8>, byte: u8)
    ensures
        be_value(seq![byte]) == byte,
        be_value(front + back) == be_value(front) * pow(256, back.len()) + be_value(back),
    decreases back.len(),
{
    reveal_with_fuel(be_value, 2);
    assert(seq![byte].drop_last() =~= Seq::<u8>::empty());
    if back.len() == 0 {
        lemma_pow0(256);
        assert(front + back =~= front);
    } else {
        law_the_first_byte_counts_most(front, back.drop_last(), byte);
        assert((front + back).drop_last() =~= front + back.drop_last());
        let power = pow(256, (back.len() - 1) as nat);
        reveal_with_fuel(pow, 2);
        assert(pow(256, back.len()) == 256 * power);
        let value = be_value(front) as int;
        assert((value * power) * 256 == value * (256 * power)) by (nonlinear_arith);
    }
}

/// Each byte of a number has its place: the last counts the ones, the one before
/// it the 256s, and so on.
pub proof fn law_each_byte_has_its_place(n: nat, width: nat, at: int)
    requires
        0 <= at < width,
    ensures
        be_bytes(n, width).len() == width,
        be_bytes(n, width)[at] == (n as int / pow(256, (width - 1 - at) as nat)) % 256,
    decreases width,
{
    lemma_length_of_bytes(n, width);
    lemma_length_of_bytes(n / 256, (width - 1) as nat);
    if at == width - 1 {
        lemma_pow0(256);
    } else {
        law_each_byte_has_its_place(n / 256, (width - 1) as nat, at);
        let power = pow(256, (width - 2 - at) as nat);
        lemma_pow_positive(256, (width - 2 - at) as nat);
        lemma_div_denominator(n as int, 256, power);
        reveal_with_fuel(pow, 2);
        assert(pow(256, (width - 1 - at) as nat) == 256 * power);
    }
}

/// A number has as many bytes as it is written in.
proof fn lemma_length_of_bytes(n: nat, width: nat)
    ensures
        be_bytes(n, width).len() == width,
    decreases width,
{
    if width > 0 {
        lemma_length_of_bytes(n / 256, (width - 1) as nat);
    }
}

/// Of a number that takes more bytes than it is written in, what its last bytes
/// spell is left.
pub proof fn law_the_last_bytes_are_left(n: nat, width: nat)
    ensures
        be_range(width) > 0,
        be_value(be_bytes(n, width)) == n as int % be_range(width) as int,
    decreases width,
{
    lemma_be_range_grows(width, width);
    if width > 0 {
        let fewer = (width - 1) as nat;
        law_the_last_bytes_are_left(n / 256, fewer);
        assert(be_bytes(n, width).drop_last() =~= be_bytes(n / 256, fewer));
        lemma_mod_breakdown(n as int, 256, be_range(fewer) as int);
    }
}

/// With one byte more, a number is 256 times as large and has that byte added.
pub(crate) proof fn lemma_one_byte_more(bytes: Seq<u8>, from: int, to: int)
    requires
        0 <= from <= to < bytes.len(),
    ensures
        be_value(bytes.subrange(from, to + 1)) == be_value(bytes.subrange(from, to)) * 256
            + bytes[to],
        be_value(bytes.subrange(from, from)) == 0,
{
    assert(bytes.subrange(from, to + 1).drop_last() =~= bytes.subrange(from, to));
}

/// The number that the bytes from `from` to `to` spell.
pub(crate) fn read_be(bytes: &[u8], from: usize, to: usize) -> (value: u64)
    requires
        from <= to <= bytes@.len(),
        to - from <= 8,
    ensures
        value == be_value(bytes@.subrange(from as int, to as int)),
        value < be_range((to - from) as nat),
{
    let mut value: u64 = 0;
    let mut i: usize = from;
    while i < to
        invariant
            from <= i <= to <= bytes@.len(),
            to - from <= 8,
            value == be_value(bytes@.subrange(from as int, i as int)),
        decreases to - i,
    {
        let ghost longer = bytes@.subrange(from as int, i + 1);
        proof {
            assert(longer.drop_last() =~= bytes@.subrange(from as int, i as int));
            lemma_be_value_fits(longer);
            lemma_be_range_grows(longer.len(), 8);
            assert(be_range(8) == 0x1_0000_0000_0000_0000) by {
                reveal_with_fuel(be_range, 9);
            }
        }
        value = value * 256 + bytes[i] as u64;
        i += 1;
    }
    proof {
        lemma_be_value_fits(bytes@.subrange(from as int, to as int));
    }
    value
}

/// The last `width` bytes of `n`.
pub(crate) fn write_be(n: u64, width: usize) -> (bytes: Vec<u8>)
    ensures
        bytes@ == be_bytes(n as nat, width as nat),
    decreases width,
{
    if width == 0 {
        return Vec::new();
    }
    let mut bytes: Vec<u8> = write_be(n / 256, width - 1);
    bytes.push((n % 256) as u8);
    bytes
}

} // verus!
