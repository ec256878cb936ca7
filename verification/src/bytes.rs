//! Little-endian integers in byte strings.

use vstd::arithmetic::div_mod::lemma_div_denominator;
use vstd::arithmetic::power::{lemma_pow0, lemma_pow_positive, pow};
use vstd::prelude::*;

verus! {

/// The number that `bytes` spell, least significant byte first.
pub open spec fn le_value(bytes: Seq<u8>) -> nat
    decreases bytes.len(),
{
    if bytes.len() == 0 {
        0
    } else {
        bytes[0] as nat + 256 * le_value(bytes.drop_first())
    }
}

/// The `width` bytes that spell `value`, least significant byte first.
pub open spec fn le_bytes(value: nat, width: nat) -> Seq<u8>
    decreases width,
{
    if width == 0 {
        Seq::empty()
    } else {
        seq![(value % 256) as u8] + le_bytes(value / 256, (width - 1) as nat)
    }
}

/// How many numbers `width` bytes can spell.
pub open spec fn le_limit(width: nat) -> nat
    decreases width,
{
    if width == 0 {
        1
    } else {
        256 * le_limit((width - 1) as nat)
    }
}

/// The limits of the widths in use.
pub proof fn lemma_limits()
    ensures
        le_limit(2) == 0x1_0000,
        le_limit(8) == 0x1_0000_0000_0000_0000,
{
    reveal_with_fuel(le_limit, 9);
}

/// Bytes spell numbers below the limit of their width.
pub proof fn lemma_le_value_below_limit(bytes: Seq<u8>)
    ensures
        le_value(bytes) < le_limit(bytes.len()),
    decreases bytes.len(),
{
    if bytes.len() > 0 {
        lemma_le_value_below_limit(bytes.drop_first());
    }
}

/// A number below the limit of a width can be read back from its bytes.
pub proof fn lemma_le_round_trip(value: nat, width: nat)
    requires
        value < le_limit(width),
    ensures
        le_bytes(value, width).len() == width,
        le_value(le_bytes(value, width)) == value,
    decreases width,
{
    if width > 0 {
        lemma_le_round_trip(value / 256, (width - 1) as nat);
        assert(le_bytes(value, width).drop_first() =~= le_bytes(value / 256, (width - 1) as nat));
    }
}

/// Appends the `width` bytes that spell `value`.
pub fn put_le(out: &mut Vec<u8>, value: u64, width: usize)
    ensures
        final(out)@ == old(out)@ + le_bytes(value as nat, width as nat),
{
    let ghost start = out@;
    let mut rest: u64 = value;
    let mut left: usize = width;
    assert(out@ + le_bytes(rest as nat, left as nat) =~= start + le_bytes(
        value as nat,
        width as nat,
    ));
    while left > 0
        invariant
            out@ + le_bytes(rest as nat, left as nat) == start + le_bytes(
                value as nat,
                width as nat,
            ),
        decreases left,
    {
        let ghost spelled = out@ + le_bytes(rest as nat, left as nat);
        let byte: u8 = (rest % 256) as u8;
        out.push(byte);
        rest = rest / 256;
        left = left - 1;
        assert(out@ + le_bytes(rest as nat, left as nat) =~= spelled);
    }
    assert(out@ + le_bytes(rest as nat, 0) =~= out@);
}

/// Appends `data`.
pub fn put_all(out: &mut Vec<u8>, data: &[u8])
    ensures
        final(out)@ == old(out)@ + data@,
{
    out.extend_from_slice(data);
    assert(out@ =~= old(out)@ + data@);
}

/// Reads the number that the `width` bytes from `at` on spell.
pub fn get_le(bytes: &[u8], at: usize, width: usize) -> (value: u64)
    requires
        width <= 8,
        at + width <= bytes@.len(),
    ensures
        value == le_value(bytes@.subrange(at as int, at + width)),
        value < le_limit(width as nat),
{
    let total: usize = bytes.len();
    let mut value: u64 = 0;
    let mut left: usize = width;
    while left > 0
        invariant
            width <= 8,
            left <= width,
            at + width <= total,
            total == bytes@.len(),
            value == le_value(bytes@.subrange(at + left, at + width)),
        decreases left,
    {
        let ghost spelled = bytes@.subrange(at + left, at + width);
        left = left - 1;
        proof {
            lemma_le_value_below_limit(spelled);
            reveal_with_fuel(le_limit, 9);
            assert(bytes@.subrange(at + left, at + width).drop_first() =~= spelled);
        }
        value = bytes[at + left] as u64 + 256 * value;
    }
    proof {
        lemma_le_value_below_limit(bytes@.subrange(at as int, at + width));
    }
    value
}

/// Byte `i` of a number has the weight of the `i`th power of 256: the least
/// significant byte comes first.
pub proof fn law_bytes_are_little_endian(value: nat, width: nat, i: int)
    requires
        0 <= i < width,
    ensures
        le_bytes(value, width).len() == width,
        le_bytes(value, width)[i] == (value as int / pow(256, i as nat)) % 256,
    decreases width,
{
    let rest = (width - 1) as nat;
    lemma_le_bytes_len(value, width);
    if i == 0 {
        lemma_pow0(256);
    } else {
        law_bytes_are_little_endian(value / 256, rest, i - 1);
        assert(le_bytes(value, width)[i] == le_bytes(value / 256, rest)[i - 1]);
        lemma_pow_positive(256, (i - 1) as nat);
        lemma_div_denominator(value as int, 256, pow(256, (i - 1) as nat));
        reveal(pow);
    }
}

/// A number takes as many bytes as it is given.
proof fn lemma_le_bytes_len(value: nat, width: nat)
    ensures
        le_bytes(value, width).len() == width,
    decreases width,
{
    if width > 0 {
        lemma_le_bytes_len(value / 256, (width - 1) as nat);
    }
}

/// Numbers and the bytes that spell them are in one-to-one correspondence:
/// either way and back gives what was there.
pub proof fn law_spelling_is_one_to_one(bytes: Seq<u8>, value: nat)
    ensures
        le_bytes(le_value(bytes), bytes.len()) == bytes,
        le_limit(bytes.len()) == pow(256, bytes.len()),
        value < pow(256, bytes.len()) ==> le_value(le_bytes(value, bytes.len())) == value,
    decreases bytes.len(),
{
    lemma_limit_is_power(bytes.len());
    if bytes.len() > 0 {
        let rest = bytes.drop_first();
        law_spelling_is_one_to_one(rest, 0);
        let v = le_value(bytes);
        assert(v % 256 == bytes[0] && v / 256 == le_value(rest)) by {
            assert(v == bytes[0] as nat + 256 * le_value(rest));
        }
        assert(le_bytes(v, bytes.len()) =~= seq![bytes[0]] + rest);
        assert(seq![bytes[0]] + rest =~= bytes);
    } else {
        assert(le_bytes(le_value(bytes), 0) =~= bytes);
    }
    if value < pow(256, bytes.len()) {
        lemma_le_round_trip(value, bytes.len());
    }
}

/// The limit of a width is a power of 256.
proof fn lemma_limit_is_power(width: nat)
    ensures
        le_limit(width) == pow(256, width),
    decreases width,
{
    reveal(pow);
    if width > 0 {
        lemma_limit_is_power((width - 1) as nat);
    }
}

} // verus!
