//! The wire format in mathematical terms: big-endian numbers, initial bytes
//! and heads, and the facts about them that the encoder and the decoder
//! share.

use vstd::arithmetic::div_mod::{lemma_mod_breakdown, lemma_small_mod};
use vstd::prelude::*;

verus! {

/// 256 to the power `n`.
pub open spec fn pow256(n: nat) -> nat
    decreases n,
{
    if n == 0 {
        1
    } else {
        256 * pow256((n - 1) as nat)
    }
}

/// The number that `bytes` spell in base 256, most significant digit first.
pub open spec fn be_value(bytes: Seq<u8>) -> nat
    decreases bytes.len(),
{
    if bytes.len() == 0 {
        0
    } else {
        be_value(bytes.drop_last()) * 256 + bytes.last() as nat
    }
}

/// The `width` lowest digits of `value` in base 256, most significant first.
pub open spec fn be_bytes(value: nat, width: nat) -> Seq<u8>
    decreases width,
{
    if width == 0 {
        Seq::empty()
    } else {
        be_bytes(value / 256, (width - 1) as nat).push((value % 256) as u8)
    }
}

/// The initial byte of a data item: the major type in the top three bits,
/// the additional information in the low five.
pub open spec fn initial_byte(major: u8, info: u8) -> u8
    recommends
        major <= 7,
        info <= 31,
{
    (major * 32 + info) as u8
}

/// The major type that an initial byte announces.
pub open spec fn major_of(byte: u8) -> u8 {
    byte / 32
}

/// The additional information of an initial byte.
pub open spec fn info_of(byte: u8) -> u8 {
    byte % 32
}

/// How many bytes follow an initial byte to hold its argument.
pub open spec fn argument_width(info: u8) -> nat {
    if info == 24 {
        1
    } else if info == 25 {
        2
    } else if info == 26 {
        4
    } else if info == 27 {
        8
    } else {
        0
    }
}

/// The least of the widths 0, 1, 2, 4 and 8 in which `value` fits as the
/// argument of a head. Width 0 holds the values up to 23 in the initial
/// byte itself.
pub open spec fn min_width(value: u64) -> nat {
    if value <= 23 {
        0
    } else if value <= 0xff {
        1
    } else if value <= 0xffff {
        2
    } else if value <= 0xffff_ffff {
        4
    } else {
        8
    }
}

/// Whether `value` can be written as an argument of `width` bytes.
pub open spec fn fits_width(value: u64, width: nat) -> bool {
    if width == 0 {
        value <= 23
    } else {
        (width == 1 || width == 2 || width == 4 || width == 8) && value < pow256(width)
    }
}

/// The additional information that announces an argument of `width` bytes;
/// for width 0 the value itself.
pub open spec fn info_for(value: u64, width: nat) -> u8 {
    if width == 0 {
        value as u8
    } else if width == 1 {
        24
    } else if width == 2 {
        25
    } else if width == 4 {
        26
    } else {
        27
    }
}

/// The head of a data item with the given major type and argument, in the
/// least width that holds the argument.
pub open spec fn head_bytes(major: u8, value: u64) -> Seq<u8>
    recommends
        major <= 7,
{
    let width = min_width(value);
    seq![initial_byte(major, info_for(value, width))] + be_bytes(value as nat, width)
}

/// The head that opens a string, an array or a map of indefinite length.
pub open spec fn indefinite_head(major: u8) -> Seq<u8>
    recommends
        2 <= major <= 5,
{
    seq![initial_byte(major, 31)]
}

/// The first powers of 256.
pub proof fn lemma_pow256_values()
    ensures
        pow256(0) == 1,
        pow256(1) == 0x100,
        pow256(2) == 0x1_0000,
        pow256(3) == 0x100_0000,
        pow256(4) == 0x1_0000_0000,
        pow256(5) == 0x100_0000_0000,
        pow256(6) == 0x1_0000_0000_0000,
        pow256(7) == 0x100_0000_0000_0000,
        pow256(8) == 0x1_0000_0000_0000_0000,
{
    reveal_with_fuel(pow256, 9);
}

/// `be_bytes` yields as many bytes as it was asked for.
pub proof fn lemma_be_bytes_len(value: nat, width: nat)
    ensures
        be_bytes(value, width).len() == width,
    decreases width,
{
    if width > 0 {
        lemma_be_bytes_len(value / 256, (width - 1) as nat);
    }
}

/// A number spelled with `n` bytes is below 256 to the `n`.
pub proof fn lemma_be_value_bound(bytes: Seq<u8>)
    ensures
        be_value(bytes) < pow256(bytes.len()),
    decreases bytes.len(),
{
    if bytes.len() > 0 {
        lemma_be_value_bound(bytes.drop_last());
        let high = be_value(bytes.drop_last());
        let p = pow256((bytes.len() - 1) as nat);
        assert(high * 256 + 255 < 256 * p);
    }
}

/// Reading back what `be_bytes` wrote gives the value, as far as it fitted.
pub proof fn lemma_be_value_of_bytes(value: nat, width: nat)
    ensures
        be_value(be_bytes(value, width)) == value % pow256(width),
    decreases width,
{
    if width == 0 {
    } else {
        let rest = be_bytes(value / 256, (width - 1) as nat);
        let all = be_bytes(value, width);
        lemma_be_value_of_bytes(value / 256, (width - 1) as nat);
        assert(all.drop_last() =~= rest);
        assert(all.last() == (value % 256) as u8);
        let p = pow256((width - 1) as nat);
        lemma_pow256_positive((width - 1) as nat);
        lemma_mod_breakdown(value as int, 256, p as int);
    }
}

/// Every power of 256 is positive.
pub proof fn lemma_pow256_positive(n: nat)
    ensures
        pow256(n) > 0,
    decreases n,
{
    if n > 0 {
        lemma_pow256_positive((n - 1) as nat);
    }
}

/// A value that fits a width is what its bytes in that width spell.
pub proof fn lemma_be_round_trip(value: u64, width: nat)
    requires
        value < pow256(width),
    ensures
        be_value(be_bytes(value as nat, width)) == value,
        be_bytes(value as nat, width).len() == width,
{
    lemma_be_value_of_bytes(value as nat, width);
    lemma_be_bytes_len(value as nat, width);
    lemma_pow256_positive(width);
    lemma_small_mod(value as nat, pow256(width));
}

/// An initial byte falls apart into the major type and the additional
/// information it was made of.
pub proof fn lemma_initial_byte_parts(major: u8, info: u8)
    requires
        major <= 7,
        info <= 31,
    ensures
        major_of(initial_byte(major, info)) == major,
        info_of(initial_byte(major, info)) == info,
        initial_byte(major, info) == major * 32 + info,
{
}

/// The encoder's head is the shortest there is: its argument takes the
/// least of the five widths that holds the value, so no head of another
/// admissible width is shorter.
pub proof fn lemma_head_is_minimal(major: u8, value: u64, width: nat)
    requires
        major <= 7,
        fits_width(value, width),
    ensures
        fits_width(value, min_width(value)),
        head_bytes(major, value).len() == 1 + min_width(value),
        head_bytes(major, value).len() <= 1 + width,
        info_of(head_bytes(major, value)[0]) == info_for(value, min_width(value)),
        argument_width(info_of(head_bytes(major, value)[0])) == min_width(value),
{
    lemma_pow256_values();
    lemma_be_bytes_len(value as nat, min_width(value));
    lemma_initial_byte_parts(major, info_for(value, min_width(value)));
}

} // verus!
