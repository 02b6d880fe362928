//! Mathematical model of the three fixed-width text representations and of
//! their UTF-8 encoding, on top of vstd's UTF-8 definitions.

use vstd::prelude::*;
use vstd::utf8::*;

verus! {

broadcast use vstd::seq::group_seq_axioms;

/// UTF-8 bytes of a sequence of Unicode scalar values.
pub open spec fn utf8_of(cps: Seq<u32>) -> Seq<u8>
    decreases cps.len(),
{
    if cps.len() == 0 {
        seq![]
    } else {
        utf8_of(cps.drop_last()) + encode_scalar(cps.last())
    }
}

/// Every element is a Unicode scalar value.
pub open spec fn all_scalars(cps: Seq<u32>) -> bool {
    forall|i: int| 0 <= i < cps.len() ==> is_scalar(#[trigger] cps[i])
}

/// Scalar values encoded by valid UTF-8 bytes.
pub open spec fn scalars_of(bytes: Seq<u8>) -> Seq<u32> {
    decode_utf8(bytes).map_values(|c: char| c as u32)
}

/// Scalar values held by Latin-1 (one byte per character) code units.
pub open spec fn latin1_scalars(units: Seq<u8>) -> Seq<u32> {
    units.map_values(|b: u8| b as u32)
}

/// All bytes are in the ASCII range.
pub open spec fn all_ascii(bytes: Seq<u8>) -> bool {
    forall|i: int| 0 <= i < bytes.len() ==> #[trigger] bytes[i] < 0x80
}

pub open spec fn is_high_surrogate(u: u16) -> bool {
    0xD800 <= u <= 0xDBFF
}

pub open spec fn is_low_surrogate(u: u16) -> bool {
    0xDC00 <= u <= 0xDFFF
}

/// Scalar value of a surrogate pair.
pub open spec fn combine_surrogates(hi: u16, lo: u16) -> u32 {
    (0x10000u32 + ((((hi as u32) & 0x3FFu32) << 10u32) | ((lo as u32) & 0x3FFu32))) as u32
}

/// Scalar values held by UTF-16 code units. Decoding is lenient: a high
/// surrogate is combined with the unit after it, an isolated low surrogate is
/// skipped, and a high surrogate in last position is dropped.
pub open spec fn utf16_scalars(units: Seq<u16>) -> Seq<u32>
    decreases units.len(),
{
    if units.len() == 0 {
        seq![]
    } else if is_high_surrogate(units[0]) {
        if units.len() >= 2 {
            seq![combine_surrogates(units[0], units[1])] + utf16_scalars(
                units.subrange(2, units.len() as int),
            )
        } else {
            seq![]
        }
    } else if is_low_surrogate(units[0]) {
        utf16_scalars(units.drop_first())
    } else {
        seq![units[0] as u32] + utf16_scalars(units.drop_first())
    }
}

pub open spec fn high_surrogate_of(c: u32) -> u16 {
    (0xD800u32 | (((c - 0x10000u32) as u32) >> 10u32)) as u16
}

pub open spec fn low_surrogate_of(c: u32) -> u16 {
    (0xDC00u32 | (((c - 0x10000u32) as u32) & 0x3FFu32)) as u16
}

/// UTF-16 code units of one scalar value.
pub open spec fn utf16_units(c: u32) -> Seq<u16> {
    if c <= 0xFFFF {
        seq![c as u16]
    } else {
        seq![high_surrogate_of(c), low_surrogate_of(c)]
    }
}

/// UTF-16 code units of a sequence of scalar values.
pub open spec fn utf16_of(cps: Seq<u32>) -> Seq<u16>
    decreases cps.len(),
{
    if cps.len() == 0 {
        seq![]
    } else {
        utf16_of(cps.drop_last()) + utf16_units(cps.last())
    }
}

/// Latin-1 code units of the scalar values that have one; others are left out.
pub open spec fn latin1_of(cps: Seq<u32>) -> Seq<u8>
    decreases cps.len(),
{
    if cps.len() == 0 {
        seq![]
    } else if cps.last() <= 0xFF {
        latin1_of(cps.drop_last()).push(cps.last() as u8)
    } else {
        latin1_of(cps.drop_last())
    }
}

/// Largest element, or 0 for an empty sequence.
pub open spec fn max_scalar(cps: Seq<u32>) -> u32
    decreases cps.len(),
{
    if cps.len() == 0 {
        0
    } else if cps.last() > max_scalar(cps.drop_last()) {
        cps.last()
    } else {
        max_scalar(cps.drop_last())
    }
}

pub proof fn lemma_utf8_of_single(c: u32)
    ensures
        utf8_of(seq![c]) == encode_scalar(c),
{
    let s = seq![c];
    assert(s.drop_last() =~= Seq::<u32>::empty());
    assert(utf8_of(s.drop_last()) == Seq::<u8>::empty());
    assert(utf8_of(s) =~= encode_scalar(c));
}

pub proof fn lemma_utf16_of_single(c: u32)
    ensures
        utf16_of(seq![c]) == utf16_units(c),
{
    let s = seq![c];
    assert(s.drop_last() =~= Seq::<u32>::empty());
    assert(utf16_of(s.drop_last()) == Seq::<u16>::empty());
    assert(utf16_of(s) =~= utf16_units(c));
}

pub proof fn lemma_utf8_of_concat(a: Seq<u32>, b: Seq<u32>)
    ensures
        utf8_of(a + b) == utf8_of(a) + utf8_of(b),
    decreases b.len(),
{
    if b.len() == 0 {
        assert(a + b =~= a);
    } else {
        assert((a + b).drop_last() =~= a + b.drop_last());
        lemma_utf8_of_concat(a, b.drop_last());
    }
}

pub proof fn lemma_utf16_of_concat(a: Seq<u32>, b: Seq<u32>)
    ensures
        utf16_of(a + b) == utf16_of(a) + utf16_of(b),
    decreases b.len(),
{
    if b.len() == 0 {
        assert(a + b =~= a);
    } else {
        assert((a + b).drop_last() =~= a + b.drop_last());
        lemma_utf16_of_concat(a, b.drop_last());
    }
}

/// The UTF-8 bytes of the scalar values of a character sequence are its UTF-8 encoding.
pub proof fn lemma_utf8_of_chars(chars: Seq<char>)
    ensures
        utf8_of(chars.map_values(|c: char| c as u32)) == encode_utf8(chars),
    decreases chars.len(),
{
    if chars.len() > 0 {
        let m = chars.map_values(|c: char| c as u32);
        lemma_utf8_of_chars(chars.drop_first());
        assert(m =~= seq![chars[0] as u32] + chars.drop_first().map_values(|c: char| c as u32));
        lemma_utf8_of_concat(
            seq![chars[0] as u32],
            chars.drop_first().map_values(|c: char| c as u32),
        );
        lemma_utf8_of_single(chars[0] as u32);
    }
}

/// Decoding valid UTF-8 and encoding the scalar values again gives the bytes back.
pub proof fn lemma_utf8_of_scalars_of(bytes: Seq<u8>)
    requires
        valid_utf8(bytes),
    ensures
        utf8_of(scalars_of(bytes)) == bytes,
{
    lemma_utf8_of_chars(decode_utf8(bytes));
    decode_utf8_encode_utf8(bytes);
}

/// Every value decoded from UTF-8 is a scalar value.
pub proof fn lemma_scalars_of_are_scalars(bytes: Seq<u8>)
    ensures
        all_scalars(scalars_of(bytes)),
{
    assert forall|i: int| 0 <= i < scalars_of(bytes).len() implies is_scalar(
        #[trigger] scalars_of(bytes)[i],
    ) by {
        char_is_scalar(decode_utf8(bytes)[i]);
    }
}

/// Bytes below 0x80 encode themselves.
pub proof fn lemma_ascii_utf8_of(units: Seq<u8>)
    requires
        all_ascii(units),
    ensures
        utf8_of(latin1_scalars(units)) == units,
    decreases units.len(),
{
    if units.len() > 0 {
        let d = units.drop_last();
        assert(latin1_scalars(units).drop_last() =~= latin1_scalars(d));
        lemma_ascii_utf8_of(d);
        let b = units.last();
        assert(b < 0x80);
        assert((b as u32 & 0x7F) as u8 == b) by (bit_vector)
            requires
                b < 0x80,
        ;
        assert(units =~= d.push(b));
    }
}

pub proof fn lemma_surrogate_pair(c: u32)
    by (bit_vector)
    requires
        0x10000 <= c <= 0x10FFFF,
    ensures
        is_high_surrogate(high_surrogate_of(c)),
        is_low_surrogate(low_surrogate_of(c)),
        combine_surrogates(high_surrogate_of(c), low_surrogate_of(c)) == c,
{
}

pub proof fn lemma_combine_is_scalar(hi: u16, lo: u16)
    by (bit_vector)
    ensures
        0x10000 <= combine_surrogates(hi, lo) <= 0x10FFFF,
        0x10000u32 + ((((hi as u32) & 0x3FFu32) << 10u32) | ((lo as u32) & 0x3FFu32))
            <= 0x10FFFF,
{
}

/// Encoding scalar values as UTF-16 and decoding them again gives them back.
pub proof fn lemma_utf16_round_trip(cps: Seq<u32>)
    requires
        all_scalars(cps),
    ensures
        utf16_scalars(utf16_of(cps)) == cps,
    decreases cps.len(),
{
    if cps.len() > 0 {
        let c = cps[0];
        let rest = cps.drop_first();
        assert(all_scalars(rest)) by {
            assert forall|i: int| 0 <= i < rest.len() implies is_scalar(#[trigger] rest[i]) by {
                assert(rest[i] == cps[i + 1]);
            }
        }
        assert(is_scalar(cps[0]));
        lemma_utf16_round_trip(rest);
        assert(cps =~= seq![c] + rest);
        lemma_utf16_of_concat(seq![c], rest);
        lemma_utf16_of_single(c);
        let u = utf16_of(cps);
        if c <= 0xFFFF {
            assert(u =~= seq![c as u16] + utf16_of(rest));
            assert(!is_high_surrogate(c as u16) && !is_low_surrogate(c as u16));
            assert(u.drop_first() =~= utf16_of(rest));
            assert((c as u16) as u32 == c);
        } else {
            lemma_surrogate_pair(c);
            assert(u =~= seq![high_surrogate_of(c), low_surrogate_of(c)] + utf16_of(rest));
            assert(u.subrange(2, u.len() as int) =~= utf16_of(rest));
        }
    }
}

} // verus!
