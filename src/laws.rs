//! Round-trip laws of the codecs, stated over the spec functions that the
//! codecs' contracts use.

use crate::to_utf8::utf8_of_utf16;
use crate::unicode::{
    all_scalars, latin1_of, latin1_scalars, lemma_scalars_of_are_scalars, lemma_utf16_round_trip,
    lemma_utf8_of_chars, lemma_utf8_of_scalars_of, scalars_of, utf16_of, utf8_of,
};
use vstd::prelude::*;
use vstd::utf8::*;

verus! {

broadcast use vstd::seq::group_seq_axioms;

/// Valid UTF-8 decoded to UTF-32 (`utf8_to_ucs4_simd`) and encoded back to
/// UTF-8 (`ucs4_to_utf8`) is unchanged.
pub proof fn lemma_round_trip_ucs4(s: Seq<u8>)
    requires
        valid_utf8(s),
    ensures
        all_scalars(scalars_of(s)),
        utf8_of(scalars_of(s)) == s,
{
    lemma_scalars_of_are_scalars(s);
    lemma_utf8_of_scalars_of(s);
}

/// Valid UTF-8 decoded to UTF-16 (`utf8_to_ucs2_simd`) and encoded back to
/// UTF-8 (`ucs2_to_utf8`) is unchanged, surrogate pairs included.
pub proof fn lemma_round_trip_ucs2(s: Seq<u8>)
    requires
        valid_utf8(s),
    ensures
        utf8_of_utf16(utf16_of(scalars_of(s))) == s,
{
    lemma_scalars_of_are_scalars(s);
    lemma_utf16_round_trip(scalars_of(s));
    lemma_utf8_of_scalars_of(s);
}

proof fn lemma_latin1_inverse(cps: Seq<u32>)
    requires
        forall|i: int| 0 <= i < cps.len() ==> #[trigger] cps[i] <= 0xFF,
    ensures
        latin1_scalars(latin1_of(cps)) == cps,
    decreases cps.len(),
{
    if cps.len() > 0 {
        let d = cps.drop_last();
        assert(forall|i: int| 0 <= i < d.len() ==> #[trigger] d[i] == cps[i]);
        lemma_latin1_inverse(d);
        assert(cps.last() <= 0xFF);
        assert(latin1_scalars(latin1_of(cps)) =~= latin1_scalars(latin1_of(d)).push(cps.last()));
        assert(cps =~= d.push(cps.last()));
    }
}

/// Valid UTF-8 whose scalar values are all at most 0xFF, decoded to Latin-1
/// (`utf8_to_ucs1_simd`) and encoded back to UTF-8 (`ucs1_to_utf8`), is unchanged.
pub proof fn lemma_round_trip_ucs1(s: Seq<u8>)
    requires
        valid_utf8(s),
        forall|i: int| 0 <= i < scalars_of(s).len() ==> #[trigger] scalars_of(s)[i] <= 0xFF,
    ensures
        utf8_of(latin1_scalars(latin1_of(scalars_of(s)))) == s,
{
    lemma_latin1_inverse(scalars_of(s));
    lemma_utf8_of_scalars_of(s);
}

/// Scalar values encoded to UTF-8 (`ucs4_to_utf8`) and decoded again
/// (`utf8_to_ucs4_simd`) are unchanged.
pub proof fn lemma_round_trip_utf8(cps: Seq<u32>)
    requires
        all_scalars(cps),
    ensures
        valid_utf8(utf8_of(cps)),
        scalars_of(utf8_of(cps)) == cps,
{
    let chars = cps.map_values(|c: u32| c as char);
    assert(chars.map_values(|c: char| c as u32) =~= cps) by {
        assert forall|i: int| 0 <= i < cps.len() implies (cps[i] as char) as u32 == cps[i] by {
            assert(is_scalar(cps[i]));
        }
    }
    lemma_utf8_of_chars(chars);
    encode_utf8_valid_utf8(chars);
    encode_utf8_decode_utf8(chars);
}

} // verus!
