//! Host text objects: code units in the narrowest of three fixed widths that
//! holds the text, viewed as UTF-8 and built from UTF-8.

use crate::arena::{ucs1_to_utf8_bump, ucs2_to_utf8_bump, ucs4_to_utf8_bump};
use crate::from_utf8::{
    analyze_utf8_simd, overwrite_prefix, utf8_to_ucs1_simd, utf8_to_ucs2_simd, utf8_to_ucs4_simd,
};
use crate::laws::{lemma_round_trip_ucs1, lemma_round_trip_ucs2, lemma_round_trip_ucs4};
use crate::to_utf8::utf8_of_utf16;
use crate::unicode::{
    all_scalars, latin1_of, latin1_scalars, max_scalar, scalars_of, utf16_of, utf8_of,
};
use vstd::prelude::*;
use vstd::utf8::*;

verus! {

broadcast use vstd::seq::group_seq_axioms;

/// The code units of one host text object, in the width its producer chose.
pub enum TextUnits {
    /// One byte per character (Latin-1).
    Ucs1(Vec<u8>),
    /// Two bytes per unit (UTF-16, with surrogate pairs).
    Ucs2(Vec<u16>),
    /// Four bytes per character (scalar values).
    Ucs4(Vec<u32>),
}

impl TextUnits {
    /// The units are well formed for their width.
    pub open spec fn wf(&self) -> bool {
        match self {
            TextUnits::Ucs4(u) => all_scalars(u@),
            _ => true,
        }
    }

    /// The text as UTF-8 bytes.
    pub open spec fn utf8(&self) -> Seq<u8> {
        match self {
            TextUnits::Ucs1(u) => utf8_of(latin1_scalars(u@)),
            TextUnits::Ucs2(u) => utf8_of_utf16(u@),
            TextUnits::Ucs4(u) => utf8_of(u@),
        }
    }
}

/// Every text object of the collection is well formed.
pub open spec fn all_wf(texts: Seq<TextUnits>) -> bool {
    forall|i: int| 0 <= i < texts.len() ==> #[trigger] texts[i].wf()
}

/// A UTF-8 view of a text object: the object's own bytes when they are
/// ASCII Latin-1, otherwise a copy in the arena.
pub fn decode_text<'a>(text: &'a TextUnits, bump: &'a bumpalo::Bump) -> (r: &'a [u8])
    requires
        text.wf(),
    ensures
        r@ == text.utf8(),
{
    match text {
        TextUnits::Ucs1(u) => ucs1_to_utf8_bump(u.as_slice(), bump),
        TextUnits::Ucs2(u) => ucs2_to_utf8_bump(u.as_slice(), bump),
        TextUnits::Ucs4(u) => ucs4_to_utf8_bump(u.as_slice(), bump),
    }
}

/// Every element is at most the largest one.
pub proof fn lemma_max_scalar_bounds(cps: Seq<u32>)
    ensures
        forall|i: int| 0 <= i < cps.len() ==> #[trigger] cps[i] <= max_scalar(cps),
    decreases cps.len(),
{
    if cps.len() > 0 {
        lemma_max_scalar_bounds(cps.drop_last());
        assert forall|i: int| 0 <= i < cps.len() implies #[trigger] cps[i] <= max_scalar(cps) by {
            if i < cps.len() - 1 {
                assert(cps[i] == cps.drop_last()[i]);
            }
        }
    }
}

proof fn lemma_latin1_of_full(cps: Seq<u32>)
    requires
        forall|i: int| 0 <= i < cps.len() ==> #[trigger] cps[i] <= 0xFF,
    ensures
        latin1_of(cps).len() == cps.len(),
    decreases cps.len(),
{
    if cps.len() > 0 {
        let d = cps.drop_last();
        assert(forall|i: int| 0 <= i < d.len() ==> #[trigger] d[i] == cps[i]);
        lemma_latin1_of_full(d);
    }
}

proof fn lemma_utf16_of_bmp(cps: Seq<u32>)
    requires
        forall|i: int| 0 <= i < cps.len() ==> #[trigger] cps[i] <= 0xFFFF,
    ensures
        utf16_of(cps).len() == cps.len(),
    decreases cps.len(),
{
    if cps.len() > 0 {
        let d = cps.drop_last();
        assert(forall|i: int| 0 <= i < d.len() ==> #[trigger] d[i] == cps[i]);
        lemma_utf16_of_bmp(d);
    }
}

/// The narrowest width that holds scalar values up to `max`: 1, 2 or 4 bytes.
pub open spec fn width_for(max: u32) -> int {
    if max <= 0xFF {
        1
    } else if max <= 0xFFFF {
        2
    } else {
        4
    }
}

impl TextUnits {
    /// Bytes per code unit.
    pub open spec fn width(&self) -> int {
        match self {
            TextUnits::Ucs1(_) => 1,
            TextUnits::Ucs2(_) => 2,
            TextUnits::Ucs4(_) => 4,
        }
    }
}

/// Builds the text object for valid UTF-8: one pass finds the number of
/// scalar values and the largest, which picks the narrowest width; a second
/// pass fills code units of that width into a buffer sized once.
pub fn text_from_utf8(input: &[u8]) -> (r: TextUnits)
    requires
        valid_utf8(input@),
    ensures
        r.wf(),
        r.utf8() == input@,
        r.width() == width_for(max_scalar(scalars_of(input@))),
        match r {
            TextUnits::Ucs1(u) => u@ == latin1_of(scalars_of(input@)),
            TextUnits::Ucs2(u) => u@ == utf16_of(scalars_of(input@)),
            TextUnits::Ucs4(u) => u@ == scalars_of(input@),
        },
{
    let ghost cps = scalars_of(input@);
    let (count, max) = analyze_utf8_simd(input);
    proof {
        lemma_max_scalar_bounds(cps);
    }
    if max <= 0xFF {
        let mut buf: Vec<u8> = vec![0u8; count];
        let written = utf8_to_ucs1_simd(input, buf.as_mut_slice());
        proof {
            lemma_latin1_of_full(cps);
            assert(latin1_of(cps).take(count as int) =~= latin1_of(cps));
            assert(buf@ =~= latin1_of(cps));
            lemma_round_trip_ucs1(input@);
        }
        TextUnits::Ucs1(buf)
    } else if max <= 0xFFFF {
        let mut buf: Vec<u16> = vec![0u16; count];
        let ghost orig = buf@;
        let written = utf8_to_ucs2_simd(input, buf.as_mut_slice());
        proof {
            lemma_utf16_of_bmp(cps);
            let k = choose|k: int|
                0 <= k <= cps.len() && written == utf16_of(cps.take(k)).len() && buf@
                    == overwrite_prefix(orig, utf16_of(cps.take(k))) && (k == cps.len()
                    || utf16_of(cps.take(k + 1)).len() > orig.len());
            if k < cps.len() {
                let t = cps.take(k + 1);
                assert(forall|i: int| 0 <= i < t.len() ==> #[trigger] t[i] == cps[i]);
                lemma_utf16_of_bmp(t);
            }
            assert(cps.take(k) =~= cps);
            assert(buf@ =~= utf16_of(cps));
            lemma_round_trip_ucs2(input@);
        }
        TextUnits::Ucs2(buf)
    } else {
        let mut buf: Vec<u32> = vec![0u32; count];
        let written = utf8_to_ucs4_simd(input, buf.as_mut_slice());
        proof {
            assert(cps.take(count as int) =~= cps);
            assert(buf@ =~= cps);
            lemma_round_trip_ucs4(input@);
        }
        TextUnits::Ucs4(buf)
    }
}

} // verus!
