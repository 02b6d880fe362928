//! Transforms shipped with the library.

use crate::engine::TextTransform;
use crate::unicode::all_ascii;
use vstd::prelude::*;

verus! {

/// An ASCII lower-case letter raised to upper case; any other byte unchanged.
pub open spec fn upper_byte(b: u8) -> u8 {
    if 0x61 <= b <= 0x7A {
        (b - 0x20) as u8
    } else {
        b
    }
}

/// All-ASCII text in upper case; any other text unchanged.
pub open spec fn spec_ascii_uppercase(text: Seq<u8>) -> Seq<u8> {
    if all_ascii(text) {
        text.map_values(|b: u8| upper_byte(b))
    } else {
        text
    }
}

/// Upper-cases text that is all ASCII and leaves any other text as it is.
pub struct AsciiUppercase;

impl TextTransform for AsciiUppercase {
    type Output = Vec<u8>;

    open spec fn spec_apply(&self, text: Seq<u8>) -> Seq<u8> {
        spec_ascii_uppercase(text)
    }

    fn apply(&self, text: &[u8]) -> (r: Vec<u8>) {
        let n = text.len();
        let mut ascii = true;
        let mut out: Vec<u8> = Vec::with_capacity(n);
        let mut i: usize = 0;
        while i < n && ascii
            invariant
                i <= n == text@.len(),
                out@.len() == i,
                !ascii ==> !all_ascii(text@),
                forall|k: int| 0 <= k < i ==> #[trigger] out@[k] == upper_byte(text@[k]),
                forall|k: int| 0 <= k < i ==> #[trigger] text@[k] < 0x80,
            decreases n - i + if ascii { 1int } else { 0int },
        {
            let b = text[i];
            if b >= 0x80 {
                ascii = false;
            } else {
                let u = if 0x61 <= b && b <= 0x7A {
                    b - 0x20
                } else {
                    b
                };
                out.push(u);
                i += 1;
            }
        }
        if ascii {
            assert(out@ =~= text@.map_values(|b: u8| upper_byte(b)));
            out
        } else {
            let mut copy: Vec<u8> = Vec::with_capacity(n);
            let mut j: usize = 0;
            while j < n
                invariant
                    j <= n == text@.len(),
                    copy@ == text@.take(j as int),
                decreases n - j,
            {
                copy.push(text[j]);
                j += 1;
                assert(copy@ =~= text@.take(j as int));
            }
            assert(copy@ =~= text@);
            copy
        }
    }
}

} // verus!
