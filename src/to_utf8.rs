//! Fixed-width (Latin-1, UTF-16, UTF-32) to UTF-8 codecs. Long inputs go
//! through a block loop with an all-ASCII fast path, short ones through a
//! plain per-unit loop; both produce the same bytes.

use crate::unicode::{
    all_ascii, all_scalars, combine_surrogates, latin1_scalars, lemma_ascii_utf8_of, lemma_combine_is_scalar, lemma_utf8_of_concat, lemma_utf8_of_single,
    utf16_scalars, utf8_of,
};
use vstd::prelude::*;
use vstd::utf8::*;

verus! {

broadcast use vstd::seq::group_seq_axioms;

/// Block width, in code units, of the fast path over Latin-1 input.
pub const LANES_U8: usize = 16;

/// Block width, in code units, of the fast path over UTF-16 input.
pub const LANES_U16: usize = 8;

/// Block width, in code units, of the fast path over UTF-32 input.
pub const LANES_U32: usize = 4;

/// Latin-1 inputs shorter than this take the per-unit loop.
pub const THRESHOLD_UCS1: usize = 96;

/// UTF-16 inputs shorter than this take the per-unit loop.
pub const THRESHOLD_UCS2: usize = 48;

/// UTF-32 inputs shorter than this take the per-unit loop.
pub const THRESHOLD_UCS4: usize = 32;

/// UTF-8 text that either borrows the input it was decoded from (all-ASCII
/// input, no copy) or owns a freshly written buffer.
pub enum Utf8View<'a> {
    Borrowed(&'a [u8]),
    Owned(Vec<u8>),
}

impl<'a> View for Utf8View<'a> {
    type V = Seq<u8>;

    open spec fn view(&self) -> Seq<u8> {
        match self {
            Utf8View::Borrowed(b) => b@,
            Utf8View::Owned(v) => v@,
        }
    }
}

impl<'a> Utf8View<'a> {
    /// The UTF-8 bytes.
    pub fn as_bytes(&self) -> (r: &[u8])
        ensures
            r@ == self@,
    {
        match self {
            Utf8View::Borrowed(b) => b,
            Utf8View::Owned(v) => v.as_slice(),
        }
    }

    /// True when the bytes are the input itself rather than a copy.
    pub fn is_borrowed(&self) -> (r: bool)
        ensures
            r == (self is Borrowed),
    {
        match self {
            Utf8View::Borrowed(_) => true,
            Utf8View::Owned(_) => false,
        }
    }

    /// Number of UTF-8 bytes.
    pub fn len(&self) -> (r: usize)
        ensures
            r == self@.len(),
    {
        self.as_bytes().len()
    }
}

pub proof fn lemma_utf8_of_push(cps: Seq<u32>, c: u32)
    ensures
        utf8_of(cps.push(c)) == utf8_of(cps) + encode_scalar(c),
{
    assert(cps.push(c).drop_last() =~= cps);
}

proof fn lemma_utf8_of_prepend(c: u32, rest: Seq<u32>)
    ensures
        utf8_of(seq![c] + rest) == encode_scalar(c) + utf8_of(rest),
{
    lemma_utf8_of_concat(seq![c], rest);
    lemma_utf8_of_single(c);
}

proof fn lemma_ascii_byte(b: u8)
    by (bit_vector)
    requires
        b < 0x80,
    ensures
        ((b as u32) & 0x7F) as u8 == b,
{
}

proof fn lemma_latin1_split(units: Seq<u8>, i: int, j: int, k: int)
    requires
        0 <= i <= j <= k <= units.len(),
    ensures
        utf8_of(latin1_scalars(units.subrange(i, k))) == utf8_of(
            latin1_scalars(units.subrange(i, j)),
        ) + utf8_of(latin1_scalars(units.subrange(j, k))),
{
    assert(latin1_scalars(units.subrange(i, k)) =~= latin1_scalars(units.subrange(i, j))
        + latin1_scalars(units.subrange(j, k)));
    lemma_utf8_of_concat(
        latin1_scalars(units.subrange(i, j)),
        latin1_scalars(units.subrange(j, k)),
    );
}

/// UTF-8 output of Latin-1 input is at most twice as long.
pub proof fn lemma_latin1_utf8_len(units: Seq<u8>)
    ensures
        utf8_of(latin1_scalars(units)).len() <= 2 * units.len(),
    decreases units.len(),
{
    if units.len() > 0 {
        assert(latin1_scalars(units).drop_last() =~= latin1_scalars(units.drop_last()));
        lemma_latin1_utf8_len(units.drop_last());
    }
}

/// Appends the 4-byte UTF-8 encoding of a supplementary-plane scalar value.
pub fn push_utf8_4(cp: u32, out: &mut Vec<u8>)
    requires
        has_width_4_encoding(cp),
    ensures
        final(out)@ == old(out)@ + encode_scalar(cp),
{
    out.push(0xF0u8 | ((cp >> 18) & 0x7) as u8);
    out.push(0x80u8 | ((cp >> 12) & 0x3F) as u8);
    out.push(0x80u8 | ((cp >> 6) & 0x3F) as u8);
    out.push(0x80u8 | (cp & 0x3F) as u8);
    assert(final(out)@ =~= old(out)@ + encode_scalar(cp));
}

/// Appends the UTF-8 encoding of one scalar value.
pub fn push_utf32_scalar(cp: u32, out: &mut Vec<u8>)
    requires
        is_scalar(cp),
    ensures
        final(out)@ == old(out)@ + encode_scalar(cp),
{
    if cp <= 0x7F {
        out.push((cp & 0x7F) as u8);
    } else if cp <= 0x7FF {
        out.push(0xC0u8 | ((cp >> 6) & 0x1F) as u8);
        out.push(0x80u8 | (cp & 0x3F) as u8);
    } else if cp <= 0xFFFF {
        out.push(0xE0u8 | ((cp >> 12) & 0x0F) as u8);
        out.push(0x80u8 | ((cp >> 6) & 0x3F) as u8);
        out.push(0x80u8 | (cp & 0x3F) as u8);
    } else {
        push_utf8_4(cp, out);
    }
    assert(final(out)@ =~= old(out)@ + encode_scalar(cp));
}

/// Appends the UTF-8 encoding of the Latin-1 units `input[start..end]`.
fn expand_latin1_block(input: &[u8], start: usize, end: usize, out: &mut Vec<u8>)
    requires
        start <= end <= input@.len(),
    ensures
        final(out)@ == old(out)@ + utf8_of(latin1_scalars(input@.subrange(start as int, end as int))),
{
    let mut j = start;
    while j < end
        invariant
            start <= j <= end <= input@.len(),
            out@ == old(out)@ + utf8_of(latin1_scalars(input@.subrange(start as int, j as int))),
        decreases end - j,
    {
        let b = input[j];
        proof {
            assert(latin1_scalars(input@.subrange(start as int, j + 1)) =~= latin1_scalars(
                input@.subrange(start as int, j as int),
            ).push(b as u32));
            lemma_utf8_of_push(latin1_scalars(input@.subrange(start as int, j as int)), b as u32);
        }
        if b < 0x80 {
            proof {
                lemma_ascii_byte(b);
            }
            out.push(b);
        } else {
            push_utf32_scalar(b as u32, out);
        }
        j += 1;
    }
}

/// True when every byte of `input[start..end]` is below 0x80.
fn block_is_ascii(input: &[u8], start: usize, end: usize) -> (r: bool)
    requires
        start <= end <= input@.len(),
    ensures
        r == all_ascii(input@.subrange(start as int, end as int)),
{
    let mut j = start;
    while j < end
        invariant
            start <= j <= end <= input@.len(),
            all_ascii(input@.subrange(start as int, j as int)),
        decreases end - j,
    {
        if input[j] >= 0x80 {
            assert(input@.subrange(start as int, end as int)[j - start] == input@[j as int]);
            return false;
        }
        assert(input@.subrange(start as int, j + 1) =~= input@.subrange(start as int, j as int).push(input@[j as int]));
        j += 1;
    }
    true
}

/// Appends the ASCII bytes `input[start..end]` unchanged.
fn copy_ascii_block(input: &[u8], start: usize, end: usize, out: &mut Vec<u8>)
    requires
        start <= end <= input@.len(),
        all_ascii(input@.subrange(start as int, end as int)),
    ensures
        final(out)@ == old(out)@ + utf8_of(latin1_scalars(input@.subrange(start as int, end as int))),
{
    let mut j = start;
    while j < end
        invariant
            start <= j <= end <= input@.len(),
            out@ == old(out)@ + input@.subrange(start as int, j as int),
        decreases end - j,
    {
        out.push(input[j]);
        assert(input@.subrange(start as int, j + 1) =~= input@.subrange(start as int, j as int).push(input@[j as int]));
        j += 1;
    }
    proof {
        lemma_ascii_utf8_of(input@.subrange(start as int, end as int));
    }
}

fn ucs1_to_utf8_scalar<'a>(input: &'a [u8]) -> (r: Utf8View<'a>)
    ensures
        r@ == utf8_of(latin1_scalars(input@)),
        (r is Borrowed) == all_ascii(input@),
        r is Borrowed ==> r->Borrowed_0@ == input@,
{
    let n = input.len();
    proof {
        assert(input@.subrange(0, n as int) =~= input@);
    }
    if block_is_ascii(input, 0, n) {
        proof {
            lemma_ascii_utf8_of(input@);
        }
        return Utf8View::Borrowed(input);
    }
    let mut extra: usize = 0;
    let mut j: usize = 0;
    while j < n
        invariant
            j <= n == input@.len(),
            extra <= j,
        decreases n - j,
    {
        if input[j] >= 0x80 {
            extra += 1;
        }
        j += 1;
    }
    let mut out: Vec<u8> = Vec::with_capacity(n.saturating_add(extra));
    expand_latin1_block(input, 0, n, &mut out);
    Utf8View::Owned(out)
}

/// Converts Latin-1 code units to UTF-8. All-ASCII input is returned as a
/// borrowed view of the input itself; any other input is written to a new buffer.
pub fn ucs1_to_utf8<'a>(input: &'a [u8]) -> (r: Utf8View<'a>)
    ensures
        r@ == utf8_of(latin1_scalars(input@)),
        (r is Borrowed) == all_ascii(input@),
        r is Borrowed ==> r->Borrowed_0@ == input@,
        r@.len() <= 2 * input@.len(),
{
    proof {
        lemma_latin1_utf8_len(input@);
    }
    let n = input.len();
    if n < THRESHOLD_UCS1 {
        return ucs1_to_utf8_scalar(input);
    }
    proof {
        assert(input@.subrange(0, n as int) =~= input@);
    }
    // all-ASCII detection, block by block
    let mut i: usize = 0;
    let mut ascii = true;
    while n - i >= LANES_U8 && ascii
        invariant
            i <= n == input@.len(),
            ascii ==> all_ascii(input@.subrange(0, i as int)),
            !ascii ==> !all_ascii(input@),
        decreases n - i + if ascii { 1int } else { 0int },
    {
        if block_is_ascii(input, i, i + LANES_U8) {
            proof {
                assert(input@.subrange(0, i + LANES_U8) =~= input@.subrange(0, i as int)
                    + input@.subrange(i as int, i + LANES_U8));
                let s = input@.subrange(0, i + LANES_U8);
                assert forall|k: int| 0 <= k < s.len() implies #[trigger] s[k] < 0x80 by {
                    if k >= i {
                        assert(s[k] == input@.subrange(i as int, i + LANES_U8)[k - i]);
                    } else {
                        assert(s[k] == input@.subrange(0, i as int)[k]);
                    }
                }
            }
            i += LANES_U8;
        } else {
            proof {
                let s = input@.subrange(i as int, i + LANES_U8);
                let k = choose|k: int| 0 <= k < s.len() && !(s[k] < 0x80);
                assert(input@[i + k] == s[k]);
            }
            ascii = false;
        }
    }
    if ascii {
        if block_is_ascii(input, i, n) {
            proof {
                let s = input@;
                assert forall|k: int| 0 <= k < s.len() implies #[trigger] s[k] < 0x80 by {
                    if k >= i {
                        assert(s[k] == input@.subrange(i as int, n as int)[k - i]);
                    } else {
                        assert(s[k] == input@.subrange(0, i as int)[k]);
                    }
                }
                lemma_ascii_utf8_of(input@);
            }
            return Utf8View::Borrowed(input);
        }
        proof {
            let s = input@.subrange(i as int, n as int);
            let k = choose|k: int| 0 <= k < s.len() && !(s[k] < 0x80);
            assert(input@[i + k] == s[k]);
        }
    }
    let mut out: Vec<u8> = Vec::with_capacity(n.saturating_add(n));
    let mut i: usize = 0;
    while n - i >= LANES_U8
        invariant
            i <= n == input@.len(),
            out@ == utf8_of(latin1_scalars(input@.subrange(0, i as int))),
        decreases n - i,
    {
        proof {
            lemma_latin1_split(input@, 0, i as int, i + LANES_U8);
        }
        if block_is_ascii(input, i, i + LANES_U8) {
            copy_ascii_block(input, i, i + LANES_U8, &mut out);
        } else {
            expand_latin1_block(input, i, i + LANES_U8, &mut out);
        }
        i += LANES_U8;
    }
    proof {
        lemma_latin1_split(input@, 0, i as int, n as int);
    }
    expand_latin1_block(input, i, n, &mut out);
    Utf8View::Owned(out)
}

/// UTF-8 bytes of the scalar values held by UTF-16 code units.
pub open spec fn utf8_of_utf16(units: Seq<u16>) -> Seq<u8> {
    utf8_of(utf16_scalars(units))
}

/// Expands UTF-16 units from `start` until at least `end`; a surrogate pair
/// that starts at `end - 1` is consumed whole. Returns where it stopped.
fn expand_ucs2_block(input: &[u16], start: usize, end: usize, out: &mut Vec<u8>) -> (r: usize)
    requires
        start <= end <= input@.len(),
    ensures
        end <= r <= input@.len(),
        r <= end + 1,
        old(out)@ + utf8_of_utf16(input@.subrange(start as int, input@.len() as int))
            == final(out)@ + utf8_of_utf16(input@.subrange(r as int, input@.len() as int)),
        final(out)@.len() <= old(out)@.len() + 3 * (r - start),
{
    let n = input.len();
    let mut j = start;
    while j < end
        invariant
            start <= j <= n == input@.len(),
            j <= end + 1,
            end <= n,
            old(out)@ + utf8_of_utf16(input@.subrange(start as int, n as int)) == out@
                + utf8_of_utf16(input@.subrange(j as int, n as int)),
            out@.len() <= old(out)@.len() + 3 * (j - start),
        decreases end + 1 - j,
    {
        let ghost rest = input@.subrange(j as int, n as int);
        let w = input[j];
        assert(rest[0] == w);
        assert(rest.drop_first() =~= input@.subrange(j + 1, n as int));
        if 0xD800 <= w && w <= 0xDBFF {
            if j + 1 < n {
                let lo = input[j + 1];
                proof {
                    lemma_combine_is_scalar(w, lo);
                    assert(rest.subrange(2, rest.len() as int) =~= input@.subrange(j + 2, n as int));
                    assert(rest[1] == lo);
                    lemma_utf8_of_prepend(
                        combine_surrogates(w, lo),
                        utf16_scalars(input@.subrange(j + 2, n as int)),
                    );
                }
                let cp: u32 = 0x10000 + ((((w as u32) & 0x3FF) << 10) | ((lo as u32) & 0x3FF));
                push_utf8_4(cp, out);
                j += 2;
            } else {
                assert(input@.subrange(j + 1, n as int) =~= Seq::<u16>::empty());
                j += 1;
            }
        } else if 0xDC00 <= w && w <= 0xDFFF {
            j += 1;
        } else {
            proof {
                lemma_utf8_of_prepend(w as u32, utf16_scalars(input@.subrange(j + 1, n as int)));
            }
            push_utf32_scalar(w as u32, out);
            j += 1;
        }
    }
    j
}

/// Converts UTF-16 code units to UTF-8. Surrogate pairs become one 4-byte
/// sequence; an isolated low surrogate is skipped.
pub fn ucs2_to_utf8(input: &[u16]) -> (r: Vec<u8>)
    ensures
        r@ == utf8_of_utf16(input@),
        r@.len() <= 3 * input@.len(),
{
    let n = input.len();
    let mut out: Vec<u8> = Vec::with_capacity(n.saturating_add(n).saturating_add(n));
    proof {
        assert(input@.subrange(0, n as int) =~= input@);
    }
    let mut i: usize = 0;
    if n >= THRESHOLD_UCS2 {
        while n - i >= LANES_U16
            invariant
                i <= n == input@.len(),
                out@ + utf8_of_utf16(input@.subrange(i as int, n as int)) == utf8_of_utf16(input@),
                out@.len() <= 3 * i,
            decreases n - i,
        {
            if units16_below(input, i, i + LANES_U16, 0x80) {
                copy_ascii16_block(input, i, i + LANES_U16, &mut out);
                i += LANES_U16;
            } else {
                i = expand_ucs2_block(input, i, i + LANES_U16, &mut out);
            }
        }
    }
    let e = expand_ucs2_block(input, i, n, &mut out);
    assert(input@.subrange(e as int, n as int) =~= Seq::<u16>::empty());
    assert(utf16_scalars(Seq::<u16>::empty()) =~= Seq::<u32>::empty());
    assert(out@ + Seq::<u8>::empty() =~= out@);
    out
}

/// True when every unit of `input[start..end]` is below `bound`.
fn units16_below(input: &[u16], start: usize, end: usize, bound: u16) -> (r: bool)
    requires
        start <= end <= input@.len(),
    ensures
        r == forall|k: int| start <= k < end ==> #[trigger] input@[k] < bound,
{
    let mut j = start;
    while j < end
        invariant
            start <= j <= end <= input@.len(),
            forall|k: int| start <= k < j ==> #[trigger] input@[k] < bound,
        decreases end - j,
    {
        if input[j] >= bound {
            return false;
        }
        j += 1;
    }
    true
}

/// Appends ASCII UTF-16 units `input[start..end]` as single bytes.
fn copy_ascii16_block(input: &[u16], start: usize, end: usize, out: &mut Vec<u8>)
    requires
        start <= end <= input@.len(),
        forall|k: int| start <= k < end ==> #[trigger] input@[k] < 0x80,
    ensures
        old(out)@ + utf8_of_utf16(input@.subrange(start as int, input@.len() as int))
            == final(out)@ + utf8_of_utf16(input@.subrange(end as int, input@.len() as int)),
        final(out)@.len() == old(out)@.len() + (end - start),
{
    let n = input.len();
    let mut j = start;
    while j < end
        invariant
            start <= j <= end <= n == input@.len(),
            forall|k: int| start <= k < end ==> #[trigger] input@[k] < 0x80,
            old(out)@ + utf8_of_utf16(input@.subrange(start as int, n as int)) == out@
                + utf8_of_utf16(input@.subrange(j as int, n as int)),
            out@.len() == old(out)@.len() + (j - start),
        decreases end - j,
    {
        let w = input[j];
        let ghost rest = input@.subrange(j as int, n as int);
        proof {
            assert(rest[0] == w);
            assert(rest.drop_first() =~= input@.subrange(j + 1, n as int));
            lemma_utf8_of_prepend(w as u32, utf16_scalars(input@.subrange(j + 1, n as int)));
            lemma_ascii_unit16(w);
        }
        out.push(w as u8);
        assert(encode_scalar(w as u32) =~= seq![w as u8]);
        j += 1;
    }
}

proof fn lemma_ascii_unit16(w: u16)
    by (bit_vector)
    requires
        w < 0x80,
    ensures
        ((w as u32) & 0x7F) as u8 == w as u8,
{
}

proof fn lemma_ascii_unit32(w: u32)
    by (bit_vector)
    requires
        w < 0x80,
    ensures
        (w & 0x7F) as u8 == w as u8,
{
}

/// UTF-8 output of scalar values is at most four bytes per value.
pub proof fn lemma_utf8_len(cps: Seq<u32>)
    ensures
        utf8_of(cps).len() <= 4 * cps.len(),
    decreases cps.len(),
{
    if cps.len() > 0 {
        lemma_utf8_of_len_step(cps);
        lemma_utf8_len(cps.drop_last());
    }
}

proof fn lemma_utf8_of_len_step(cps: Seq<u32>)
    requires
        cps.len() > 0,
    ensures
        utf8_of(cps).len() == utf8_of(cps.drop_last()).len() + encode_scalar(cps.last()).len(),
        encode_scalar(cps.last()).len() <= 4,
{
}

/// Converts UTF-32 code units (scalar values) to UTF-8.
pub fn ucs4_to_utf8(input: &[u32]) -> (r: Vec<u8>)
    requires
        all_scalars(input@),
    ensures
        r@ == utf8_of(input@),
        r@.len() <= 4 * input@.len(),
{
    proof {
        lemma_utf8_len(input@);
    }
    let n = input.len();
    let mut out: Vec<u8> = Vec::with_capacity(n.saturating_add(n).saturating_add(n).saturating_add(n));
    let mut i: usize = 0;
    if n >= THRESHOLD_UCS4 {
        while n - i >= LANES_U32
            invariant
                i <= n == input@.len(),
                all_scalars(input@),
                out@ == utf8_of(input@.take(i as int)),
            decreases n - i,
        {
            let end = i + LANES_U32;
            let ascii = units32_below(input, i, end, 0x80);
            while i < end
                invariant
                    i <= end <= n == input@.len(),
                    all_scalars(input@),
                    out@ == utf8_of(input@.take(i as int)),
                    ascii ==> forall|k: int| i <= k < end ==> #[trigger] input@[k] < 0x80,
                decreases end - i,
            {
                let cp = input[i];
                proof {
                    assert(input@.take(i + 1) =~= input@.take(i as int).push(cp));
                    lemma_utf8_of_push(input@.take(i as int), cp);
                }
                if ascii {
                    proof {
                        lemma_ascii_unit32(cp);
                    }
                    out.push(cp as u8);
                    assert(encode_scalar(cp) =~= seq![cp as u8]);
                } else {
                    push_utf32_scalar(cp, &mut out);
                }
                i += 1;
            }
        }
    }
    while i < n
        invariant
            i <= n == input@.len(),
            all_scalars(input@),
            out@ == utf8_of(input@.take(i as int)),
        decreases n - i,
    {
        let cp = input[i];
        proof {
            assert(input@.take(i + 1) =~= input@.take(i as int).push(cp));
            lemma_utf8_of_push(input@.take(i as int), cp);
        }
        push_utf32_scalar(cp, &mut out);
        i += 1;
    }
    assert(input@.take(n as int) =~= input@);
    out
}

/// True when every unit of `input[start..end]` is below `bound`.
fn units32_below(input: &[u32], start: usize, end: usize, bound: u32) -> (r: bool)
    requires
        start <= end <= input@.len(),
    ensures
        r == forall|k: int| start <= k < end ==> #[trigger] input@[k] < bound,
{
    let mut j = start;
    while j < end
        invariant
            start <= j <= end <= input@.len(),
            forall|k: int| start <= k < j ==> #[trigger] input@[k] < bound,
        decreases end - j,
    {
        if input[j] >= bound {
            return false;
        }
        j += 1;
    }
    true
}

} // verus!
