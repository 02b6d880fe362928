//! UTF-8 to fixed-width (Latin-1, UTF-16, UTF-32) decoders, and the one-pass
//! analyzer that picks the narrowest width able to hold a text.

use crate::unicode::{latin1_of, max_scalar, scalars_of, utf16_of, utf16_units};
use vstd::prelude::*;
use vstd::utf8::*;

verus! {

broadcast use vstd::seq::group_seq_axioms;

/// Inputs shorter than this many bytes skip the block fast path.
pub const THRESHOLD_BYTES: usize = 64;

/// Block width, in bytes, of the all-ASCII fast path.
pub const LANES_BYTES: usize = 16;

/// `s` with its first `t.len()` elements replaced by `t`.
pub open spec fn overwrite_prefix<T>(s: Seq<T>, t: Seq<T>) -> Seq<T> {
    t + s.skip(t.len() as int)
}

proof fn lemma_overwrite_push<T>(s: Seq<T>, t: Seq<T>, x: T)
    requires
        t.len() < s.len(),
    ensures
        overwrite_prefix(s, t.push(x)) == overwrite_prefix(s, t).update(t.len() as int, x),
{
    assert(overwrite_prefix(s, t.push(x)) =~= overwrite_prefix(s, t).update(t.len() as int, x));
}

proof fn lemma_overwrite_empty<T>(s: Seq<T>)
    ensures
        overwrite_prefix(s, Seq::<T>::empty()) == s,
{
    assert(overwrite_prefix(s, Seq::<T>::empty()) =~= s);
}

proof fn lemma_latin1_of_concat(a: Seq<u32>, b: Seq<u32>)
    ensures
        latin1_of(a + b) == latin1_of(a) + latin1_of(b),
    decreases b.len(),
{
    if b.len() == 0 {
        assert(a + b =~= a);
        assert(latin1_of(a) + latin1_of(b) =~= latin1_of(a));
    } else {
        assert((a + b).drop_last() =~= a + b.drop_last());
        lemma_latin1_of_concat(a, b.drop_last());
        assert((a + b).last() == b.last());
        if b.last() <= 0xFF {
            assert(latin1_of(a) + latin1_of(b) =~= (latin1_of(a) + latin1_of(b.drop_last())).push(
                b.last() as u8,
            ));
        }
    }
}

proof fn lemma_utf16_of_push(cps: Seq<u32>, c: u32)
    ensures
        utf16_of(cps.push(c)) == utf16_of(cps) + utf16_units(c),
{
    assert(cps.push(c).drop_last() =~= cps);
}

proof fn lemma_utf16_of_prefix_len(cps: Seq<u32>, k: int)
    requires
        0 <= k <= cps.len(),
    ensures
        utf16_of(cps.take(k)).len() <= utf16_of(cps).len(),
    decreases cps.len() - k,
{
    if k < cps.len() {
        assert(cps.take(k + 1) =~= cps.take(k).push(cps[k]));
        lemma_utf16_of_push(cps.take(k), cps[k]);
        lemma_utf16_of_prefix_len(cps, k + 1);
    } else {
        assert(cps.take(k) =~= cps);
    }
}

proof fn lemma_codepoint_bounds(b1: u8, b2: u8, b3: u8)
    by (bit_vector)
    ensures
        codepoint_width_1(b1) <= 0x7F,
        codepoint_width_2(b1, b2) <= 0x7FF,
        codepoint_width_3(b1, b2, b3) <= 0xFFFF,
{
}

/// One decoding step over valid UTF-8: the first scalar value, then the rest.
proof fn lemma_scalars_step(rest: Seq<u8>)
    requires
        valid_utf8(rest),
        rest.len() > 0,
    ensures
        valid_first_scalar(rest),
        is_scalar(decode_first_scalar(rest)),
        1 <= length_of_first_scalar(rest) <= 4,
        length_of_first_scalar(rest) <= rest.len(),
        valid_utf8(pop_first_scalar(rest)),
        scalars_of(rest) == seq![decode_first_scalar(rest)] + scalars_of(pop_first_scalar(rest)),
{
    if rest.len() >= 3 {
        lemma_codepoint_bounds(rest[0], rest[1], rest[2]);
    } else if rest.len() == 2 {
        lemma_codepoint_bounds(rest[0], rest[1], 0);
    } else {
        lemma_codepoint_bounds(rest[0], 0, 0);
    }
    let c = decode_first_scalar(rest);
    assert((c as char) as u32 == c);
    assert(scalars_of(rest) =~= seq![c] + scalars_of(pop_first_scalar(rest)));
}

/// Decodes the scalar value that starts at byte `i` of valid UTF-8; returns
/// it with its length in bytes.
fn decode_at(input: &[u8], i: usize) -> (r: (u32, usize))
    requires
        i < input@.len(),
        valid_utf8(input@.subrange(i as int, input@.len() as int)),
    ensures
        ({
            let rest = input@.subrange(i as int, input@.len() as int);
            &&& r.0 == decode_first_scalar(rest)
            &&& is_scalar(r.0)
            &&& 1 <= r.1 <= 4
            &&& i + r.1 <= input@.len()
            &&& valid_utf8(input@.subrange(i + r.1, input@.len() as int))
            &&& scalars_of(rest) == seq![r.0] + scalars_of(
                input@.subrange(i + r.1, input@.len() as int),
            )
        }),
{
    let ghost rest = input@.subrange(i as int, input@.len() as int);
    proof {
        lemma_scalars_step(rest);
    }
    let b0 = input[i];
    let (cp, len): (u32, usize) = if b0 <= 0x7F {
        ((b0 & 0x7F) as u32, 1)
    } else if 0xC0 <= b0 && b0 <= 0xDF {
        let b1 = input[i + 1];
        ((((b0 & 0x1F) as u32) << 6) | ((b1 & 0x3F) as u32), 2)
    } else if 0xE0 <= b0 && b0 <= 0xEF {
        let b1 = input[i + 1];
        let b2 = input[i + 2];
        (
            (((b0 & 0x0F) as u32) << 12) | (((b1 & 0x3F) as u32) << 6) | ((b2 & 0x3F) as u32),
            3,
        )
    } else {
        let b1 = input[i + 1];
        let b2 = input[i + 2];
        let b3 = input[i + 3];
        (
            (((b0 & 0x07) as u32) << 18) | (((b1 & 0x3F) as u32) << 12) | (((b2 & 0x3F) as u32)
                << 6) | ((b3 & 0x3F) as u32),
            4,
        )
    };
    assert(pop_first_scalar(rest) =~= input@.subrange(i + len, input@.len() as int));
    (cp, len)
}

/// Counts the scalar values of valid UTF-8 from byte `start` on and finds
/// the largest; `count` and `max` carry the totals of the bytes before.
fn analyze_utf8_scalar(input: &[u8], start: usize, count: usize, max: u32) -> (r: (usize, u32))
    requires
        start <= input@.len(),
        valid_utf8(input@.subrange(start as int, input@.len() as int)),
        count <= start,
    ensures
        ({
            let rest = scalars_of(input@.subrange(start as int, input@.len() as int));
            &&& r.0 == count + rest.len()
            &&& r.1 == if max_scalar(rest) > max { max_scalar(rest) } else { max }
        }),
{
    let n = input.len();
    let mut i = start;
    let ghost count0 = count;
    let mut count = count;
    let mut max = max;
    let ghost all = scalars_of(input@.subrange(start as int, n as int));
    let ghost done: Seq<u32> = seq![];
    let ghost max0 = max;
    while i < n
        invariant
            start <= i <= n == input@.len(),
            valid_utf8(input@.subrange(i as int, n as int)),
            all == done + scalars_of(input@.subrange(i as int, n as int)),
            count == count0 + done.len(),
            count <= i,
            max == if max_scalar(done) > max0 { max_scalar(done) } else { max0 },
        decreases n - i,
    {
        let (cp, len) = decode_at(input, i);
        proof {
            assert(done.push(cp).drop_last() =~= done);
            assert(done.push(cp) + scalars_of(input@.subrange(i + len, n as int)) =~= done + (seq![cp]
                + scalars_of(input@.subrange(i + len, n as int))));
            done = done.push(cp);
        }
        count += 1;
        if cp > max {
            max = cp;
        }
        i += len;
    }
    assert(scalars_of(input@.subrange(n as int, n as int)) =~= Seq::<u32>::empty());
    assert(done =~= all);
    (count, max)
}

/// Number of scalar values in valid UTF-8 and the largest of them (0 when
/// there is none), found in one pass. Long inputs go block by block, and an
/// all-ASCII block is settled without decoding.
pub fn analyze_utf8_simd(input: &[u8]) -> (r: (usize, u32))
    requires
        valid_utf8(input@),
    ensures
        r.0 == scalars_of(input@).len(),
        r.1 == max_scalar(scalars_of(input@)),
{
    let n = input.len();
    assert(input@.subrange(0, n as int) =~= input@);
    if n < THRESHOLD_BYTES {
        return analyze_utf8_scalar(input, 0, 0, 0);
    }
    let mut i: usize = 0;
    let mut count: usize = 0;
    let mut max: u32 = 0;
    let ghost done: Seq<u32> = seq![];
    while n - i >= LANES_BYTES
        invariant
            i <= n == input@.len(),
            valid_utf8(input@.subrange(i as int, n as int)),
            scalars_of(input@) == done + scalars_of(input@.subrange(i as int, n as int)),
            count == done.len(),
            count <= i,
            max == max_scalar(done),
        decreases n - i,
    {
        let end = i + LANES_BYTES;
        if bytes_below(input, i, end, 0x80) {
            // every byte of the block is one scalar value
            while i < end
                invariant
                    i <= end <= n == input@.len(),
                    forall|k: int| i <= k < end ==> #[trigger] input@[k] < 0x80,
                    valid_utf8(input@.subrange(i as int, n as int)),
                    scalars_of(input@) == done + scalars_of(input@.subrange(i as int, n as int)),
                    count == done.len(),
                    count <= i,
                    max == max_scalar(done),
                decreases end - i,
            {
                let b = input[i];
                proof {
                    let rest = input@.subrange(i as int, n as int);
                    lemma_scalars_step(rest);
                    assert(rest[0] == b);
                    assert((b & 0x7F) as u32 == b as u32) by (bit_vector)
                        requires
                            b < 0x80,
                    ;
                    assert(pop_first_scalar(rest) =~= input@.subrange(i + 1, n as int));
                    let c = b as u32;
                    assert(done.push(c).drop_last() =~= done);
                    assert(done.push(c) + scalars_of(input@.subrange(i + 1, n as int)) =~= done
                        + (seq![c] + scalars_of(input@.subrange(i + 1, n as int))));
                    done = done.push(c);
                }
                count += 1;
                if b as u32 > max {
                    max = b as u32;
                }
                i += 1;
            }
        } else {
            while i < end
                invariant
                    i <= n == input@.len(),
                    end <= n,
                    valid_utf8(input@.subrange(i as int, n as int)),
                    scalars_of(input@) == done + scalars_of(input@.subrange(i as int, n as int)),
                    count == done.len(),
                    count <= i,
                    max == max_scalar(done),
                decreases n - i,
            {
                let (cp, len) = decode_at(input, i);
                proof {
                    assert(done.push(cp).drop_last() =~= done);
                    assert(done.push(cp) + scalars_of(input@.subrange(i + len, n as int)) =~= done
                        + (seq![cp] + scalars_of(input@.subrange(i + len, n as int))));
                    done = done.push(cp);
                }
                count += 1;
                if cp > max {
                    max = cp;
                }
                i += len;
            }
        }
    }
    let r = analyze_utf8_scalar(input, i, count, max);
    proof {
        lemma_max_scalar_concat(done, scalars_of(input@.subrange(i as int, n as int)));
    }
    r
}

proof fn lemma_max_scalar_concat(a: Seq<u32>, b: Seq<u32>)
    ensures
        max_scalar(a + b) == if max_scalar(b) > max_scalar(a) { max_scalar(b) } else { max_scalar(a) },
    decreases b.len(),
{
    if b.len() == 0 {
        assert(a + b =~= a);
    } else {
        assert((a + b).drop_last() =~= a + b.drop_last());
        lemma_max_scalar_concat(a, b.drop_last());
    }
}

/// True when every byte of `input[start..end]` is below `bound`.
fn bytes_below(input: &[u8], start: usize, end: usize, bound: u8) -> (r: bool)
    requires
        start <= end <= input@.len(),
    ensures
        r == forall|k: int| start <= k < end ==> #[trigger] input@[k] < bound,
{
    let mut j = start;
    while j < end
        invariant
            start <= j <= end <= input@.len(),
            forall|k: int| start <= k < j ==> #[trigger] input@[k] < bound,
        decreases end - j,
    {
        if input[j] >= bound {
            return false;
        }
        j += 1;
    }
    true
}

/// One ASCII byte at `i` is one scalar value.
proof fn lemma_ascii_step(input: Seq<u8>, i: int)
    requires
        0 <= i < input.len(),
        input[i] < 0x80,
        valid_utf8(input.subrange(i, input.len() as int)),
    ensures
        valid_utf8(input.subrange(i + 1, input.len() as int)),
        scalars_of(input.subrange(i, input.len() as int)) == seq![input[i] as u32] + scalars_of(
            input.subrange(i + 1, input.len() as int),
        ),
{
    let rest = input.subrange(i, input.len() as int);
    lemma_scalars_step(rest);
    let b = input[i];
    assert(rest[0] == b);
    assert((b & 0x7F) as u32 == b as u32) by (bit_vector)
        requires
            b < 0x80,
    ;
    assert(pop_first_scalar(rest) =~= input.subrange(i + 1, input.len() as int));
}

proof fn lemma_done_step(all: Seq<u32>, done: Seq<u32>, c: u32, rest: Seq<u32>)
    requires
        all == done + (seq![c] + rest),
    ensures
        all == done.push(c) + rest,
        done.push(c).drop_last() == done,
{
    assert(done.push(c) + rest =~= done + (seq![c] + rest));
    assert(done.push(c).drop_last() =~= done);
}

/// Decoding loop into UTF-32 from byte `i`, once `done` has been written.
fn utf8_to_ucs4_scalar(
    input: &[u8],
    i: usize,
    output: &mut [u32],
    pos: usize,
    Ghost(done): Ghost<Seq<u32>>,
    Ghost(orig): Ghost<Seq<u32>>,
) -> (r: usize)
    requires
        i <= input@.len(),
        valid_utf8(input@.subrange(i as int, input@.len() as int)),
        scalars_of(input@) == done + scalars_of(input@.subrange(i as int, input@.len() as int)),
        pos == done.len() <= orig.len() == old(output)@.len(),
        old(output)@ == overwrite_prefix(orig, done),
    ensures
        ({
            let cps = scalars_of(input@);
            let k = if cps.len() < orig.len() { cps.len() } else { orig.len() };
            &&& r == k
            &&& final(output)@ == overwrite_prefix(orig, cps.take(k as int))
        }),
{
    let n = input.len();
    let mut i = i;
    let mut pos = pos;
    let ghost mut done = done;
    let ghost all = scalars_of(input@);
    while i < n && pos < output.len()
        invariant
            i <= n == input@.len(),
            valid_utf8(input@.subrange(i as int, n as int)),
            all == done + scalars_of(input@.subrange(i as int, n as int)),
            pos == done.len() <= orig.len() == output@.len(),
            output@ == overwrite_prefix(orig, done),
        decreases n - i,
    {
        let (cp, len) = decode_at(input, i);
        proof {
            lemma_done_step(all, done, cp, scalars_of(input@.subrange(i + len, n as int)));
            lemma_overwrite_push(orig, done, cp);
            done = done.push(cp);
        }
        output[pos] = cp;
        pos += 1;
        i += len;
    }
    proof {
        if i == n {
            assert(scalars_of(input@.subrange(n as int, n as int)) =~= Seq::<u32>::empty());
            assert(all =~= done);
        }
        assert(all.take(pos as int) =~= done);
    }
    pos
}

/// Decodes valid UTF-8 into UTF-32 code units, as many as `output` holds;
/// returns how many were written. Elements past those are left unchanged.
pub fn utf8_to_ucs4_simd(input: &[u8], output: &mut [u32]) -> (r: usize)
    requires
        valid_utf8(input@),
    ensures
        ({
            let cps = scalars_of(input@);
            let k = if cps.len() < old(output)@.len() { cps.len() } else { old(output)@.len() };
            &&& r == k
            &&& final(output)@ == overwrite_prefix(old(output)@, cps.take(k as int))
        }),
{
    let n = input.len();
    let ghost orig = output@;
    let ghost mut done: Seq<u32> = seq![];
    proof {
        assert(input@.subrange(0, n as int) =~= input@);
        lemma_overwrite_empty(orig);
    }
    let mut i: usize = 0;
    let mut pos: usize = 0;
    if n >= THRESHOLD_BYTES {
        while n - i >= LANES_BYTES && output.len() - pos >= LANES_BYTES && bytes_below(
            input,
            i,
            i + LANES_BYTES,
            0x80,
        )
            invariant
                i <= n == input@.len(),
                valid_utf8(input@.subrange(i as int, n as int)),
                scalars_of(input@) == done + scalars_of(input@.subrange(i as int, n as int)),
                pos == done.len() <= orig.len() == output@.len(),
                output@ == overwrite_prefix(orig, done),
            decreases n - i,
        {
            let end = i + LANES_BYTES;
            while i < end
                invariant
                    i <= end <= n == input@.len(),
                    pos + (end - i) <= output@.len(),
                    forall|k: int| i <= k < end ==> #[trigger] input@[k] < 0x80,
                    valid_utf8(input@.subrange(i as int, n as int)),
                    scalars_of(input@) == done + scalars_of(input@.subrange(i as int, n as int)),
                    pos == done.len() <= orig.len() == output@.len(),
                    output@ == overwrite_prefix(orig, done),
                decreases end - i,
            {
                let b = input[i];
                proof {
                    lemma_ascii_step(input@, i as int);
                    lemma_done_step(
                        scalars_of(input@),
                        done,
                        b as u32,
                        scalars_of(input@.subrange(i + 1, n as int)),
                    );
                    lemma_overwrite_push(orig, done, b as u32);
                    done = done.push(b as u32);
                }
                output[pos] = b as u32;
                pos += 1;
                i += 1;
            }
        }
    }
    utf8_to_ucs4_scalar(input, i, output, pos, Ghost(done), Ghost(orig))
}

/// Decoding loop into UTF-16 from byte `i`, once `done` has been written.
fn utf8_to_ucs2_scalar(
    input: &[u8],
    i: usize,
    output: &mut [u16],
    pos: usize,
    Ghost(done): Ghost<Seq<u32>>,
    Ghost(orig): Ghost<Seq<u16>>,
) -> (r: usize)
    requires
        i <= input@.len(),
        valid_utf8(input@.subrange(i as int, input@.len() as int)),
        scalars_of(input@) == done + scalars_of(input@.subrange(i as int, input@.len() as int)),
        pos == utf16_of(done).len() <= orig.len() == old(output)@.len(),
        old(output)@ == overwrite_prefix(orig, utf16_of(done)),
    ensures
        ({
            let cps = scalars_of(input@);
            exists|k: int|
                0 <= k <= cps.len() && r == utf16_of(cps.take(k)).len() && final(output)@
                    == overwrite_prefix(orig, utf16_of(cps.take(k))) && (k == cps.len()
                    || utf16_of(cps.take(k + 1)).len() > orig.len())
        }),
{
    let n = input.len();
    let mut i = i;
    let mut pos = pos;
    let ghost mut done = done;
    let ghost all = scalars_of(input@);
    let mut full = false;
    while i < n && !full
        invariant
            i <= n == input@.len(),
            valid_utf8(input@.subrange(i as int, n as int)),
            all == done + scalars_of(input@.subrange(i as int, n as int)),
            pos == utf16_of(done).len() <= orig.len() == output@.len(),
            output@ == overwrite_prefix(orig, utf16_of(done)),
            full ==> done.len() < all.len() && utf16_of(all.take(done.len() as int + 1)).len()
                > orig.len(),
        decreases n - i + if full { 0int } else { 1int },
    {
        let (cp, len) = decode_at(input, i);
        proof {
            lemma_done_step(all, done, cp, scalars_of(input@.subrange(i + len, n as int)));
            lemma_utf16_of_push(done, cp);
            assert(all.take(done.len() as int + 1) =~= done.push(cp));
        }
        if cp <= 0xFFFF {
            if pos < output.len() {
                proof {
                    assert(utf16_units(cp) =~= seq![cp as u16]);
                    assert(utf16_of(done).push(cp as u16) =~= utf16_of(done) + utf16_units(cp));
                    lemma_overwrite_push(orig, utf16_of(done), cp as u16);
                    done = done.push(cp);
                }
                output[pos] = cp as u16;
                pos += 1;
                i += len;
            } else {
                full = true;
            }
        } else {
            if output.len() - pos >= 2 {
                let c = cp - 0x10000;
                let hi = (0xD800u32 | (c >> 10)) as u16;
                let lo = (0xDC00u32 | (c & 0x3FF)) as u16;
                proof {
                    assert(utf16_units(cp) =~= seq![hi, lo]);
                    assert(utf16_of(done).push(hi).push(lo) =~= utf16_of(done) + utf16_units(cp));
                    lemma_overwrite_push(orig, utf16_of(done), hi);
                    lemma_overwrite_push(orig, utf16_of(done).push(hi), lo);
                    done = done.push(cp);
                }
                output[pos] = hi;
                output[pos + 1] = lo;
                pos += 2;
                i += len;
            } else {
                full = true;
            }
        }
    }
    proof {
        if !full {
            assert(scalars_of(input@.subrange(n as int, n as int)) =~= Seq::<u32>::empty());
            assert(all =~= done);
        }
        assert(all.take(done.len() as int) =~= done);
    }
    pos
}

/// Decodes valid UTF-8 into UTF-16 code units, scalar values above 0xFFFF
/// as surrogate pairs. It stops before the first value that does not fit in
/// what is left of `output`; returns the number of units written.
pub fn utf8_to_ucs2_simd(input: &[u8], output: &mut [u16]) -> (r: usize)
    requires
        valid_utf8(input@),
    ensures
        ({
            let cps = scalars_of(input@);
            exists|k: int|
                0 <= k <= cps.len() && r == utf16_of(cps.take(k)).len() && final(output)@
                    == overwrite_prefix(old(output)@, utf16_of(cps.take(k))) && (k == cps.len()
                    || utf16_of(cps.take(k + 1)).len() > old(output)@.len())
        }),
{
    let n = input.len();
    let ghost orig = output@;
    let ghost mut done: Seq<u32> = seq![];
    proof {
        assert(input@.subrange(0, n as int) =~= input@);
        assert(utf16_of(done) =~= Seq::<u16>::empty());
        lemma_overwrite_empty(orig);
    }
    let mut i: usize = 0;
    let mut pos: usize = 0;
    if n >= THRESHOLD_BYTES {
        while n - i >= LANES_BYTES && output.len() - pos >= LANES_BYTES && bytes_below(
            input,
            i,
            i + LANES_BYTES,
            0x80,
        )
            invariant
                i <= n == input@.len(),
                valid_utf8(input@.subrange(i as int, n as int)),
                scalars_of(input@) == done + scalars_of(input@.subrange(i as int, n as int)),
                pos == utf16_of(done).len() <= orig.len() == output@.len(),
                output@ == overwrite_prefix(orig, utf16_of(done)),
            decreases n - i,
        {
            let end = i + LANES_BYTES;
            while i < end
                invariant
                    i <= end <= n == input@.len(),
                    pos + (end - i) <= output@.len(),
                    forall|k: int| i <= k < end ==> #[trigger] input@[k] < 0x80,
                    valid_utf8(input@.subrange(i as int, n as int)),
                    scalars_of(input@) == done + scalars_of(input@.subrange(i as int, n as int)),
                    pos == utf16_of(done).len() <= orig.len() == output@.len(),
                    output@ == overwrite_prefix(orig, utf16_of(done)),
                decreases end - i,
            {
                let b = input[i];
                proof {
                    lemma_ascii_step(input@, i as int);
                    lemma_done_step(
                        scalars_of(input@),
                        done,
                        b as u32,
                        scalars_of(input@.subrange(i + 1, n as int)),
                    );
                    lemma_utf16_of_push(done, b as u32);
                    assert(utf16_units(b as u32) =~= seq![b as u16]);
                    assert(utf16_of(done).push(b as u16) =~= utf16_of(done) + utf16_units(b as u32));
                    lemma_overwrite_push(orig, utf16_of(done), b as u16);
                    done = done.push(b as u32);
                }
                output[pos] = b as u16;
                pos += 1;
                i += 1;
            }
        }
    }
    utf8_to_ucs2_scalar(input, i, output, pos, Ghost(done), Ghost(orig))
}

/// Decoding loop into Latin-1 from byte `i`, once `done` has been written.
fn utf8_to_ucs1_scalar(
    input: &[u8],
    i: usize,
    output: &mut [u8],
    pos: usize,
    Ghost(done): Ghost<Seq<u32>>,
    Ghost(orig): Ghost<Seq<u8>>,
) -> (r: usize)
    requires
        i <= input@.len(),
        valid_utf8(input@.subrange(i as int, input@.len() as int)),
        scalars_of(input@) == done + scalars_of(input@.subrange(i as int, input@.len() as int)),
        pos == latin1_of(done).len() <= orig.len() == old(output)@.len(),
        old(output)@ == overwrite_prefix(orig, latin1_of(done)),
    ensures
        ({
            let units = latin1_of(scalars_of(input@));
            let k = if units.len() < orig.len() { units.len() } else { orig.len() };
            &&& r == k
            &&& final(output)@ == overwrite_prefix(orig, units.take(k as int))
        }),
{
    let n = input.len();
    let mut i = i;
    let mut pos = pos;
    let ghost mut done = done;
    let ghost all = scalars_of(input@);
    while i < n && pos < output.len()
        invariant
            i <= n == input@.len(),
            valid_utf8(input@.subrange(i as int, n as int)),
            all == done + scalars_of(input@.subrange(i as int, n as int)),
            pos == latin1_of(done).len() <= orig.len() == output@.len(),
            output@ == overwrite_prefix(orig, latin1_of(done)),
        decreases n - i,
    {
        let (cp, len) = decode_at(input, i);
        proof {
            lemma_done_step(all, done, cp, scalars_of(input@.subrange(i + len, n as int)));
        }
        if cp <= 0xFF {
            proof {
                lemma_overwrite_push(orig, latin1_of(done), cp as u8);
                done = done.push(cp);
            }
            output[pos] = cp as u8;
            pos += 1;
        } else {
            proof {
                done = done.push(cp);
            }
        }
        i += len;
    }
    proof {
        let rest = scalars_of(input@.subrange(i as int, n as int));
        lemma_latin1_of_concat(done, rest);
        if i == n {
            assert(rest =~= Seq::<u32>::empty());
            assert(latin1_of(rest) =~= Seq::<u8>::empty());
        }
        assert(latin1_of(all).take(pos as int) =~= latin1_of(done));
    }
    pos
}

/// Decodes valid UTF-8 into Latin-1 code units, as many as `output` holds;
/// scalar values above 0xFF have no Latin-1 unit and are left out. Returns
/// the number of units written.
pub fn utf8_to_ucs1_simd(input: &[u8], output: &mut [u8]) -> (r: usize)
    requires
        valid_utf8(input@),
    ensures
        ({
            let units = latin1_of(scalars_of(input@));
            let k = if units.len() < old(output)@.len() { units.len() } else { old(output)@.len() };
            &&& r == k
            &&& final(output)@ == overwrite_prefix(old(output)@, units.take(k as int))
        }),
{
    let n = input.len();
    let ghost orig = output@;
    let ghost mut done: Seq<u32> = seq![];
    proof {
        assert(input@.subrange(0, n as int) =~= input@);
        assert(latin1_of(done) =~= Seq::<u8>::empty());
        lemma_overwrite_empty(orig);
    }
    let mut i: usize = 0;
    let mut pos: usize = 0;
    if n >= THRESHOLD_BYTES {
        while n - i >= LANES_BYTES && output.len() - pos >= LANES_BYTES && bytes_below(
            input,
            i,
            i + LANES_BYTES,
            0x80,
        )
            invariant
                i <= n == input@.len(),
                valid_utf8(input@.subrange(i as int, n as int)),
                scalars_of(input@) == done + scalars_of(input@.subrange(i as int, n as int)),
                pos == latin1_of(done).len() <= orig.len() == output@.len(),
                output@ == overwrite_prefix(orig, latin1_of(done)),
            decreases n - i,
        {
            let end = i + LANES_BYTES;
            while i < end
                invariant
                    i <= end <= n == input@.len(),
                    pos + (end - i) <= output@.len(),
                    forall|k: int| i <= k < end ==> #[trigger] input@[k] < 0x80,
                    valid_utf8(input@.subrange(i as int, n as int)),
                    scalars_of(input@) == done + scalars_of(input@.subrange(i as int, n as int)),
                    pos == latin1_of(done).len() <= orig.len() == output@.len(),
                    output@ == overwrite_prefix(orig, latin1_of(done)),
                decreases end - i,
            {
                let b = input[i];
                proof {
                    lemma_ascii_step(input@, i as int);
                    lemma_done_step(
                        scalars_of(input@),
                        done,
                        b as u32,
                        scalars_of(input@.subrange(i + 1, n as int)),
                    );
                    assert((b as u32) as u8 == b);
                    lemma_overwrite_push(orig, latin1_of(done), b);
                    done = done.push(b as u32);
                }
                output[pos] = b;
                pos += 1;
                i += 1;
            }
        }
    }
    utf8_to_ucs1_scalar(input, i, output, pos, Ghost(done), Ghost(orig))
}

} // verus!
