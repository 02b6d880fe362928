//! Splitting an index range `[0, len)` into contiguous per-worker ranges.

use vstd::prelude::*;

verus! {

/// First index owned by worker `i` when `len` items are split over `jobs` workers.
pub open spec fn range_start(len: int, jobs: int, i: int) -> int {
    i * (len / jobs) + if i < len % jobs { i } else { len % jobs }
}

/// True when index `k` lies in the range of worker `i`.
pub open spec fn owns(len: int, jobs: int, i: int, k: int) -> bool {
    range_start(len, jobs, i) <= k < range_end(len, jobs, i)
}

/// True when some worker out of `jobs` owns index `k`.
pub open spec fn covered(len: int, jobs: int, k: int) -> bool {
    exists|i: int| 0 <= i < jobs && #[trigger] owns(len, jobs, i, k)
}

/// One past the last index owned by worker `i`.
pub open spec fn range_end(len: int, jobs: int, i: int) -> int {
    range_start(len, jobs, i) + len / jobs + if i < len % jobs { 1int } else { 0int }
}

pub proof fn lemma_start_step(len: int, jobs: int, i: int)
    requires
        jobs > 0,
        len >= 0,
        0 <= i < jobs,
    ensures
        range_start(len, jobs, i + 1) == range_end(len, jobs, i),
{
    assert((i + 1) * (len / jobs) == i * (len / jobs) + len / jobs) by (nonlinear_arith);
}

pub proof fn lemma_start_bounds(len: int, jobs: int, i: int)
    requires
        jobs > 0,
        len >= 0,
        0 <= i <= jobs,
    ensures
        0 <= range_start(len, jobs, i) <= len,
        i == jobs ==> range_start(len, jobs, i) == len,
        i < jobs ==> range_end(len, jobs, i) <= len,
{
    let q = len / jobs;
    let r = len % jobs;
    assert(len == jobs * q + r) by (nonlinear_arith)
        requires jobs > 0, q == len / jobs, r == len % jobs;
    assert(0 <= r < jobs);
    assert(q >= 0) by (nonlinear_arith) requires jobs > 0, len >= 0, q == len / jobs;
    assert(i * q <= jobs * q) by (nonlinear_arith) requires 0 <= i <= jobs, q >= 0;
    assert(i * q >= 0) by (nonlinear_arith) requires 0 <= i, q >= 0;
    if i < jobs {
        assert((i + 1) * q <= jobs * q) by (nonlinear_arith) requires 0 <= i < jobs, q >= 0;
        assert((i + 1) * q == i * q + q) by (nonlinear_arith);
    }
}

/// Returns the half-open range `(start, end)` of indices owned by worker `i`
/// out of `jobs` workers splitting `len` items. The first `len % jobs`
/// workers get one item more than the others.
pub fn make_range(len: usize, jobs: usize, i: usize) -> (r: (usize, usize))
    requires
        jobs > 0,
        i < jobs,
    ensures
        r.0 == range_start(len as int, jobs as int, i as int),
        r.1 == range_end(len as int, jobs as int, i as int),
        r.0 <= r.1 <= len,
{
    proof {
        lemma_start_bounds(len as int, jobs as int, i as int);
        lemma_start_step(len as int, jobs as int, i as int);
        lemma_start_bounds(len as int, jobs as int, i as int + 1);
    }
    let base = len / jobs;
    let rem = len % jobs;
    assert(i * base <= len) by (nonlinear_arith)
        requires base == len / jobs, i < jobs, jobs > 0, len >= 0;
    let first = i * base;
    let start = first + if i < rem { i } else { rem };
    let end = start + base + if i < rem { 1 } else { 0 };
    (start, end)
}

/// Worker ranges tile `[0, len)`: every index lies in the range of exactly one
/// worker, no range is empty, and consecutive ranges touch.
pub proof fn lemma_partition_coverage(len: int, jobs: int)
    requires
        1 <= jobs <= len,
    ensures
        range_start(len, jobs, 0) == 0,
        range_end(len, jobs, jobs - 1) == len,
        forall|i: int| 0 <= i < jobs ==> range_start(len, jobs, i) < range_end(len, jobs, i),
        forall|i: int|
            0 <= i < jobs - 1 ==> #[trigger] range_end(len, jobs, i) == range_start(len, jobs, i + 1),
        forall|k: int| 0 <= k < len ==> #[trigger] covered(len, jobs, k),
        forall|i1: int, i2: int, k: int|
            0 <= i1 < jobs && 0 <= i2 < jobs && #[trigger] owns(len, jobs, i1, k) && #[trigger] owns(
                len,
                jobs,
                i2,
                k,
            ) ==> i1 == i2,
{
    assert(len / jobs >= 1) by (nonlinear_arith) requires 1 <= jobs <= len;
    assert forall|i: int| 0 <= i < jobs - 1 implies #[trigger] range_end(len, jobs, i)
        == range_start(len, jobs, i + 1) by {
        lemma_start_step(len, jobs, i);
    }
    lemma_start_step(len, jobs, jobs - 1);
    lemma_start_bounds(len, jobs, jobs);
    // starts are strictly increasing
    assert forall|a: int, b: int| 0 <= a < b <= jobs implies range_start(len, jobs, a)
        < range_start(len, jobs, b) by {
        lemma_starts_increase(len, jobs, a, b);
    }
    assert forall|k: int| 0 <= k < len implies #[trigger] covered(len, jobs, k) by {
        let i = find_owner(len, jobs, k, 0);
        assert(owns(len, jobs, i, k));
    }
    assert forall|i1: int, i2: int, k: int|
        0 <= i1 < jobs && 0 <= i2 < jobs && #[trigger] owns(len, jobs, i1, k) && #[trigger] owns(
            len,
            jobs,
            i2,
            k,
        ) implies i1 == i2 by {
        lemma_start_step(len, jobs, i1);
        lemma_start_step(len, jobs, i2);
        if i1 < i2 {
            lemma_starts_increase(len, jobs, i1 + 1, i2);
        } else if i2 < i1 {
            lemma_starts_increase(len, jobs, i2 + 1, i1);
        }
    }
}

proof fn lemma_starts_increase(len: int, jobs: int, a: int, b: int)
    requires
        1 <= jobs <= len,
        0 <= a <= b <= jobs,
    ensures
        range_start(len, jobs, a) <= range_start(len, jobs, b),
        a < b ==> range_start(len, jobs, a) < range_start(len, jobs, b),
    decreases b - a,
{
    assert(len / jobs >= 1) by (nonlinear_arith) requires 1 <= jobs <= len;
    if a < b {
        lemma_start_step(len, jobs, b - 1);
        lemma_starts_increase(len, jobs, a, b - 1);
    }
}

proof fn find_owner(len: int, jobs: int, k: int, i: int) -> (owner: int)
    requires
        1 <= jobs <= len,
        0 <= i < jobs,
        range_start(len, jobs, i) <= k < len,
    ensures
        i <= owner < jobs,
        range_start(len, jobs, owner) <= k < range_end(len, jobs, owner),
    decreases jobs - i,
{
    lemma_start_step(len, jobs, i);
    if k < range_end(len, jobs, i) {
        i
    } else {
        if i + 1 == jobs {
            lemma_start_bounds(len, jobs, jobs);
        }
        find_owner(len, jobs, k, i + 1)
    }
}

} // verus!
