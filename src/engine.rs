//! The bulk-transform engine: each element of a collection of host text
//! objects is viewed as UTF-8, handed to a transform, and its result written
//! back at the element's index. Work is split into contiguous per-worker
//! ranges; every worker owns one arena, and every index is written once.

use crate::arena::{is_management_point, BumpAllocatorManager};
use crate::partition::{lemma_start_bounds, lemma_start_step, make_range, range_end, range_start};
use crate::text::{all_wf, decode_text, TextUnits};
use vstd::prelude::*;

verus! {

/// A per-element transform, applied to the UTF-8 view of each text.
pub trait TextTransform {
    type Output: View;

    /// What `apply` returns, as a view.
    spec fn spec_apply(&self, text: Seq<u8>) -> <Self::Output as View>::V;

    fn apply(&self, text: &[u8]) -> (r: Self::Output)
        ensures
            r@ == self.spec_apply(text@),
    ;
}

/// Whether a transform's output can be finalized on a worker thread, or must
/// be handed to the coordinating thread for conversion. Fixed per type.
pub trait ConversionStrategy {
    spec fn spec_thread_safe() -> bool;

    fn thread_safe() -> (r: bool)
        ensures
            r == Self::spec_thread_safe(),
    ;
}

impl ConversionStrategy for Vec<u8> {
    open spec fn spec_thread_safe() -> bool {
        true
    }

    fn thread_safe() -> (r: bool) {
        true
    }
}

impl ConversionStrategy for bool {
    open spec fn spec_thread_safe() -> bool {
        true
    }

    fn thread_safe() -> (r: bool) {
        true
    }
}

/// A worker's result for the element at `index`.
pub enum WorkerResult<O> {
    /// Already in its final form: written back as it is.
    Finalized(usize, O),
    /// Still to be converted on the coordinating thread.
    Raw(usize, O),
}

impl<O> WorkerResult<O> {
    pub open spec fn spec_index(&self) -> usize {
        match self {
            WorkerResult::Finalized(i, _) => *i,
            WorkerResult::Raw(i, _) => *i,
        }
    }

    pub open spec fn spec_value(&self) -> O {
        match self {
            WorkerResult::Finalized(_, v) => *v,
            WorkerResult::Raw(_, v) => *v,
        }
    }

    /// Index of the element this result belongs to.
    pub fn index(&self) -> (r: usize)
        ensures
            r == self.spec_index(),
    {
        match self {
            WorkerResult::Finalized(i, _) => *i,
            WorkerResult::Raw(i, _) => *i,
        }
    }

    /// Splits the result into its index and value.
    pub fn into_parts(self) -> (r: (usize, O))
        ensures
            r.0 == self.spec_index(),
            r.1 == self.spec_value(),
    {
        match self {
            WorkerResult::Finalized(i, v) => (i, v),
            WorkerResult::Raw(i, v) => (i, v),
        }
    }
}

/// Tags a result by its output type's conversion strategy.
pub fn tag_result<O: ConversionStrategy>(index: usize, value: O) -> (r: WorkerResult<O>)
    ensures
        r.spec_index() == index,
        r.spec_value() == value,
        (r is Finalized) == O::spec_thread_safe(),
{
    if O::thread_safe() {
        WorkerResult::Finalized(index, value)
    } else {
        WorkerResult::Raw(index, value)
    }
}

/// The destination collection: sized once, then each slot written exactly
/// once by index. Until written, a slot is empty.
pub struct Destination<O> {
    slots: Vec<Option<O>>,
}

impl<O> View for Destination<O> {
    type V = Seq<Option<O>>;

    closed spec fn view(&self) -> Seq<Option<O>> {
        self.slots@
    }
}

/// Every slot has been written.
pub open spec fn all_written<O>(slots: Seq<Option<O>>) -> bool {
    forall|i: int| 0 <= i < slots.len() ==> (#[trigger] slots[i]) is Some
}

impl<O> Destination<O> {
    /// A destination of `len` empty slots.
    pub fn new(len: usize) -> (r: Self)
        ensures
            r@ == Seq::new(len as nat, |i: int| None::<O>),
    {
        let mut slots: Vec<Option<O>> = Vec::with_capacity(len);
        let mut i: usize = 0;
        while i < len
            invariant
                i <= len,
                slots@ == Seq::new(i as nat, |k: int| None::<O>),
            decreases len - i,
        {
            slots.push(None);
            i += 1;
            assert(slots@ =~= Seq::new(i as nat, |k: int| None::<O>));
        }
        Destination { slots }
    }

    /// Number of slots.
    pub fn len(&self) -> (r: usize)
        ensures
            r == self@.len(),
    {
        self.slots.len()
    }

    /// True when slot `index` has been written.
    pub fn is_written(&self, index: usize) -> (r: bool)
        requires
            index < self@.len(),
        ensures
            r == (self@[index as int] is Some),
    {
        self.slots[index].is_some()
    }

    /// Installs `value` at `index`; the slot must still be empty.
    pub fn set_transfer(&mut self, index: usize, value: O)
        requires
            index < old(self)@.len(),
            old(self)@[index as int] is None,
        ensures
            final(self)@ == old(self)@.update(index as int, Some(value)),
    {
        self.slots.set(index, Some(value));
    }

    /// Writes a worker's result at its index; the slot must still be empty.
    pub fn write_back(&mut self, result: WorkerResult<O>)
        requires
            result.spec_index() < old(self)@.len(),
            old(self)@[result.spec_index() as int] is None,
        ensures
            final(self)@ == old(self)@.update(
                result.spec_index() as int,
                Some(result.spec_value()),
            ),
    {
        let (i, v) = result.into_parts();
        self.set_transfer(i, v);
    }

    /// The written values, in index order; every slot must have been written.
    pub fn into_vec(self) -> (r: Vec<O>)
        requires
            all_written(self@),
        ensures
            r@.len() == self@.len(),
            forall|i: int| 0 <= i < r@.len() ==> Some(#[trigger] r@[i]) == self@[i],
    {
        let ghost full = self@;
        let mut slots = self.slots;
        let n = slots.len();
        let mut out: Vec<O> = Vec::with_capacity(n);
        let mut i: usize = 0;
        while i < n
            invariant
                i <= n == slots@.len() == full.len(),
                all_written(full),
                out@.len() == i,
                forall|k: int| 0 <= k < i ==> Some(#[trigger] out@[k]) == full[k],
                forall|k: int| i <= k < n ==> #[trigger] slots@[k] == full[k],
            decreases n - i,
        {
            let mut taken: Option<O> = None;
            slots.set_and_swap(i, &mut taken);
            assert(taken == full[i as int]);
            match taken {
                Some(v) => out.push(v),
                None => {
                    assert(full[i as int] is Some);
                },
            }
            i += 1;
        }
        out
    }
}

/// Slots written at distinct indices end the same whichever write comes first.
pub proof fn lemma_write_back_commutes<O>(slots: Seq<Option<O>>, i1: int, v1: O, i2: int, v2: O)
    requires
        0 <= i1 < slots.len(),
        0 <= i2 < slots.len(),
        i1 != i2,
    ensures
        slots.update(i1, Some(v1)).update(i2, Some(v2)) == slots.update(i2, Some(v2)).update(
            i1,
            Some(v1),
        ),
{
    assert(slots.update(i1, Some(v1)).update(i2, Some(v2)) =~= slots.update(i2, Some(v2)).update(
        i1,
        Some(v1),
    ));
}

/// The transform applied to the text at index `i`.
pub open spec fn expected<T: TextTransform>(texts: Seq<TextUnits>, t: &T, i: int) -> <T::Output as View>::V {
    t.spec_apply(texts[i].utf8())
}

/// Views text `i` in the arena and applies the transform to it.
pub fn process_item<T: TextTransform>(
    texts: &Vec<TextUnits>,
    i: usize,
    arena: &BumpAllocatorManager,
    t: &T,
) -> (r: T::Output)
    requires
        i < texts@.len(),
        texts@[i as int].wf(),
    ensures
        r@ == expected(texts@, t, i as int),
{
    let view = decode_text(&texts[i], arena.bump());
    t.apply(view)
}

/// One worker's whole run over its range `[start, end)`, with a private
/// arena that is checked every `MANAGEMENT_BATCH_SIZE` elements.
pub fn run_worker<T: TextTransform>(
    texts: &Vec<TextUnits>,
    start: usize,
    end: usize,
    t: &T,
    name: String,
) -> (r: Vec<WorkerResult<T::Output>>) where T::Output: ConversionStrategy
    requires
        start <= end <= texts@.len(),
        all_wf(texts@),
    ensures
        r@.len() == end - start,
        forall|k: int|
            0 <= k < r@.len() ==> (#[trigger] r@[k]).spec_index() == start + k
                && r@[k].spec_value()@ == expected(texts@, t, start + k),
{
    let mut arena = BumpAllocatorManager::new(name);
    let mut out: Vec<WorkerResult<T::Output>> = Vec::with_capacity(end - start);
    let mut i = start;
    while i < end
        invariant
            start <= i <= end <= texts@.len(),
            all_wf(texts@),
            out@.len() == i - start,
            forall|k: int|
                0 <= k < out@.len() ==> (#[trigger] out@[k]).spec_index() == start + k
                    && out@[k].spec_value()@ == expected(texts@, t, start + k),
        decreases end - i,
    {
        let v = process_item(texts, i, &arena, t);
        out.push(tag_result(i, v));
        if is_management_point(i - start) {
            arena.manage_memory();
        }
        i += 1;
    }
    out
}

/// Transforms every text on the calling thread, with one arena.
pub fn map_sequential<T: TextTransform>(texts: &Vec<TextUnits>, t: &T) -> (r: Vec<T::Output>)
    requires
        all_wf(texts@),
    ensures
        r@.len() == texts@.len(),
        forall|i: int| 0 <= i < r@.len() ==> (#[trigger] r@[i])@ == expected(texts@, t, i),
{
    let n = texts.len();
    let mut dest: Destination<T::Output> = Destination::new(n);
    let mut arena = BumpAllocatorManager::new(String::from_str("Sequential"));
    let mut i: usize = 0;
    while i < n
        invariant
            i <= n == texts@.len() == dest@.len(),
            all_wf(texts@),
            forall|k: int| 0 <= k < i ==> (#[trigger] dest@[k]) is Some && dest@[k]->0@ == expected(texts@, t, k),
            forall|k: int| i <= k < n ==> (#[trigger] dest@[k]) is None,
        decreases n - i,
    {
        let v = process_item(texts, i, &arena, t);
        dest.set_transfer(i, v);
        if is_management_point(i) {
            arena.manage_memory();
        }
        i += 1;
    }
    dest.into_vec()
}

/// Transforms every text, the work split into `min(jobs, len)` contiguous
/// ranges, one worker with its own arena per range, and each result written
/// back at its index. The result does not depend on `jobs`.
pub fn map_texts<T: TextTransform>(texts: &Vec<TextUnits>, jobs: usize, t: &T) -> (r: Vec<T::Output>) where T::Output: ConversionStrategy
    requires
        jobs >= 1,
        all_wf(texts@),
    ensures
        r@.len() == texts@.len(),
        forall|i: int| 0 <= i < r@.len() ==> (#[trigger] r@[i])@ == expected(texts@, t, i),
{
    if jobs == 1 {
        return map_sequential(texts, t);
    }
    let n = texts.len();
    let mut dest: Destination<T::Output> = Destination::new(n);
    if n == 0 {
        return dest.into_vec();
    }
    let real_jobs = if jobs < n { jobs } else { n };
    let mut w: usize = 0;
    while w < real_jobs
        invariant
            1 <= real_jobs <= n == texts@.len() == dest@.len(),
            w <= real_jobs,
            all_wf(texts@),
            forall|k: int|
                0 <= k < range_start(n as int, real_jobs as int, w as int) ==> (
                #[trigger] dest@[k]) is Some && dest@[k]->0@ == expected(texts@, t, k),
            forall|k: int|
                range_start(n as int, real_jobs as int, w as int) <= k < n ==> (
                #[trigger] dest@[k]) is None,
        decreases real_jobs - w,
    {
        let (start, end) = make_range(n, real_jobs, w);
        proof {
            lemma_start_step(n as int, real_jobs as int, w as int);
        }
        let mut results = run_worker(texts, start, end, t, String::from_str("Worker"));
        let ghost produced = results@;
        // results are written back in whatever order they are taken: each
        // index belongs to this range alone
        while results.len() > 0
            invariant
                1 <= real_jobs <= n == texts@.len() == dest@.len(),
                w < real_jobs,
                start == range_start(n as int, real_jobs as int, w as int),
                end == range_end(n as int, real_jobs as int, w as int),
                start <= end <= n,
                produced.len() == end - start,
                results@.len() <= produced.len(),
                forall|k: int| 0 <= k < results@.len() ==> #[trigger] results@[k] == produced[k],
                forall|k: int|
                    0 <= k < produced.len() ==> (#[trigger] produced[k]).spec_index() == start + k
                        && produced[k].spec_value()@ == expected(texts@, t, start + k),
                forall|k: int|
                    0 <= k < start ==> (#[trigger] dest@[k]) is Some && dest@[k]->0@ == expected(
                        texts@,
                        t,
                        k,
                    ),
                forall|k: int|
                    start + results@.len() <= k < end ==> (#[trigger] dest@[k]) is Some
                        && dest@[k]->0@ == expected(texts@, t, k),
                forall|k: int|
                    start <= k < start + results@.len() ==> (#[trigger] dest@[k]) is None,
                forall|k: int| end <= k < n ==> (#[trigger] dest@[k]) is None,
            decreases results@.len(),
        {
            let ghost last = results@.len() - 1;
            match results.pop() {
                Some(result) => {
                    assert(result == produced[last]);
                    dest.write_back(result);
                },
                None => {},
            }
        }
        w += 1;
    }
    proof {
        lemma_start_bounds(n as int, real_jobs as int, real_jobs as int);
    }
    dest.into_vec()
}

} // verus!
