//! Per-worker bump arena with a usage policy that resets or frees it once it
//! has grown past fixed thresholds, so long batches keep memory bounded.

use crate::to_utf8::{ucs1_to_utf8, ucs2_to_utf8, ucs4_to_utf8, utf8_of_utf16, Utf8View};
use crate::unicode::{all_scalars, latin1_scalars, utf8_of};
use vstd::prelude::*;

verus! {

#[verifier::external_type_specification]
#[verifier::external_body]
pub struct ExBump<const MIN_ALIGN: usize>(bumpalo::Bump<MIN_ALIGN>);

/// Capacity, in bytes, of a freshly made arena.
pub const INITIAL_CAPACITY: usize = 262144;

/// Above this many allocated bytes the arena is rewound and keeps its memory.
pub const RESET_THRESHOLD: usize = 16777216;

/// Above this many allocated bytes the arena is dropped and made afresh.
pub const FREE_THRESHOLD: usize = 33554432;

/// A worker checks its arena once every this many elements.
pub const MANAGEMENT_BATCH_SIZE: usize = 100;

/// Relies on `bumpalo::Bump::with_capacity`: a new arena with room for
/// `capacity` bytes in its first chunk.
#[verifier::external_body]
fn new_bump(capacity: usize) -> bumpalo::Bump {
    bumpalo::Bump::with_capacity(capacity)
}

/// Relies on `bumpalo::Bump::allocated_bytes`: the bytes the arena holds in
/// its chunks.
#[verifier::external_body]
fn bump_allocated_bytes(bump: &bumpalo::Bump) -> usize {
    bump.allocated_bytes()
}

/// Relies on `bumpalo::Bump::reset`: rewinds the bump pointer, keeps the
/// current chunk and frees the others.
#[verifier::external_body]
fn bump_reset(bump: &mut bumpalo::Bump) {
    bump.reset()
}

/// Relies on `bumpalo::Bump::alloc_slice_copy`: a copy of `bytes` placed in
/// the arena.
#[verifier::external_body]
fn bump_copy<'a>(bump: &'a bumpalo::Bump, bytes: &[u8]) -> (r: &'a [u8])
    ensures
        r@ == bytes@,
{
    bump.alloc_slice_copy(bytes)
}

/// What the usage policy does to an arena.
#[derive(PartialEq, Eq, Structural, Clone, Copy, Debug)]
pub enum MemoryAction {
    /// Leave the arena as it is.
    Keep,
    /// Rewind the bump pointer, keeping the arena's memory.
    Reset,
    /// Drop the arena and make a new one at the initial capacity.
    Release,
}

/// The policy for an arena holding `allocated` bytes.
pub open spec fn spec_memory_action(allocated: int) -> MemoryAction {
    if allocated > FREE_THRESHOLD {
        MemoryAction::Release
    } else if allocated > RESET_THRESHOLD {
        MemoryAction::Reset
    } else {
        MemoryAction::Keep
    }
}

/// The policy for an arena holding `allocated` bytes.
pub fn memory_action(allocated: usize) -> (r: MemoryAction)
    ensures
        r == spec_memory_action(allocated as int),
{
    if allocated > FREE_THRESHOLD {
        MemoryAction::Release
    } else if allocated > RESET_THRESHOLD {
        MemoryAction::Reset
    } else {
        MemoryAction::Keep
    }
}

/// True when the element at `offset` from the start of a worker's range is
/// one at which the worker checks its arena.
pub open spec fn spec_is_management_point(offset: int) -> bool {
    offset % (MANAGEMENT_BATCH_SIZE as int) == 0
}

/// True when the element at `offset` from the start of a worker's range is
/// one at which the worker checks its arena.
pub fn is_management_point(offset: usize) -> (r: bool)
    ensures
        r == spec_is_management_point(offset as int),
{
    offset % MANAGEMENT_BATCH_SIZE == 0
}

/// Past the reset threshold the arena is rewound in place; past the free
/// threshold it is replaced by a fresh one; otherwise it is left alone.
pub proof fn lemma_threshold_policy(allocated: int)
    ensures
        allocated <= RESET_THRESHOLD ==> spec_memory_action(allocated) == MemoryAction::Keep,
        RESET_THRESHOLD < allocated <= FREE_THRESHOLD ==> spec_memory_action(allocated)
            == MemoryAction::Reset,
        FREE_THRESHOLD < allocated ==> spec_memory_action(allocated) == MemoryAction::Release,
{
}

/// A named bump arena owned by one worker, with its usage policy.
pub struct BumpAllocatorManager {
    pub name: String,
    pub bump: bumpalo::Bump,
    /// What the last call of `manage_memory` did.
    pub last_action: MemoryAction,
    /// Number of resets and releases so far; borrows of the arena do not
    /// outlive the generation in which they were made.
    pub generation: Ghost<nat>,
    /// True while the arena is the one made at the initial capacity by `new`
    /// or by the last release, and has not been rewound since.
    pub fresh: Ghost<bool>,
}

impl BumpAllocatorManager {
    /// A manager with a fresh arena at the initial capacity.
    pub fn new(name: String) -> (r: Self)
        ensures
            r.name == name,
            r.last_action == MemoryAction::Keep,
            r.generation@ == 0,
            r.fresh@,
    {
        BumpAllocatorManager {
            name,
            bump: new_bump(INITIAL_CAPACITY),
            last_action: MemoryAction::Keep,
            generation: Ghost(0),
            fresh: Ghost(true),
        }
    }

    /// Applies the usage policy to an arena that holds `allocated` bytes.
    pub fn apply_memory_action(&mut self, allocated: usize)
        ensures
            final(self).name == old(self).name,
            final(self).last_action == spec_memory_action(allocated as int),
            final(self).last_action == MemoryAction::Keep ==> final(self).bump == old(self).bump
                && final(self).generation@ == old(self).generation@ && final(self).fresh@ == old(
                self,
            ).fresh@,
            final(self).last_action == MemoryAction::Reset ==> final(self).generation@ == old(
                self,
            ).generation@ + 1 && !final(self).fresh@,
            final(self).last_action == MemoryAction::Release ==> final(self).generation@ == old(
                self,
            ).generation@ + 1 && final(self).fresh@,
    {
        let action = memory_action(allocated);
        match action {
            MemoryAction::Release => {
                self.bump = new_bump(INITIAL_CAPACITY);
                self.generation = Ghost(self.generation@ + 1);
                self.fresh = Ghost(true);
            },
            MemoryAction::Reset => {
                bump_reset(&mut self.bump);
                self.generation = Ghost(self.generation@ + 1);
                self.fresh = Ghost(false);
            },
            MemoryAction::Keep => {},
        }
        self.last_action = action;
    }

    /// Reads how much the arena holds and applies the usage policy.
    pub fn manage_memory(&mut self)
        ensures
            final(self).name == old(self).name,
            final(self).last_action == MemoryAction::Keep ==> final(self).bump == old(self).bump,
            final(self).generation@ == old(self).generation@ + if final(self).last_action
                == MemoryAction::Keep {
                0int
            } else {
                1int
            },
    {
        let allocated = bump_allocated_bytes(&self.bump);
        self.apply_memory_action(allocated);
    }

    /// The arena itself.
    pub fn bump(&self) -> (r: &bumpalo::Bump)
        ensures
            *r == self.bump,
    {
        &self.bump
    }
}

/// Latin-1 units as UTF-8: the input itself when it is all ASCII, else a
/// copy written into the arena.
pub fn ucs1_to_utf8_bump<'a>(input: &'a [u8], bump: &'a bumpalo::Bump) -> (r: &'a [u8])
    ensures
        r@ == utf8_of(latin1_scalars(input@)),
{
    match ucs1_to_utf8(input) {
        Utf8View::Borrowed(b) => b,
        Utf8View::Owned(v) => bump_copy(bump, v.as_slice()),
    }
}

/// UTF-16 units as UTF-8, written into the arena.
pub fn ucs2_to_utf8_bump<'a>(input: &[u16], bump: &'a bumpalo::Bump) -> (r: &'a [u8])
    ensures
        r@ == utf8_of_utf16(input@),
{
    let v = ucs2_to_utf8(input);
    bump_copy(bump, v.as_slice())
}

/// UTF-32 units as UTF-8, written into the arena.
pub fn ucs4_to_utf8_bump<'a>(input: &[u32], bump: &'a bumpalo::Bump) -> (r: &'a [u8])
    requires
        all_scalars(input@),
    ensures
        r@ == utf8_of(input@),
{
    let v = ucs4_to_utf8(input);
    bump_copy(bump, v.as_slice())
}

} // verus!
