//! A chunk's record: its identity and its two lifecycles.

use vstd::prelude::*;
use crate::coords::ChunkCoordinate;

verus! {

/// Where a chunk stands between being wanted and being gone.
///
/// A chunk moves `ShouldLoad` → `Loaded` → `ShouldUnload` → `Unloaded`. It may
/// skip `Loaded` (a chunk that falls out of range before it was ever shown),
/// and it never moves back.
#[derive(Clone, Copy, Debug, PartialEq, Eq, Structural)]
pub enum LoadState {
    ShouldLoad,
    Loaded,
    ShouldUnload,
    Unloaded,
}

/// Whether a chunk's contents have been produced.
///
/// A chunk moves `NotStarted` → `Generating` → `Done`, one step at a time,
/// and never moves back.
#[derive(Clone, Copy, Debug, PartialEq, Eq, Structural)]
pub enum GenerationState {
    NotStarted,
    Generating,
    Done,
}

impl LoadState {
    /// Position in the lifecycle.
    pub open spec fn rank(self) -> int {
        match self {
            LoadState::ShouldLoad => 0,
            LoadState::Loaded => 1,
            LoadState::ShouldUnload => 2,
            LoadState::Unloaded => 3,
        }
    }

    /// Whether the chunk is, or is about to be, shown: it has not been asked
    /// to unload.
    pub open spec fn spec_is_live(self) -> bool {
        self == LoadState::ShouldLoad || self == LoadState::Loaded
    }

    /// Whether the record may be taken out of the index.
    pub open spec fn spec_is_evictable(self) -> bool {
        self == LoadState::ShouldUnload || self == LoadState::Unloaded
    }

    /// The steps of the lifecycle.
    pub open spec fn may_become(self, next: LoadState) -> bool {
        match (self, next) {
            (LoadState::ShouldLoad, LoadState::Loaded) => true,
            (LoadState::ShouldLoad, LoadState::ShouldUnload) => true,
            (LoadState::Loaded, LoadState::ShouldUnload) => true,
            (LoadState::ShouldUnload, LoadState::Unloaded) => true,
            _ => false,
        }
    }

    #[verifier::when_used_as_spec(spec_is_live)]
    pub fn is_live(self) -> (r: bool)
        ensures
            r == self.spec_is_live(),
    {
        match self {
            LoadState::ShouldLoad => true,
            LoadState::Loaded => true,
            _ => false,
        }
    }

    #[verifier::when_used_as_spec(spec_is_evictable)]
    pub fn is_evictable(self) -> (r: bool)
        ensures
            r == self.spec_is_evictable(),
    {
        match self {
            LoadState::ShouldUnload => true,
            LoadState::Unloaded => true,
            _ => false,
        }
    }

    /// Whether `next` is a step of the lifecycle from here.
    pub fn can_advance_to(self, next: LoadState) -> (r: bool)
        ensures
            r == self.may_become(next),
    {
        match (self, next) {
            (LoadState::ShouldLoad, LoadState::Loaded) => true,
            (LoadState::ShouldLoad, LoadState::ShouldUnload) => true,
            (LoadState::Loaded, LoadState::ShouldUnload) => true,
            (LoadState::ShouldUnload, LoadState::Unloaded) => true,
            _ => false,
        }
    }
}

impl GenerationState {
    /// Position in the lifecycle.
    pub open spec fn rank(self) -> int {
        match self {
            GenerationState::NotStarted => 0,
            GenerationState::Generating => 1,
            GenerationState::Done => 2,
        }
    }

    /// The steps of the lifecycle: exactly one position forward.
    pub open spec fn may_become(self, next: GenerationState) -> bool {
        next.rank() == self.rank() + 1
    }

    /// Whether `next` is a step of the lifecycle from here.
    pub fn can_advance_to(self, next: GenerationState) -> (r: bool)
        ensures
            r == self.may_become(next),
    {
        match (self, next) {
            (GenerationState::NotStarted, GenerationState::Generating) => true,
            (GenerationState::Generating, GenerationState::Done) => true,
            _ => false,
        }
    }
}

/// One chunk of the world, as the index holds it.
#[derive(Clone, Copy, Debug, PartialEq, Eq, Structural)]
pub struct ChunkRecord {
    pub coordinate: ChunkCoordinate,
    pub load_state: LoadState,
    pub generation_state: GenerationState,
}

impl ChunkRecord {
    /// The record of a chunk that was just found to be wanted.
    pub open spec fn spec_fresh(coordinate: ChunkCoordinate) -> ChunkRecord {
        ChunkRecord {
            coordinate,
            load_state: LoadState::ShouldLoad,
            generation_state: GenerationState::NotStarted,
        }
    }

    /// This record in another load state.
    pub open spec fn with_load_state(self, load_state: LoadState) -> ChunkRecord {
        ChunkRecord { load_state, ..self }
    }

    /// This record in another generation state.
    pub open spec fn with_generation_state(self, generation_state: GenerationState) -> ChunkRecord {
        ChunkRecord { generation_state, ..self }
    }

    /// The record of a chunk that was just found to be wanted: to be loaded,
    /// with no contents yet.
    #[verifier::when_used_as_spec(spec_fresh)]
    pub fn fresh(coordinate: ChunkCoordinate) -> (r: ChunkRecord)
        ensures
            r == ChunkRecord::spec_fresh(coordinate),
    {
        ChunkRecord {
            coordinate,
            load_state: LoadState::ShouldLoad,
            generation_state: GenerationState::NotStarted,
        }
    }
}

/// A step of the load lifecycle moves strictly forward, so no sequence of
/// steps returns to an earlier state; in particular nothing follows `Unloaded`
/// and nothing leads back to `ShouldLoad`.
pub proof fn lemma_load_state_only_advances(from: LoadState, to: LoadState)
    requires
        from.may_become(to),
    ensures
        from.rank() < to.rank(),
        to != LoadState::ShouldLoad,
        from != LoadState::Unloaded,
{
}

/// A step of the generation lifecycle moves exactly one position forward:
/// `NotStarted` → `Generating` or `Generating` → `Done`. Nothing follows
/// `Done`, and nothing leads back to `NotStarted`.
pub proof fn lemma_generation_state_only_advances(from: GenerationState, to: GenerationState)
    requires
        from.may_become(to),
    ensures
        from.rank() + 1 == to.rank(),
        (from == GenerationState::NotStarted && to == GenerationState::Generating) || (from
            == GenerationState::Generating && to == GenerationState::Done),
{
}

} // verus!
