//! Filling a chunk with contents, exactly once.
//!
//! The noise field itself is sampled outside this library, because it works
//! in floating point. The library says where to sample, admits each chunk to
//! generation once, decides from each sample whether the voxel is solid, and
//! marks the chunk done only when every voxel has been decided.

use vstd::prelude::*;
use vstd::arithmetic::div_mod::{lemma_div_denominator, lemma_fundamental_div_mod, lemma_mod_bound};
use crate::coords::{ChunkCoordinate, StreamingConfig, WorldPosition};
use crate::record::{ChunkRecord, GenerationState};
use crate::streaming::StreamingController;

verus! {

/// The noise field is sampled at a voxel's world position divided by this.
pub const NOISE_SCALE: u32 = 16;

/// Whether a noise sample makes its voxel solid: whether the sample is at
/// most zero.
///
/// `bits` is the sample as `f64::to_bits` gives it: the sign in the highest
/// bit, the magnitude in the other 63. A magnitude above that of infinity is
/// not a number and compares with nothing. Otherwise the sample is at most
/// zero when it is negative or a zero of either sign.
pub open spec fn spec_is_solid(bits: u64) -> bool {
    let magnitude = bits % 0x8000_0000_0000_0000;
    magnitude <= 0x7ff0_0000_0000_0000 && (magnitude == 0 || bits >= 0x8000_0000_0000_0000)
}

/// Whether a noise sample, given as `f64::to_bits` gives it, makes its voxel
/// solid: whether the sample is at most zero.
#[verifier::when_used_as_spec(spec_is_solid)]
pub fn is_solid(bits: u64) -> (solid: bool)
    ensures
        solid == spec_is_solid(bits),
{
    let magnitude: u64 = bits % 0x8000_0000_0000_0000;
    magnitude <= 0x7ff0_0000_0000_0000 && (magnitude == 0 || bits >= 0x8000_0000_0000_0000)
}

/// How many voxels a chunk has: the cube of its edge length.
pub open spec fn spec_voxel_count(cfg: StreamingConfig) -> int {
    cfg.edge() * cfg.edge() * cfg.edge()
}

/// World position of voxel number `i` of chunk `c`. The voxels are numbered
/// with the local `x` slowest and the local `z` fastest, so voxel `i` has the
/// local position `(i / edge², (i / edge) % edge, i % edge)`; its world
/// position is the local one plus the chunk's origin.
pub open spec fn spec_voxel_position(c: ChunkCoordinate, cfg: StreamingConfig, i: int) -> WorldPosition {
    WorldPosition {
        x: (c.x * cfg.edge() + i / (cfg.edge() * cfg.edge())) as i128,
        y: (c.y * cfg.edge() + (i / cfg.edge()) % cfg.edge()) as i128,
        z: (c.z * cfg.edge() + i % cfg.edge()) as i128,
    }
}

/// The world positions of the solid voxels among the first `n` of chunk `c`,
/// in the order of their numbers.
pub open spec fn solid_positions(c: ChunkCoordinate, cfg: StreamingConfig, samples: Seq<u64>, n: nat) -> Seq<
    WorldPosition,
>
    decreases n,
{
    if n == 0 {
        Seq::empty()
    } else {
        let before = solid_positions(c, cfg, samples, (n - 1) as nat);
        if spec_is_solid(samples[n - 1]) {
            before.push(spec_voxel_position(c, cfg, n - 1))
        } else {
            before
        }
    }
}

/// The local position of a voxel is within the chunk, and gives its number
/// back.
pub proof fn lemma_local_position(e: int, i: int)
    requires
        1 <= e,
        0 <= i < e * e * e,
    ensures
        0 <= i / (e * e) < e,
        0 <= (i / e) % e < e,
        0 <= i % e < e,
        i == ((i / (e * e)) * e + (i / e) % e) * e + i % e,
{
    let q = i / e;
    lemma_fundamental_div_mod(i, e);
    lemma_mod_bound(i, e);
    lemma_fundamental_div_mod(q, e);
    lemma_mod_bound(q, e);
    lemma_div_denominator(i, e, e);
    assert(q / e == i / (e * e));
    let a = q / e;
    assert(0 <= q) by (nonlinear_arith)
        requires
            i == e * q + i % e,
            0 <= i,
            0 <= i % e < e,
            1 <= e,
    ;
    assert(0 <= a) by (nonlinear_arith)
        requires
            q == e * a + q % e,
            0 <= q,
            0 <= q % e < e,
            1 <= e,
    ;
    assert(a < e) by (nonlinear_arith)
        requires
            i == e * q + i % e,
            q == e * a + q % e,
            0 <= i % e,
            0 <= q % e,
            i < e * e * e,
            1 <= e,
    ;
    assert(i == ((a * e) + q % e) * e + i % e) by (nonlinear_arith)
        requires
            i == e * q + i % e,
            q == e * a + q % e,
    ;
}

/// Two voxels of a chunk with the same world position are the same voxel.
pub proof fn lemma_voxel_positions_differ(c: ChunkCoordinate, cfg: StreamingConfig, i: int, j: int)
    requires
        cfg.wf(),
        0 <= i < spec_voxel_count(cfg),
        0 <= j < spec_voxel_count(cfg),
        spec_voxel_position(c, cfg, i) == spec_voxel_position(c, cfg, j),
    ensures
        i == j,
{
    let e = cfg.edge();
    lemma_local_position(e, i);
    lemma_local_position(e, j);
    lemma_origin_bound(c.x as int, e);
    lemma_origin_bound(c.y as int, e);
    lemma_origin_bound(c.z as int, e);
}

/// A chunk's origin lies within `2^95` of the world's origin.
proof fn lemma_origin_bound(c: int, e: int)
    requires
        i64::MIN <= c <= i64::MAX,
        1 <= e <= u32::MAX,
    ensures
        -0x8000_0000_0000_0000_0000_0000 <= c * e <= 0x8000_0000_0000_0000_0000_0000,
{
    assert(-0x8000_0000_0000_0000 * 0x1_0000_0000 <= c * e <= 0x8000_0000_0000_0000 * 0x1_0000_0000)
        by (nonlinear_arith)
        requires
            -0x8000_0000_0000_0000 <= c <= 0x8000_0000_0000_0000,
            0 <= e <= 0x1_0000_0000,
    ;
}

/// A voxel is among the solid ones exactly when its sample is at most zero.
pub proof fn lemma_solid_iff_sample(c: ChunkCoordinate, cfg: StreamingConfig, samples: Seq<u64>, n: nat, i: int)
    requires
        cfg.wf(),
        n <= spec_voxel_count(cfg),
        0 <= i < n,
    ensures
        solid_positions(c, cfg, samples, n).contains(spec_voxel_position(c, cfg, i)) <==> spec_is_solid(
            samples[i],
        ),
    decreases n,
{
    let target = spec_voxel_position(c, cfg, i);
    let before = solid_positions(c, cfg, samples, (n - 1) as nat);
    let last = spec_voxel_position(c, cfg, n - 1);
    if i < n - 1 {
        lemma_solid_iff_sample(c, cfg, samples, (n - 1) as nat, i);
        if spec_is_solid(samples[n - 1]) {
            lemma_push_contains_position(before, last);
            if target == last {
                lemma_voxel_positions_differ(c, cfg, i, n - 1);
            }
        }
    } else {
        lemma_solid_positions_come_from(c, cfg, samples, (n - 1) as nat, target);
        if before.contains(target) {
            let j = choose|j: int| 0 <= j < n - 1 && spec_voxel_position(c, cfg, j) == target;
            lemma_voxel_positions_differ(c, cfg, j, i);
        }
        if spec_is_solid(samples[n - 1]) {
            lemma_push_contains_position(before, last);
        }
    }
}

/// Every solid position is the position of one of the voxels.
proof fn lemma_solid_positions_come_from(
    c: ChunkCoordinate,
    cfg: StreamingConfig,
    samples: Seq<u64>,
    n: nat,
    target: WorldPosition,
)
    ensures
        solid_positions(c, cfg, samples, n).contains(target) ==> exists|j: int|
            0 <= j < n && spec_voxel_position(c, cfg, j) == target,
    decreases n,
{
    if n > 0 {
        let before = solid_positions(c, cfg, samples, (n - 1) as nat);
        lemma_solid_positions_come_from(c, cfg, samples, (n - 1) as nat, target);
        if spec_is_solid(samples[n - 1]) {
            lemma_push_contains_position(before, spec_voxel_position(c, cfg, n - 1));
        }
        if solid_positions(c, cfg, samples, n).contains(target) {
            if before.contains(target) {
                let j = choose|j: int| 0 <= j < n - 1 && spec_voxel_position(c, cfg, j) == target;
                assert(0 <= j < n && spec_voxel_position(c, cfg, j) == target);
            } else {
                assert(spec_voxel_position(c, cfg, n - 1) == target);
            }
        }
    } else {
        assert(solid_positions(c, cfg, samples, n) =~= Seq::<WorldPosition>::empty());
    }
}

/// What `push` does to membership.
proof fn lemma_push_contains_position(s: Seq<WorldPosition>, x: WorldPosition)
    ensures
        forall|p: WorldPosition| #[trigger] s.push(x).contains(p) <==> (s.contains(p) || p == x),
{
    let t = s.push(x);
    assert forall|p: WorldPosition| #[trigger] t.contains(p) <==> (s.contains(p) || p == x) by {
        if s.contains(p) {
            let i = choose|i: int| 0 <= i < s.len() && s[i] == p;
            assert(t[i] == p);
        }
        if p == x {
            assert(t[s.len() as int] == p);
        }
        if t.contains(p) {
            let i = choose|i: int| 0 <= i < t.len() && t[i] == p;
            if i < s.len() {
                assert(s[i] == p);
            }
        }
    }
}

impl StreamingConfig {
    /// How many voxels a chunk has: the cube of its edge length.
    pub fn voxel_count(&self) -> (n: u128)
        ensures
            n == spec_voxel_count(*self),
    {
        let e: u128 = self.chunk_edge_length() as u128;
        assert(0 <= e * e <= 0xffff_ffff * 0xffff_ffff) by (nonlinear_arith)
            requires
                0 <= e <= 0xffff_ffff,
        ;
        assert(0 <= e * e * e <= 0xffff_ffff * 0xffff_ffff * 0xffff_ffff) by (nonlinear_arith)
            requires
                0 <= e <= 0xffff_ffff,
                0 <= e * e <= 0xffff_ffff * 0xffff_ffff,
        ;
        e * e * e
    }
}

/// World position of voxel number `i` of chunk `c`.
pub fn voxel_position(c: &ChunkCoordinate, cfg: &StreamingConfig, i: u128) -> (p: WorldPosition)
    requires
        cfg.wf(),
        i < spec_voxel_count(*cfg),
    ensures
        p == spec_voxel_position(*c, *cfg, i as int),
        p.x == c.x * cfg.edge() + (i as int) / (cfg.edge() * cfg.edge()),
        p.y == c.y * cfg.edge() + ((i as int) / cfg.edge()) % cfg.edge(),
        p.z == c.z * cfg.edge() + (i as int) % cfg.edge(),
{
    let edge: u32 = cfg.chunk_edge_length();
    let e: u128 = edge as u128;
    proof {
        lemma_local_position(e as int, i as int);
        lemma_origin_bound(c.x as int, e as int);
        lemma_origin_bound(c.y as int, e as int);
        lemma_origin_bound(c.z as int, e as int);
        assert(1 <= e * e <= 0xffff_ffff * 0xffff_ffff) by (nonlinear_arith)
            requires
                1 <= e <= 0xffff_ffff,
        ;
    }
    let lx: u128 = i / (e * e);
    let ly: u128 = (i / e) % e;
    let lz: u128 = i % e;
    WorldPosition {
        x: crate::coords::origin_along(c.x, edge) + lx as i128,
        y: crate::coords::origin_along(c.y, edge) + ly as i128,
        z: crate::coords::origin_along(c.z, edge) + lz as i128,
    }
}

/// The world positions of all voxels of chunk `c`, in the order of their
/// numbers: where the noise field is to be sampled for this chunk.
pub fn sample_points(c: &ChunkCoordinate, cfg: &StreamingConfig) -> (points: Vec<WorldPosition>)
    requires
        cfg.wf(),
    ensures
        points@.len() == spec_voxel_count(*cfg),
        forall|i: int| 0 <= i < points@.len() ==> #[trigger] points@[i] == spec_voxel_position(*c, *cfg, i),
{
    let count: u128 = cfg.voxel_count();
    let mut points: Vec<WorldPosition> = Vec::new();
    let mut i: u128 = 0;
    while i < count
        invariant
            cfg.wf(),
            count == spec_voxel_count(*cfg),
            0 <= i <= count,
            points@.len() == i,
            forall|j: int| 0 <= j < i ==> #[trigger] points@[j] == spec_voxel_position(*c, *cfg, j),
        decreases count - i,
    {
        points.push(voxel_position(c, cfg, i));
        i += 1;
    }
    points
}

/// The world positions of the solid voxels of chunk `c`, given one sample for
/// each voxel in the order of their numbers.
pub fn solid_voxels(c: &ChunkCoordinate, cfg: &StreamingConfig, samples: &Vec<u64>) -> (solid: Vec<WorldPosition>)
    requires
        cfg.wf(),
        samples@.len() <= spec_voxel_count(*cfg),
    ensures
        solid@ == solid_positions(*c, *cfg, samples@, samples@.len()),
{
    let mut solid: Vec<WorldPosition> = Vec::new();
    let mut i: usize = 0;
    while i < samples.len()
        invariant
            cfg.wf(),
            samples@.len() <= spec_voxel_count(*cfg),
            0 <= i <= samples@.len(),
            solid@ == solid_positions(*c, *cfg, samples@, i as nat),
        decreases samples.len() - i,
    {
        if is_solid(samples[i]) {
            solid.push(voxel_position(c, cfg, i as u128));
        }
        i += 1;
    }
    solid
}

impl StreamingController {
    /// Admits chunk `c` to generation: if the index holds it and its
    /// generation has not started, it moves to `Generating`. A chunk is
    /// admitted at most once: for one that is generating or done, and for one
    /// that the index does not hold, nothing changes.
    pub fn begin_generation(&mut self, c: &ChunkCoordinate) -> (admitted: bool)
        requires
            old(self).wf(),
        ensures
            final(self).wf(),
            final(self).config == old(self).config,
            admitted == (old(self).index@.dom().contains(*c) && old(self).index@[*c].generation_state
                == GenerationState::NotStarted),
            admitted ==> final(self).index@ == old(self).index@.insert(
                *c,
                old(self).index@[*c].with_generation_state(GenerationState::Generating),
            ),
            !admitted ==> final(self).index@ == old(self).index@,
    {
        self.index.advance_generation(c, GenerationState::Generating)
    }

    /// Ends the generation of chunk `c`, given one sample for each of its
    /// voxels in the order of their numbers. If the chunk is generating and
    /// there is a sample for every voxel, it moves to `Done` and the world
    /// positions of its solid voxels are returned. Otherwise nothing changes
    /// and nothing is returned: not for a chunk that is done, nor for one
    /// that was never admitted, nor while a voxel is still without a sample.
    pub fn complete_generation(&mut self, c: &ChunkCoordinate, samples: &Vec<u64>) -> (solid: Option<
        Vec<WorldPosition>,
    >)
        requires
            old(self).wf(),
        ensures
            final(self).wf(),
            final(self).config == old(self).config,
            solid.is_some() <==> (old(self).index@.dom().contains(*c) && old(
                self,
            ).index@[*c].generation_state == GenerationState::Generating && samples@.len()
                == spec_voxel_count(old(self).config)),
            solid matches Some(positions) ==> positions@ == solid_positions(
                *c,
                old(self).config,
                samples@,
                samples@.len(),
            ) && final(self).index@ == old(self).index@.insert(
                *c,
                old(self).index@[*c].with_generation_state(GenerationState::Done),
            ),
            solid.is_none() ==> final(self).index@ == old(self).index@,
    {
        let cfg: StreamingConfig = self.config;
        match self.index.position(c) {
            None => None,
            Some(i) => {
                let record: ChunkRecord = self.index.entry(i);
                match record.generation_state {
                    GenerationState::Generating => {
                        if samples.len() as u128 != cfg.voxel_count() {
                            return None;
                        }
                        let positions: Vec<WorldPosition> = solid_voxels(c, &cfg, samples);
                        let moved: bool = self.index.advance_generation_at(i, GenerationState::Done);
                        assert(moved);
                        Some(positions)
                    },
                    _ => None,
                }
            },
        }
    }
}

} // verus!
