//! Chunk-space and world-space coordinates, the two tunables, and the
//! geometry that streaming rests on: chunk centres, the chunk that contains a
//! point, and the render-distance test.

use vstd::prelude::*;

verus! {

/// Identity of a chunk: its position in chunk space, in units of one chunk edge.
#[derive(Clone, Copy, Debug, PartialEq, Eq, Structural)]
pub struct ChunkCoordinate {
    pub x: i64,
    pub y: i64,
    pub z: i64,
}

/// Where an observer stands, in whole world units.
#[derive(Clone, Copy, Debug, PartialEq, Eq, Structural)]
pub struct ObserverState {
    pub x: i64,
    pub y: i64,
    pub z: i64,
}

/// A point of the world derived from a chunk: its origin, its centre, or one
/// of its voxels, in whole world units.
#[derive(Clone, Copy, Debug, PartialEq, Eq, Structural)]
pub struct WorldPosition {
    pub x: i128,
    pub y: i128,
    pub z: i128,
}

/// The two tunables of streaming. Both are at least 1.
#[derive(Clone, Copy, Debug)]
pub struct StreamingConfig {
    chunk_edge_length: u32,
    render_distance_chunks: u32,
}

/// World coordinate of a chunk's origin (its lowest corner) along one axis.
pub open spec fn origin_axis(c: int, edge: int) -> int {
    c * edge
}

/// World coordinate of a chunk's centre along one axis.
pub open spec fn center_axis(c: int, edge: int) -> int {
    c * edge + edge / 2
}

/// The chunk coordinate whose cell holds world coordinate `p`: the floor of
/// `p / edge`.
pub open spec fn containing_axis(p: int, edge: int) -> int {
    p / edge
}

/// Squared Euclidean distance between a chunk's centre and an observer.
pub open spec fn center_distance_squared(c: ChunkCoordinate, p: ObserverState, edge: int) -> int {
    let dx = center_axis(c.x as int, edge) - p.x;
    let dy = center_axis(c.y as int, edge) - p.y;
    let dz = center_axis(c.z as int, edge) - p.z;
    dx * dx + dy * dy + dz * dz
}

impl StreamingConfig {
    /// Edge length of a chunk, in world units.
    pub closed spec fn edge(&self) -> int {
        self.chunk_edge_length as int
    }

    /// Render distance, in chunks.
    pub closed spec fn radius(&self) -> int {
        self.render_distance_chunks as int
    }

    /// Render distance in world units: the one threshold that both passes of
    /// a tick compare against.
    pub open spec fn threshold(&self) -> int {
        self.radius() * self.edge()
    }

    /// Both tunables are positive.
    pub open spec fn wf(&self) -> bool {
        &&& 1 <= self.edge() <= u32::MAX
        &&& 1 <= self.radius() <= u32::MAX
    }

    /// A configuration, if both tunables are positive.
    pub fn new(chunk_edge_length: u32, render_distance_chunks: u32) -> (r: Option<Self>)
        ensures
            r.is_some() <==> (chunk_edge_length >= 1 && render_distance_chunks >= 1),
            r matches Some(cfg) ==> cfg.wf() && cfg.edge() == chunk_edge_length && cfg.radius()
                == render_distance_chunks,
    {
        if chunk_edge_length >= 1 && render_distance_chunks >= 1 {
            Some(StreamingConfig { chunk_edge_length, render_distance_chunks })
        } else {
            None
        }
    }

    /// Chunks of edge 16, loaded within 3 chunks of an observer.
    pub fn standard() -> (cfg: Self)
        ensures
            cfg.wf(),
            cfg.edge() == 16,
            cfg.radius() == 3,
    {
        StreamingConfig { chunk_edge_length: 16, render_distance_chunks: 3 }
    }

    /// Edge length of a chunk, in world units.
    pub fn chunk_edge_length(&self) -> (e: u32)
        ensures
            e == self.edge(),
    {
        self.chunk_edge_length
    }

    /// Render distance, in chunks.
    pub fn render_distance_chunks(&self) -> (r: u32)
        ensures
            r == self.radius(),
    {
        self.render_distance_chunks
    }

    /// Render distance in world units.
    pub fn render_distance_units(&self) -> (t: u64)
        ensures
            t == self.threshold(),
    {
        let r: u64 = self.render_distance_chunks as u64;
        let e: u64 = self.chunk_edge_length as u64;
        assert(0 <= r * e <= 0xffff_ffff * 0xffff_ffff) by (nonlinear_arith)
            requires
                0 <= r <= 0xffff_ffff,
                0 <= e <= 0xffff_ffff,
        ;
        r * e
    }

    /// Whether the centre of chunk `c` lies strictly within render distance
    /// of observer `p`.
    pub open spec fn in_range(&self, c: ChunkCoordinate, p: ObserverState) -> bool {
        center_distance_squared(c, p, self.edge()) < self.threshold() * self.threshold()
    }

    /// Whether `c` lies in the cube of candidates around `p`: on each axis,
    /// from `render_distance_chunks` below the chunk that contains `p` up to,
    /// but not including, `render_distance_chunks` above it.
    pub open spec fn in_neighbourhood(&self, c: ChunkCoordinate, p: ObserverState) -> bool {
        &&& containing_axis(p.x as int, self.edge()) - self.radius() <= c.x
            < containing_axis(p.x as int, self.edge()) + self.radius()
        &&& containing_axis(p.y as int, self.edge()) - self.radius() <= c.y
            < containing_axis(p.y as int, self.edge()) + self.radius()
        &&& containing_axis(p.z as int, self.edge()) - self.radius() <= c.z
            < containing_axis(p.z as int, self.edge()) + self.radius()
    }

    /// Whether the load pass wants `c` to exist on behalf of observer `p`.
    pub open spec fn wants(&self, c: ChunkCoordinate, p: ObserverState) -> bool {
        self.in_neighbourhood(c, p) && self.in_range(c, p)
    }

    /// Whether some observer is within render distance of chunk `c`.
    pub open spec fn in_range_of_any(&self, c: ChunkCoordinate, observers: Seq<ObserverState>) -> bool {
        exists|i: int| 0 <= i < observers.len() && self.in_range(c, #[trigger] observers[i])
    }

    /// Whether the load pass wants `c` to exist on behalf of some observer.
    pub open spec fn wanted_by_any(&self, c: ChunkCoordinate, observers: Seq<ObserverState>) -> bool {
        exists|i: int| 0 <= i < observers.len() && self.wants(c, #[trigger] observers[i])
    }
}

/// `a * a` grows with the size of `a`.
pub proof fn lemma_square_monotone(a: int, b: int)
    requires
        0 <= a <= b,
    ensures
        a * a <= b * b,
{
    assert(a * a <= b * b) by (nonlinear_arith)
        requires
            0 <= a <= b,
    ;
}

/// A square is the square of the absolute value.
pub proof fn lemma_square_abs(d: int, a: int)
    requires
        a == d || a == -d,
    ensures
        a * a == d * d,
{
    assert(a * a == d * d) by (nonlinear_arith)
        requires
            a == d || a == -d,
    ;
}

/// On one axis, a centre that is nearer than the render distance to a point
/// belongs to a chunk no lower than the lowest candidate around that point,
/// and no higher than one above the highest. If the point stands in the lower
/// half of its chunk, the chunk is a candidate.
pub proof fn lemma_axis_reach(edge: int, radius: int, c: int, p: int)
    requires
        1 <= edge,
        1 <= radius,
        -(radius * edge) < center_axis(c, edge) - p < radius * edge,
    ensures
        containing_axis(p, edge) - radius <= c <= containing_axis(p, edge) + radius,
        p % edge <= edge / 2 ==> c < containing_axis(p, edge) + radius,
{
    let b = p / edge;
    let r = p % edge;
    vstd::arithmetic::div_mod::lemma_fundamental_div_mod(p, edge);
    vstd::arithmetic::div_mod::lemma_mod_bound(p, edge);
    let k = c - b;
    let d = center_axis(c, edge) - p;
    assert(d == k * edge + edge / 2 - r) by (nonlinear_arith)
        requires
            d == c * edge + edge / 2 - p,
            p == edge * b + r,
            k == c - b,
    ;
    assert(0 <= edge / 2 < edge);
    if k >= radius + 1 {
        assert(k * edge >= (radius + 1) * edge) by (nonlinear_arith)
            requires
                k >= radius + 1,
                edge >= 1,
        ;
        assert((radius + 1) * edge == radius * edge + edge) by (nonlinear_arith);
    }
    if k <= -radius - 1 {
        assert(k * edge <= (-radius - 1) * edge) by (nonlinear_arith)
            requires
                k <= -radius - 1,
                edge >= 1,
        ;
        assert((-radius - 1) * edge == -(radius * edge) - edge) by (nonlinear_arith);
    }
    if k == radius {
        assert(k * edge == radius * edge);
    }
}

/// A sum of three squares below `t * t` has each term's root below `t`.
pub proof fn lemma_square_sum_bounds(dx: int, dy: int, dz: int, t: int)
    requires
        0 <= t,
        dx * dx + dy * dy + dz * dz < t * t,
    ensures
        -t < dx < t,
        -t < dy < t,
        -t < dz < t,
{
    assert(dx * dx >= 0 && dy * dy >= 0 && dz * dz >= 0) by (nonlinear_arith);
    if dx >= t {
        lemma_square_monotone(t, dx);
    }
    if dx <= -t {
        lemma_square_monotone(t, -dx);
        lemma_square_abs(dx, -dx);
    }
    if dy >= t {
        lemma_square_monotone(t, dy);
    }
    if dy <= -t {
        lemma_square_monotone(t, -dy);
        lemma_square_abs(dy, -dy);
    }
    if dz >= t {
        lemma_square_monotone(t, dz);
    }
    if dz <= -t {
        lemma_square_monotone(t, -dz);
        lemma_square_abs(dz, -dz);
    }
}

/// Every chunk whose centre is within render distance of an observer lies in
/// the cube of candidates around the observer or in the layer just above it:
/// on each axis its coordinate is at least the lowest candidate and at most
/// one more than the highest.
pub proof fn lemma_in_range_is_near_cube(cfg: StreamingConfig, c: ChunkCoordinate, p: ObserverState)
    requires
        cfg.wf(),
        cfg.in_range(c, p),
    ensures
        containing_axis(p.x as int, cfg.edge()) - cfg.radius() <= c.x <= containing_axis(
            p.x as int,
            cfg.edge(),
        ) + cfg.radius(),
        containing_axis(p.y as int, cfg.edge()) - cfg.radius() <= c.y <= containing_axis(
            p.y as int,
            cfg.edge(),
        ) + cfg.radius(),
        containing_axis(p.z as int, cfg.edge()) - cfg.radius() <= c.z <= containing_axis(
            p.z as int,
            cfg.edge(),
        ) + cfg.radius(),
{
    let e = cfg.edge();
    let t = cfg.threshold();
    assert(0 <= t) by (nonlinear_arith)
        requires
            t == cfg.radius() * e,
            1 <= e,
            1 <= cfg.radius(),
    ;
    lemma_square_sum_bounds(
        center_axis(c.x as int, e) - p.x,
        center_axis(c.y as int, e) - p.y,
        center_axis(c.z as int, e) - p.z,
        t,
    );
    lemma_axis_reach(e, cfg.radius(), c.x as int, p.x as int);
    lemma_axis_reach(e, cfg.radius(), c.y as int, p.y as int);
    lemma_axis_reach(e, cfg.radius(), c.z as int, p.z as int);
}

/// For an observer that stands in the lower half of its chunk on every axis,
/// the cube of candidates holds every chunk whose centre is within render
/// distance: for such an observer the load pass wants exactly the chunks in
/// range.
pub proof fn lemma_in_range_is_wanted_from_lower_half(cfg: StreamingConfig, c: ChunkCoordinate, p: ObserverState)
    requires
        cfg.wf(),
        cfg.in_range(c, p),
        p.x as int % cfg.edge() <= cfg.edge() / 2,
        p.y as int % cfg.edge() <= cfg.edge() / 2,
        p.z as int % cfg.edge() <= cfg.edge() / 2,
    ensures
        cfg.wants(c, p),
{
    let e = cfg.edge();
    let t = cfg.threshold();
    assert(0 <= t) by (nonlinear_arith)
        requires
            t == cfg.radius() * e,
            1 <= e,
            1 <= cfg.radius(),
    ;
    lemma_square_sum_bounds(
        center_axis(c.x as int, e) - p.x,
        center_axis(c.y as int, e) - p.y,
        center_axis(c.z as int, e) - p.z,
        t,
    );
    lemma_axis_reach(e, cfg.radius(), c.x as int, p.x as int);
    lemma_axis_reach(e, cfg.radius(), c.y as int, p.y as int);
    lemma_axis_reach(e, cfg.radius(), c.z as int, p.z as int);
}

/// World coordinate of a chunk's origin along one axis.
pub fn origin_along(c: i64, edge: u32) -> (r: i128)
    ensures
        r == origin_axis(c as int, edge as int),
{
    assert(-0x8000_0000_0000_0000 * 0x1_0000_0000 <= (c as int) * (edge as int)
        <= 0x8000_0000_0000_0000 * 0x1_0000_0000) by (nonlinear_arith)
        requires
            -0x8000_0000_0000_0000 <= c as int <= 0x8000_0000_0000_0000,
            0 <= edge as int <= 0x1_0000_0000,
    ;
    (c as i128) * (edge as i128)
}

/// World coordinate of a chunk's centre along one axis.
pub fn center_along(c: i64, edge: u32) -> (r: i128)
    ensures
        r == center_axis(c as int, edge as int),
        -0x1_0000_0000_0000_0000_0000_0000 <= r <= 0x1_0000_0000_0000_0000_0000_0000,
{
    let half: i128 = (edge / 2) as i128;
    assert(-0x8000_0000_0000_0000 * 0x1_0000_0000 <= (c as int) * (edge as int)
        <= 0x8000_0000_0000_0000 * 0x1_0000_0000) by (nonlinear_arith)
        requires
            -0x8000_0000_0000_0000 <= c as int <= 0x8000_0000_0000_0000,
            0 <= edge as int <= 0x1_0000_0000,
    ;
    (c as i128) * (edge as i128) + half
}

/// The chunk coordinate whose cell holds world coordinate `p`, by floor
/// division: `-1` for every `p` in `[-edge, 0)`.
pub fn containing_along(p: i64, edge: u32) -> (q: i64)
    requires
        edge >= 1,
    ensures
        q == containing_axis(p as int, edge as int),
        q * edge <= p < (q + 1) * edge,
{
    let e: i64 = edge as i64;
    if p >= 0 {
        let q: i64 = p / e;
        proof {
            vstd::arithmetic::div_mod::lemma_fundamental_div_mod(p as int, e as int);
            vstd::arithmetic::div_mod::lemma_mod_bound(p as int, e as int);
            assert((q + 1) * e == q * e + e) by (nonlinear_arith);
            assert(q * e == e * q) by (nonlinear_arith);
        }
        q
    } else {
        let m: i64 = -(p + 1);
        let k: i64 = m / e;
        let q: i64 = -k - 1;
        proof {
            vstd::arithmetic::div_mod::lemma_fundamental_div_mod(m as int, e as int);
            vstd::arithmetic::div_mod::lemma_mod_bound(m as int, e as int);
            let r: int = (m as int) % (e as int);
            // m == e * k + r with 0 <= r < e, and p == -m - 1
            let rem: int = e - 1 - r;
            assert(p == q * e + rem) by (nonlinear_arith)
                requires
                    m == e * k + r,
                    p == -m - 1,
                    q == -k - 1,
                    rem == e - 1 - r,
            ;
            assert(0 <= rem < e);
            vstd::arithmetic::div_mod::lemma_fundamental_div_mod_converse(
                p as int,
                e as int,
                q as int,
                rem,
            );
            assert((q + 1) * e == q * e + e) by (nonlinear_arith);
        }
        q
    }
}

/// Distance along one axis between a chunk's centre and an observer.
fn axis_gap(center: i128, p: i64) -> (g: u128)
    requires
        -0x1_0000_0000_0000_0000_0000_0000 <= center <= 0x1_0000_0000_0000_0000_0000_0000,
    ensures
        g == center - p || g == -(center - p),
        g * g == (center - p) * (center - p),
{
    let d: i128 = center - (p as i128);
    proof {
        lemma_square_abs(d as int, if d >= 0 { d as int } else { -(d as int) });
    }
    if d >= 0 {
        d as u128
    } else {
        (-d) as u128
    }
}

impl StreamingConfig {
    /// Whether the centre of chunk `c` lies strictly within render distance
    /// of observer `p`, by squared distance and without rounding: exactly
    /// `in_range` for every coordinate and every observer.
    pub fn within_render_distance(&self, c: &ChunkCoordinate, p: &ObserverState) -> (near: bool)
        requires
            self.wf(),
        ensures
            near == self.in_range(*c, *p),
    {
        let e: u32 = self.chunk_edge_length;
        let t: u128 = self.render_distance_units() as u128;
        let gx: u128 = axis_gap(center_along(c.x, e), p.x);
        let gy: u128 = axis_gap(center_along(c.y, e), p.y);
        let gz: u128 = axis_gap(center_along(c.z, e), p.z);
        let ghost sx: int = gx * gx;
        let ghost sy: int = gy * gy;
        let ghost sz: int = gz * gz;
        proof {
            assert(center_distance_squared(*c, *p, self.edge()) == sx + sy + sz);
            assert(sx >= 0 && sy >= 0 && sz >= 0) by (nonlinear_arith)
                requires
                    sx == gx * gx,
                    sy == gy * gy,
                    sz == gz * gz,
            ;
        }
        if gx >= t || gy >= t || gz >= t {
            proof {
                if gx >= t {
                    lemma_square_monotone(t as int, gx as int);
                } else if gy >= t {
                    lemma_square_monotone(t as int, gy as int);
                } else {
                    lemma_square_monotone(t as int, gz as int);
                }
            }
            return false;
        }
        proof {
            lemma_square_monotone(t as int, 0xffff_ffff_ffff_ffff);
            lemma_square_monotone(gx as int, t as int);
            lemma_square_monotone(gy as int, t as int);
            lemma_square_monotone(gz as int, t as int);
        }
        let limit: u128 = t * t;
        let first: u128 = gx * gx;
        let second: u128 = gy * gy;
        let third: u128 = gz * gz;
        let left: u128 = limit - first;
        if second >= left {
            return false;
        }
        third < left - second
    }

    /// Whether some observer is within render distance of chunk `c`.
    pub fn within_render_distance_of_any(&self, c: &ChunkCoordinate, observers: &Vec<ObserverState>) -> (near: bool)
        requires
            self.wf(),
        ensures
            near == self.in_range_of_any(*c, observers@),
    {
        let mut i: usize = 0;
        while i < observers.len()
            invariant
                self.wf(),
                0 <= i <= observers.len(),
                forall|j: int| 0 <= j < i ==> !self.in_range(*c, #[trigger] observers@[j]),
            decreases observers.len() - i,
        {
            if self.within_render_distance(c, &observers[i]) {
                return true;
            }
            i += 1;
        }
        false
    }
}

impl ChunkCoordinate {
    pub fn new(x: i64, y: i64, z: i64) -> (c: Self)
        ensures
            c.x == x,
            c.y == y,
            c.z == z,
    {
        ChunkCoordinate { x, y, z }
    }

    /// The chunk's origin in the world: its coordinate times the edge length.
    pub open spec fn spec_world_origin(self, cfg: StreamingConfig) -> WorldPosition {
        WorldPosition {
            x: origin_axis(self.x as int, cfg.edge()) as i128,
            y: origin_axis(self.y as int, cfg.edge()) as i128,
            z: origin_axis(self.z as int, cfg.edge()) as i128,
        }
    }

    /// The chunk's centre in the world: on each axis, the coordinate times
    /// the edge length plus half the edge length.
    pub open spec fn spec_center(self, cfg: StreamingConfig) -> WorldPosition {
        WorldPosition {
            x: center_axis(self.x as int, cfg.edge()) as i128,
            y: center_axis(self.y as int, cfg.edge()) as i128,
            z: center_axis(self.z as int, cfg.edge()) as i128,
        }
    }

    /// The chunk's origin in the world.
    pub fn world_origin(&self, cfg: &StreamingConfig) -> (o: WorldPosition)
        ensures
            o == self.spec_world_origin(*cfg),
            o.x == self.x * cfg.edge(),
            o.y == self.y * cfg.edge(),
            o.z == self.z * cfg.edge(),
    {
        let e: u32 = cfg.chunk_edge_length();
        WorldPosition { x: origin_along(self.x, e), y: origin_along(self.y, e), z: origin_along(self.z, e) }
    }

    /// The chunk's centre in the world.
    pub fn center(&self, cfg: &StreamingConfig) -> (m: WorldPosition)
        ensures
            m == self.spec_center(*cfg),
            m.x == self.x * cfg.edge() + cfg.edge() / 2,
            m.y == self.y * cfg.edge() + cfg.edge() / 2,
            m.z == self.z * cfg.edge() + cfg.edge() / 2,
    {
        let e: u32 = cfg.chunk_edge_length();
        WorldPosition { x: center_along(self.x, e), y: center_along(self.y, e), z: center_along(self.z, e) }
    }
}

impl ObserverState {
    pub fn new(x: i64, y: i64, z: i64) -> (p: Self)
        ensures
            p.x == x,
            p.y == y,
            p.z == z,
    {
        ObserverState { x, y, z }
    }

    /// The chunk whose cell holds this observer.
    pub fn containing_chunk(&self, cfg: &StreamingConfig) -> (c: ChunkCoordinate)
        requires
            cfg.wf(),
        ensures
            c.x == containing_axis(self.x as int, cfg.edge()),
            c.y == containing_axis(self.y as int, cfg.edge()),
            c.z == containing_axis(self.z as int, cfg.edge()),
    {
        let e: u32 = cfg.chunk_edge_length();
        ChunkCoordinate {
            x: containing_along(self.x, e),
            y: containing_along(self.y, e),
            z: containing_along(self.z, e),
        }
    }
}

} // verus!
