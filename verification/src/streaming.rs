//! The streaming controller: once per tick it retires the chunks that no
//! observer is near any more, then creates the chunks that observers are near
//! and that do not exist yet.

use vstd::prelude::*;
use crate::coords::{ChunkCoordinate, ObserverState, StreamingConfig};
use crate::index::{distinct_coordinates, entries_map, holds, lemma_entry_is_mapped, position_of, ChunkIndex};
use crate::record::{ChunkRecord, LoadState};

verus! {

/// Whether the unload pass retires record `r`: it is live, and its centre is
/// at render distance or farther from every observer.
pub open spec fn should_retire(r: ChunkRecord, observers: Seq<ObserverState>, cfg: StreamingConfig) -> bool {
    r.load_state.spec_is_live() && !cfg.in_range_of_any(r.coordinate, observers)
}

/// Record `r` as the unload pass leaves it.
pub open spec fn retired(r: ChunkRecord, observers: Seq<ObserverState>, cfg: StreamingConfig) -> ChunkRecord {
    if should_retire(r, observers, cfg) {
        r.with_load_state(LoadState::ShouldUnload)
    } else {
        r
    }
}

/// The index as the unload pass leaves it: the same coordinates, each record
/// retired if it should be.
pub open spec fn after_unload(
    m: Map<ChunkCoordinate, ChunkRecord>,
    observers: Seq<ObserverState>,
    cfg: StreamingConfig,
) -> Map<ChunkCoordinate, ChunkRecord> {
    Map::new(|c: ChunkCoordinate| m.dom().contains(c), |c: ChunkCoordinate| retired(m[c], observers, cfg))
}

/// Whether one of the first `k` observers wants chunk `c` to exist.
pub open spec fn wanted_by_first(
    cfg: StreamingConfig,
    c: ChunkCoordinate,
    observers: Seq<ObserverState>,
    k: int,
) -> bool {
    exists|i: int| 0 <= i < k && i < observers.len() && cfg.wants(c, #[trigger] observers[i])
}

/// The index after the load pass has served the first `k` observers: what
/// was there stays as it is, and every coordinate that one of them wants and
/// that was missing has a fresh record.
pub open spec fn after_load_first(
    m: Map<ChunkCoordinate, ChunkRecord>,
    observers: Seq<ObserverState>,
    k: int,
    cfg: StreamingConfig,
) -> Map<ChunkCoordinate, ChunkRecord> {
    Map::new(
        |c: ChunkCoordinate| m.dom().contains(c) || wanted_by_first(cfg, c, observers, k),
        |c: ChunkCoordinate|
            if m.dom().contains(c) {
                m[c]
            } else {
                ChunkRecord::spec_fresh(c)
            },
    )
}

/// The index as the load pass leaves it.
pub open spec fn after_load(
    m: Map<ChunkCoordinate, ChunkRecord>,
    observers: Seq<ObserverState>,
    cfg: StreamingConfig,
) -> Map<ChunkCoordinate, ChunkRecord> {
    after_load_first(m, observers, observers.len() as int, cfg)
}

/// The index as one tick leaves it: the unload pass, then the load pass.
pub open spec fn after_tick(
    m: Map<ChunkCoordinate, ChunkRecord>,
    observers: Seq<ObserverState>,
    cfg: StreamingConfig,
) -> Map<ChunkCoordinate, ChunkRecord> {
    after_load(after_unload(m, observers, cfg), observers, cfg)
}

/// Every record of the map stands under its own coordinate.
pub open spec fn keyed_by_coordinate(m: Map<ChunkCoordinate, ChunkRecord>) -> bool {
    forall|c: ChunkCoordinate| m.dom().contains(c) ==> (#[trigger] m[c]).coordinate == c
}

/// The records of an index stand under their own coordinates.
pub proof fn lemma_index_keyed(index: ChunkIndex)
    ensures
        keyed_by_coordinate(index@),
{
    let entries = index.entries();
    assert forall|c: ChunkCoordinate| index@.dom().contains(c) implies (#[trigger] index@[c]).coordinate
        == c by {
        let k = position_of(entries, c);
        assert(0 <= k < entries.len() && entries[k].coordinate == c);
    }
}

/// What `push` does to membership.
pub proof fn lemma_push_contains(s: Seq<ChunkCoordinate>, x: ChunkCoordinate)
    ensures
        forall|c: ChunkCoordinate| #[trigger] s.push(x).contains(c) <==> (s.contains(c) || c == x),
{
    let t = s.push(x);
    assert forall|c: ChunkCoordinate| #[trigger] t.contains(c) <==> (s.contains(c) || c == x) by {
        if s.contains(c) {
            let i = choose|i: int| 0 <= i < s.len() && s[i] == c;
            assert(t[i] == c);
        }
        if c == x {
            assert(t[s.len() as int] == c);
        }
        if t.contains(c) {
            let i = choose|i: int| 0 <= i < t.len() && t[i] == c;
            if i < s.len() {
                assert(s[i] == c);
            }
        }
    }
}

/// Appending a new element keeps a sequence free of repetitions.
pub proof fn lemma_push_no_duplicates(s: Seq<ChunkCoordinate>, x: ChunkCoordinate)
    requires
        s.no_duplicates(),
        !s.contains(x),
    ensures
        s.push(x).no_duplicates(),
{
    let t = s.push(x);
    assert forall|i: int, j: int| 0 <= i < t.len() && 0 <= j < t.len() && i != j implies t[i] != t[j] by {
        if i < s.len() && j < s.len() {
            assert(s[i] != s[j]);
        } else if i < s.len() {
            assert(s.contains(s[i]));
        } else {
            assert(s.contains(s[j]));
        }
    }
}

/// Retiring record by record retires the map.
proof fn lemma_unload_entries(
    before: Seq<ChunkRecord>,
    after: Seq<ChunkRecord>,
    observers: Seq<ObserverState>,
    cfg: StreamingConfig,
)
    requires
        distinct_coordinates(before),
        distinct_coordinates(after),
        after.len() == before.len(),
        forall|j: int| 0 <= j < before.len() ==> #[trigger] after[j] == retired(before[j], observers, cfg),
    ensures
        entries_map(after) == after_unload(entries_map(before), observers, cfg),
{
    let target = after_unload(entries_map(before), observers, cfg);
    assert forall|c: ChunkCoordinate| holds(after, c) <==> holds(before, c) by {
        if holds(after, c) {
            let k = position_of(after, c);
            assert(after[k] == retired(before[k], observers, cfg));
            assert(before[k].coordinate == c);
        }
        if holds(before, c) {
            let k = position_of(before, c);
            assert(after[k] == retired(before[k], observers, cfg));
            assert(after[k].coordinate == c);
        }
    }
    assert forall|c: ChunkCoordinate| holds(after, c) implies #[trigger] entries_map(after)[c] == target[c] by {
        let k = position_of(after, c);
        assert(after[k] == retired(before[k], observers, cfg));
        lemma_entry_is_mapped(after, k);
        lemma_entry_is_mapped(before, k);
    }
    assert(entries_map(after) =~= target);
}

/// Lowest candidate coordinate on one axis around an observer at `p`: the
/// chunk that contains `p`, less the render distance, or the lowest
/// coordinate there is.
pub open spec fn axis_low(p: int, cfg: StreamingConfig) -> int {
    let low = p / cfg.edge() - cfg.radius();
    if low < i64::MIN {
        i64::MIN as int
    } else {
        low
    }
}

/// One past the highest candidate coordinate on one axis around an observer
/// at `p`.
pub open spec fn axis_high(p: int, cfg: StreamingConfig) -> int {
    let high = p / cfg.edge() + cfg.radius();
    if high > i64::MAX + 1 {
        i64::MAX + 1
    } else {
        high
    }
}

/// Whether the sweep around observer `p` has passed coordinate `c` and found
/// it wanted, when it stands before candidate `(x, y, z)`. The sweep takes
/// the candidates in the order of `x`, then `y`, then `z`.
pub open spec fn swept(cfg: StreamingConfig, c: ChunkCoordinate, p: ObserverState, x: int, y: int, z: int) -> bool {
    cfg.wants(c, p) && (c.x < x || (c.x == x && (c.y < y || (c.y == y && c.z < z))))
}

/// The index when the sweep around `p` stands before candidate `(x, y, z)`.
pub open spec fn after_sweep(
    m: Map<ChunkCoordinate, ChunkRecord>,
    p: ObserverState,
    cfg: StreamingConfig,
    x: int,
    y: int,
    z: int,
) -> Map<ChunkCoordinate, ChunkRecord> {
    Map::new(
        |c: ChunkCoordinate| m.dom().contains(c) || swept(cfg, c, p, x, y, z),
        |c: ChunkCoordinate|
            if m.dom().contains(c) {
                m[c]
            } else {
                ChunkRecord::spec_fresh(c)
            },
    )
}

/// The index after the load pass has served one observer.
pub open spec fn after_load_for(
    m: Map<ChunkCoordinate, ChunkRecord>,
    p: ObserverState,
    cfg: StreamingConfig,
) -> Map<ChunkCoordinate, ChunkRecord> {
    Map::new(
        |c: ChunkCoordinate| m.dom().contains(c) || cfg.wants(c, p),
        |c: ChunkCoordinate|
            if m.dom().contains(c) {
                m[c]
            } else {
                ChunkRecord::spec_fresh(c)
            },
    )
}

/// The list of created chunks when the sweep around `p` stands before
/// candidate `(x, y, z)`: what was listed when the sweep began, and every
/// coordinate that the sweep has passed, found wanted and found missing.
pub open spec fn listed_after_sweep(
    made: Seq<ChunkCoordinate>,
    made0: Seq<ChunkCoordinate>,
    m0: Map<ChunkCoordinate, ChunkRecord>,
    p: ObserverState,
    cfg: StreamingConfig,
    x: int,
    y: int,
    z: int,
) -> bool {
    &&& made.no_duplicates()
    &&& forall|c: ChunkCoordinate| #[trigger]
        made.contains(c) <==> (made0.contains(c) || (swept(cfg, c, p, x, y, z) && !m0.dom().contains(c)))
}

/// The candidate range on one axis around an observer at `p`.
fn axis_bounds(p: i64, cfg: &StreamingConfig) -> (b: (i128, i128))
    requires
        cfg.wf(),
    ensures
        b.0 == axis_low(p as int, *cfg),
        b.1 == axis_high(p as int, *cfg),
        i64::MIN <= b.0 < b.1 <= i64::MAX + 1,
{
    let base: i128 = crate::coords::containing_along(p, cfg.chunk_edge_length()) as i128;
    let r: i128 = cfg.render_distance_chunks() as i128;
    let mut low: i128 = base - r;
    if low < i64::MIN as i128 {
        low = i64::MIN as i128;
    }
    let mut high: i128 = base + r;
    if high > i64::MAX as i128 + 1 {
        high = i64::MAX as i128 + 1;
    }
    (low, high)
}

/// The load pass for one observer: every candidate around `p` whose centre
/// is within render distance and which the index does not hold gets a fresh
/// record, and its coordinate is appended to `created`.
fn load_around(
    index: &mut ChunkIndex,
    cfg: &StreamingConfig,
    p: &ObserverState,
    created: &mut Vec<ChunkCoordinate>,
)
    requires
        old(index).wf(),
        cfg.wf(),
        old(created)@.no_duplicates(),
        forall|c: ChunkCoordinate| old(created)@.contains(c) ==> old(index)@.dom().contains(c),
    ensures
        final(index).wf(),
        final(index)@ == after_load_for(old(index)@, *p, *cfg),
        final(created)@.no_duplicates(),
        forall|c: ChunkCoordinate| #[trigger]
            final(created)@.contains(c) <==> (old(created)@.contains(c) || (cfg.wants(c, *p) && !old(
                index,
            )@.dom().contains(c))),
{
    let ghost m0: Map<ChunkCoordinate, ChunkRecord> = index@;
    let ghost made0: Seq<ChunkCoordinate> = created@;
    let (xlo, xhi) = axis_bounds(p.x, cfg);
    let (ylo, yhi) = axis_bounds(p.y, cfg);
    let (zlo, zhi) = axis_bounds(p.z, cfg);
    proof {
        assert(index@ =~= after_sweep(m0, *p, *cfg, xlo as int, ylo as int, zlo as int));
    }
    let mut x: i128 = xlo;
    while x < xhi
        invariant
            index.wf(),
            cfg.wf(),
            xlo == axis_low(p.x as int, *cfg),
            xhi == axis_high(p.x as int, *cfg),
            ylo == axis_low(p.y as int, *cfg),
            yhi == axis_high(p.y as int, *cfg),
            zlo == axis_low(p.z as int, *cfg),
            zhi == axis_high(p.z as int, *cfg),
            i64::MIN <= xlo <= x <= xhi <= i64::MAX + 1,
            i64::MIN <= ylo < yhi <= i64::MAX + 1,
            i64::MIN <= zlo < zhi <= i64::MAX + 1,
            forall|c: ChunkCoordinate| made0.contains(c) ==> m0.dom().contains(c),
            index@ == after_sweep(m0, *p, *cfg, x as int, ylo as int, zlo as int),
            listed_after_sweep(created@, made0, m0, *p, *cfg, x as int, ylo as int, zlo as int),
        decreases xhi - x,
    {
        let mut y: i128 = ylo;
        while y < yhi
            invariant
                index.wf(),
                cfg.wf(),
                xlo == axis_low(p.x as int, *cfg),
                xhi == axis_high(p.x as int, *cfg),
                ylo == axis_low(p.y as int, *cfg),
                yhi == axis_high(p.y as int, *cfg),
                zlo == axis_low(p.z as int, *cfg),
                zhi == axis_high(p.z as int, *cfg),
                i64::MIN <= xlo <= x < xhi <= i64::MAX + 1,
                i64::MIN <= ylo <= y <= yhi <= i64::MAX + 1,
                i64::MIN <= zlo < zhi <= i64::MAX + 1,
                forall|c: ChunkCoordinate| made0.contains(c) ==> m0.dom().contains(c),
                index@ == after_sweep(m0, *p, *cfg, x as int, y as int, zlo as int),
                listed_after_sweep(created@, made0, m0, *p, *cfg, x as int, y as int, zlo as int),
            decreases yhi - y,
        {
            let mut z: i128 = zlo;
            while z < zhi
                invariant
                    index.wf(),
                    cfg.wf(),
                    xlo == axis_low(p.x as int, *cfg),
                    xhi == axis_high(p.x as int, *cfg),
                    ylo == axis_low(p.y as int, *cfg),
                    yhi == axis_high(p.y as int, *cfg),
                    zlo == axis_low(p.z as int, *cfg),
                    zhi == axis_high(p.z as int, *cfg),
                    i64::MIN <= xlo <= x < xhi <= i64::MAX + 1,
                    i64::MIN <= ylo <= y < yhi <= i64::MAX + 1,
                    i64::MIN <= zlo <= z <= zhi <= i64::MAX + 1,
                    forall|c: ChunkCoordinate| made0.contains(c) ==> m0.dom().contains(c),
                    index@ == after_sweep(m0, *p, *cfg, x as int, y as int, z as int),
                    listed_after_sweep(created@, made0, m0, *p, *cfg, x as int, y as int, z as int),
                decreases zhi - z,
            {
                let candidate: ChunkCoordinate = ChunkCoordinate { x: x as i64, y: y as i64, z: z as i64 };
                let ghost made: Seq<ChunkCoordinate> = created@;
                proof {
                    assert(cfg.in_neighbourhood(candidate, *p));
                    assert(!swept(*cfg, candidate, *p, x as int, y as int, z as int));
                    assert forall|c: ChunkCoordinate| #[trigger]
                        swept(*cfg, c, *p, x as int, y as int, z + 1) <==> (swept(
                            *cfg,
                            c,
                            *p,
                            x as int,
                            y as int,
                            z as int,
                        ) || (c == candidate && cfg.wants(c, *p))) by {
                        if c.x == x && c.y == y && c.z == z {
                            assert(c == candidate);
                        }
                    }
                }
                if cfg.within_render_distance(&candidate, p) && !index.contains(&candidate) {
                    let inserted = index.insert(ChunkRecord::fresh(candidate));
                    proof {
                        assert(inserted.is_ok());
                        assert(!made.contains(candidate));
                        lemma_push_no_duplicates(made, candidate);
                        lemma_push_contains(made, candidate);
                    }
                    created.push(candidate);
                    proof {
                        assert(index@ =~= after_sweep(m0, *p, *cfg, x as int, y as int, z + 1));
                    }
                } else {
                    proof {
                        assert(index@ =~= after_sweep(m0, *p, *cfg, x as int, y as int, z + 1));
                    }
                }
                z += 1;
            }
            proof {
                assert(index@ =~= after_sweep(m0, *p, *cfg, x as int, y + 1, zlo as int));
                assert(listed_after_sweep(created@, made0, m0, *p, *cfg, x as int, y + 1, zlo as int));
            }
            y += 1;
        }
        proof {
            assert(index@ =~= after_sweep(m0, *p, *cfg, x + 1, ylo as int, zlo as int));
            assert(listed_after_sweep(created@, made0, m0, *p, *cfg, x + 1, ylo as int, zlo as int));
        }
        x += 1;
    }
    proof {
        assert(index@ =~= after_load_for(m0, *p, *cfg));
    }
}

/// What one tick asks of the rendering side.
pub struct TickOutcome {
    /// The chunks whose representation is to be released, each once.
    pub removed: Vec<ChunkCoordinate>,
    /// The chunks that were created and need a representation, each once.
    pub created: Vec<ChunkCoordinate>,
}

/// Keeps the chunk index in step with the observers.
pub struct StreamingController {
    pub config: StreamingConfig,
    pub index: ChunkIndex,
}

impl StreamingController {
    /// The configuration and the index are both well formed.
    pub open spec fn wf(&self) -> bool {
        self.config.wf() && self.index.wf()
    }

    /// A controller with an empty index.
    pub fn new(config: StreamingConfig) -> (controller: Self)
        requires
            config.wf(),
        ensures
            controller.wf(),
            controller.config == config,
            controller.index@ == Map::<ChunkCoordinate, ChunkRecord>::empty(),
    {
        StreamingController { config, index: ChunkIndex::new() }
    }

    /// The unload pass. Every live record whose centre is at render distance
    /// or farther from every observer moves to `ShouldUnload`; its coordinate
    /// is returned, once, so that its representation can be released. No
    /// other record changes, and none enters or leaves the index. Without
    /// observers every live record is retired.
    pub fn unload_pass(&mut self, observers: &Vec<ObserverState>) -> (removed: Vec<ChunkCoordinate>)
        requires
            old(self).wf(),
        ensures
            final(self).wf(),
            final(self).config == old(self).config,
            final(self).index@ == after_unload(old(self).index@, observers@, old(self).config),
            final(self).index.entries().len() == old(self).index.entries().len(),
            forall|j: int|
                0 <= j < old(self).index.entries().len() ==> #[trigger] final(self).index.entries()[j]
                    == retired(old(self).index.entries()[j], observers@, old(self).config),
            removed@.no_duplicates(),
            forall|c: ChunkCoordinate|
                #[trigger] removed@.contains(c) <==> (old(self).index@.dom().contains(c) && should_retire(
                    old(self).index@[c],
                    observers@,
                    old(self).config,
                )),
    {
        let cfg: StreamingConfig = self.config;
        let ghost before: Seq<ChunkRecord> = self.index.entries();
        let mut removed: Vec<ChunkCoordinate> = Vec::new();
        let n: usize = self.index.len();
        let mut i: usize = 0;
        while i < n
            invariant
                cfg.wf(),
                self.config == cfg,
                self.index.wf(),
                distinct_coordinates(before),
                n == before.len(),
                self.index.entries().len() == n,
                0 <= i <= n,
                forall|j: int| 0 <= j < i ==> #[trigger] self.index.entries()[j] == retired(before[j], observers@, cfg),
                forall|j: int| i <= j < n ==> #[trigger] self.index.entries()[j] == before[j],
                removed@.no_duplicates(),
                forall|c: ChunkCoordinate|
                    #[trigger] removed@.contains(c) <==> (exists|j: int|
                        0 <= j < i && (#[trigger] before[j]).coordinate == c && should_retire(
                            before[j],
                            observers@,
                            cfg,
                        )),
            decreases n - i,
        {
            let record: ChunkRecord = self.index.entry(i);
            assert(record == before[i as int]);
            let ghost listed: Seq<ChunkCoordinate> = removed@;
            if record.load_state.is_live() && !cfg.within_render_distance_of_any(&record.coordinate, observers) {
                let moved: bool = self.index.advance_load_at(i, LoadState::ShouldUnload);
                assert(moved);
                proof {
                    assert(!listed.contains(record.coordinate)) by {
                        if listed.contains(record.coordinate) {
                            let j = choose|j: int|
                                0 <= j < i && (#[trigger] before[j]).coordinate == record.coordinate
                                    && should_retire(before[j], observers@, cfg);
                            assert(before[j].coordinate != before[i as int].coordinate);
                        }
                    }
                    lemma_push_no_duplicates(listed, record.coordinate);
                    lemma_push_contains(listed, record.coordinate);
                }
                removed.push(record.coordinate);
            }
            proof {
                assert forall|c: ChunkCoordinate|
                    #[trigger] removed@.contains(c) <==> (exists|j: int|
                        0 <= j < i + 1 && (#[trigger] before[j]).coordinate == c && should_retire(
                            before[j],
                            observers@,
                            cfg,
                        )) by {
                    let here = before[i as int];
                    if listed.contains(c) {
                        let j = choose|j: int|
                            0 <= j < i && (#[trigger] before[j]).coordinate == c && should_retire(
                                before[j],
                                observers@,
                                cfg,
                            );
                        assert(0 <= j < i + 1 && before[j].coordinate == c && should_retire(
                            before[j],
                            observers@,
                            cfg,
                        ));
                    }
                    if exists|j: int|
                        0 <= j < i + 1 && (#[trigger] before[j]).coordinate == c && should_retire(
                            before[j],
                            observers@,
                            cfg,
                        ) {
                        let j = choose|j: int|
                            0 <= j < i + 1 && (#[trigger] before[j]).coordinate == c && should_retire(
                                before[j],
                                observers@,
                                cfg,
                            );
                        if j < i {
                            assert(listed.contains(c));
                        }
                    }
                }
            }
            i += 1;
        }
        proof {
            lemma_unload_entries(before, self.index.entries(), observers@, cfg);
            assert forall|c: ChunkCoordinate|
                #[trigger] removed@.contains(c) <==> (entries_map(before).dom().contains(c) && should_retire(
                    entries_map(before)[c],
                    observers@,
                    cfg,
                )) by {
                if removed@.contains(c) {
                    let j = choose|j: int|
                        0 <= j < n && (#[trigger] before[j]).coordinate == c && should_retire(
                            before[j],
                            observers@,
                            cfg,
                        );
                    lemma_entry_is_mapped(before, j);
                }
                if entries_map(before).dom().contains(c) {
                    let k = position_of(before, c);
                    lemma_entry_is_mapped(before, k);
                }
            }
        }
        removed
    }
}

impl StreamingController {
    /// The load pass. Every coordinate that some observer wants (it lies in
    /// the cube of candidates around the observer and its centre is strictly
    /// within render distance) and that the index does not hold gets a fresh
    /// record; its coordinate is returned, once, so that a representation can
    /// be prepared. Records that were there do not change.
    pub fn load_pass(&mut self, observers: &Vec<ObserverState>) -> (created: Vec<ChunkCoordinate>)
        requires
            old(self).wf(),
        ensures
            final(self).wf(),
            final(self).config == old(self).config,
            final(self).index@ == after_load(old(self).index@, observers@, old(self).config),
            created@.no_duplicates(),
            forall|c: ChunkCoordinate| #[trigger]
                created@.contains(c) <==> (!old(self).index@.dom().contains(c) && old(
                    self,
                ).config.wanted_by_any(c, observers@)),
    {
        let cfg: StreamingConfig = self.config;
        let ghost m0: Map<ChunkCoordinate, ChunkRecord> = self.index@;
        let mut created: Vec<ChunkCoordinate> = Vec::new();
        let mut k: usize = 0;
        proof {
            assert(self.index@ =~= after_load_first(m0, observers@, 0, cfg));
        }
        while k < observers.len()
            invariant
                cfg.wf(),
                self.config == cfg,
                self.index.wf(),
                0 <= k <= observers.len(),
                self.index@ == after_load_first(m0, observers@, k as int, cfg),
                created@.no_duplicates(),
                forall|c: ChunkCoordinate| #[trigger]
                    created@.contains(c) <==> (!m0.dom().contains(c) && wanted_by_first(
                        cfg,
                        c,
                        observers@,
                        k as int,
                    )),
            decreases observers.len() - k,
        {
            let ghost now: Map<ChunkCoordinate, ChunkRecord> = self.index@;
            let ghost made: Seq<ChunkCoordinate> = created@;
            load_around(&mut self.index, &cfg, &observers[k], &mut created);
            proof {
                assert forall|c: ChunkCoordinate|
                    wanted_by_first(cfg, c, observers@, k + 1) <==> (wanted_by_first(
                        cfg,
                        c,
                        observers@,
                        k as int,
                    ) || cfg.wants(c, observers@[k as int])) by {
                    if wanted_by_first(cfg, c, observers@, k + 1) {
                        let i = choose|i: int|
                            0 <= i < k + 1 && i < observers@.len() && cfg.wants(c, #[trigger] observers@[i]);
                        if i < k {
                            assert(wanted_by_first(cfg, c, observers@, k as int));
                        }
                    }
                    if wanted_by_first(cfg, c, observers@, k as int) {
                        let i = choose|i: int|
                            0 <= i < k && i < observers@.len() && cfg.wants(c, #[trigger] observers@[i]);
                        assert(0 <= i < k + 1 && cfg.wants(c, observers@[i]));
                    }
                    if cfg.wants(c, observers@[k as int]) {
                        assert(wanted_by_first(cfg, c, observers@, k + 1));
                    }
                }
                assert(self.index@ =~= after_load_first(m0, observers@, k + 1, cfg));
                assert forall|c: ChunkCoordinate| #[trigger]
                    created@.contains(c) <==> (!m0.dom().contains(c) && wanted_by_first(
                        cfg,
                        c,
                        observers@,
                        k + 1,
                    )) by {
                    assert(made.contains(c) <==> (!m0.dom().contains(c) && wanted_by_first(
                        cfg,
                        c,
                        observers@,
                        k as int,
                    )));
                    assert(now.dom().contains(c) <==> (m0.dom().contains(c) || wanted_by_first(
                        cfg,
                        c,
                        observers@,
                        k as int,
                    )));
                }
            }
            k += 1;
        }
        proof {
            assert forall|c: ChunkCoordinate|
                wanted_by_first(cfg, c, observers@, observers@.len() as int) <==> cfg.wanted_by_any(
                    c,
                    observers@,
                ) by {
                if wanted_by_first(cfg, c, observers@, observers@.len() as int) {
                    let i = choose|i: int|
                        0 <= i < observers@.len() && i < observers@.len() && cfg.wants(
                            c,
                            #[trigger] observers@[i],
                        );
                    assert(cfg.wants(c, observers@[i]));
                }
                if cfg.wanted_by_any(c, observers@) {
                    let i = choose|i: int| 0 <= i < observers@.len() && cfg.wants(c, #[trigger] observers@[i]);
                    assert(cfg.wants(c, observers@[i]));
                }
            }
        }
        created
    }

    /// One tick: the unload pass, then the load pass, both against the same
    /// render distance.
    pub fn tick(&mut self, observers: &Vec<ObserverState>) -> (outcome: TickOutcome)
        requires
            old(self).wf(),
        ensures
            final(self).wf(),
            final(self).config == old(self).config,
            final(self).index@ == after_tick(old(self).index@, observers@, old(self).config),
            outcome.removed@.no_duplicates(),
            forall|c: ChunkCoordinate| #[trigger]
                outcome.removed@.contains(c) <==> (old(self).index@.dom().contains(c) && should_retire(
                    old(self).index@[c],
                    observers@,
                    old(self).config,
                )),
            outcome.created@.no_duplicates(),
            forall|c: ChunkCoordinate| #[trigger]
                outcome.created@.contains(c) <==> (!old(self).index@.dom().contains(c) && old(
                    self,
                ).config.wanted_by_any(c, observers@)),
    {
        let removed: Vec<ChunkCoordinate> = self.unload_pass(observers);
        let created: Vec<ChunkCoordinate> = self.load_pass(observers);
        TickOutcome { removed, created }
    }
}

/// After a tick, a chunk that was in the index and whose centre is at render
/// distance or farther from every observer is asked to unload, unless it was
/// unloaded already, in which case it stays unloaded.
pub proof fn lemma_tick_retires_distant(
    index: ChunkIndex,
    observers: Seq<ObserverState>,
    cfg: StreamingConfig,
    c: ChunkCoordinate,
)
    requires
        index@.dom().contains(c),
        !cfg.in_range_of_any(c, observers),
    ensures
        after_tick(index@, observers, cfg).dom().contains(c),
        index@[c].load_state != LoadState::Unloaded ==> after_tick(index@, observers, cfg)[c].load_state
            == LoadState::ShouldUnload,
        index@[c].load_state == LoadState::Unloaded ==> after_tick(index@, observers, cfg)[c] == index@[c],
{
    lemma_index_keyed(index);
    assert(index@[c].coordinate == c);
}

/// A tick never moves a chunk backwards in its load lifecycle: no record
/// that was in the index returns to an earlier state, and none that had left
/// `ShouldLoad` is in `ShouldLoad` again. Its coordinate and its generation
/// state do not change.
pub proof fn lemma_tick_never_reverts(
    m: Map<ChunkCoordinate, ChunkRecord>,
    observers: Seq<ObserverState>,
    cfg: StreamingConfig,
    c: ChunkCoordinate,
)
    requires
        m.dom().contains(c),
    ensures
        after_tick(m, observers, cfg).dom().contains(c),
        m[c].load_state.rank() <= after_tick(m, observers, cfg)[c].load_state.rank(),
        after_tick(m, observers, cfg)[c].load_state == m[c].load_state || m[c].load_state.may_become(
            after_tick(m, observers, cfg)[c].load_state,
        ),
        after_tick(m, observers, cfg)[c].coordinate == m[c].coordinate,
        after_tick(m, observers, cfg)[c].generation_state == m[c].generation_state,
{
}

/// After a tick, every coordinate that some observer wants is in the index:
/// each coordinate that lies in the cube of candidates around an observer and
/// whose centre is strictly within render distance of that observer. The
/// index is a map, so it holds the coordinate once, however many observers
/// want it.
pub proof fn lemma_tick_creates_wanted(
    m: Map<ChunkCoordinate, ChunkRecord>,
    observers: Seq<ObserverState>,
    cfg: StreamingConfig,
    c: ChunkCoordinate,
    i: int,
)
    requires
        0 <= i < observers.len(),
        cfg.wants(c, observers[i]),
    ensures
        after_tick(m, observers, cfg).dom().contains(c),
        !m.dom().contains(c) ==> after_tick(m, observers, cfg)[c] == ChunkRecord::spec_fresh(c),
{
    assert(wanted_by_first(cfg, c, observers, observers.len() as int));
}

/// After a tick, every chunk whose centre is strictly within render distance
/// of an observer that stands in the lower half of its chunk on every axis is
/// in the index.
pub proof fn lemma_tick_creates_in_range_from_lower_half(
    m: Map<ChunkCoordinate, ChunkRecord>,
    observers: Seq<ObserverState>,
    cfg: StreamingConfig,
    c: ChunkCoordinate,
    i: int,
)
    requires
        cfg.wf(),
        0 <= i < observers.len(),
        cfg.in_range(c, observers[i]),
        observers[i].x as int % cfg.edge() <= cfg.edge() / 2,
        observers[i].y as int % cfg.edge() <= cfg.edge() / 2,
        observers[i].z as int % cfg.edge() <= cfg.edge() / 2,
    ensures
        after_tick(m, observers, cfg).dom().contains(c),
{
    crate::coords::lemma_in_range_is_wanted_from_lower_half(cfg, c, observers[i]);
    lemma_tick_creates_wanted(m, observers, cfg, c, i);
}

/// A tick creates nothing but what some observer wants: a coordinate that is
/// in the index after the tick was there before, or lies within render
/// distance of an observer and in the cube of candidates around it.
pub proof fn lemma_tick_creates_only_wanted(
    m: Map<ChunkCoordinate, ChunkRecord>,
    observers: Seq<ObserverState>,
    cfg: StreamingConfig,
    c: ChunkCoordinate,
)
    requires
        after_tick(m, observers, cfg).dom().contains(c),
        !m.dom().contains(c),
    ensures
        cfg.wanted_by_any(c, observers),
        cfg.in_range_of_any(c, observers),
{
    assert(wanted_by_first(cfg, c, observers, observers.len() as int));
    let i = choose|i: int| 0 <= i < observers.len() && i < observers.len() && cfg.wants(c, #[trigger] observers[i]);
    assert(cfg.wants(c, observers[i]));
    assert(cfg.in_range(c, observers[i]));
}

/// A second tick with the same observers changes nothing: the index after it
/// is the index before it, no record is there to retire, and no wanted
/// coordinate is missing.
pub proof fn lemma_tick_is_stable(
    m: Map<ChunkCoordinate, ChunkRecord>,
    observers: Seq<ObserverState>,
    cfg: StreamingConfig,
)
    ensures
        after_tick(after_tick(m, observers, cfg), observers, cfg) == after_tick(m, observers, cfg),
        forall|c: ChunkCoordinate|
            after_tick(m, observers, cfg).dom().contains(c) ==> !should_retire(
                #[trigger] after_tick(m, observers, cfg)[c],
                observers,
                cfg,
            ),
        forall|c: ChunkCoordinate| #[trigger]
            cfg.wanted_by_any(c, observers) ==> after_tick(m, observers, cfg).dom().contains(c),
{
    let once = after_tick(m, observers, cfg);
    let n = observers.len() as int;
    assert forall|c: ChunkCoordinate| once.dom().contains(c) implies !should_retire(
        #[trigger] once[c],
        observers,
        cfg,
    ) by {
        if !m.dom().contains(c) {
            assert(wanted_by_first(cfg, c, observers, n));
            let i = choose|i: int| 0 <= i < n && i < observers.len() && cfg.wants(c, #[trigger] observers[i]);
            assert(cfg.in_range(c, observers[i]));
            assert(cfg.in_range_of_any(c, observers));
        }
    }
    assert forall|c: ChunkCoordinate| #[trigger] cfg.wanted_by_any(c, observers) implies once.dom().contains(
        c,
    ) by {
        let i = choose|i: int| 0 <= i < observers.len() && cfg.wants(c, #[trigger] observers[i]);
        assert(cfg.wants(c, observers[i]));
        assert(wanted_by_first(cfg, c, observers, n));
    }
    assert(after_tick(once, observers, cfg) =~= once);
}

} // verus!
