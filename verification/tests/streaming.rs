use voxel_streaming::{
    ChunkCoordinate, ChunkRecord, GenerationState, LoadState, ObserverState, StreamingConfig,
    StreamingController,
};

fn controller(edge: u32, radius: u32) -> StreamingController {
    StreamingController::new(StreamingConfig::new(edge, radius).unwrap())
}

fn sorted(mut v: Vec<ChunkCoordinate>) -> Vec<(i64, i64, i64)> {
    let mut t: Vec<(i64, i64, i64)> = v.drain(..).map(|c| (c.x, c.y, c.z)).collect();
    t.sort();
    t
}

fn wanted(cfg: &StreamingConfig, observers: &[ObserverState], span: i64) -> Vec<(i64, i64, i64)> {
    // by direct computation: the candidates around each observer whose centre
    // is strictly within render distance
    let e = cfg.chunk_edge_length() as i64;
    let r = cfg.render_distance_chunks() as i64;
    let t = (e * r) * (e * r);
    let mut out = Vec::new();
    for x in -span..span {
        for y in -span..span {
            for z in -span..span {
                let hit = observers.iter().any(|p| {
                    let b = (p.x.div_euclid(e), p.y.div_euclid(e), p.z.div_euclid(e));
                    let inside = b.0 - r <= x && x < b.0 + r && b.1 - r <= y && y < b.1 + r && b.2 - r <= z
                        && z < b.2 + r;
                    let d = (x * e + e / 2 - p.x, y * e + e / 2 - p.y, z * e + e / 2 - p.z);
                    inside && d.0 * d.0 + d.1 * d.1 + d.2 * d.2 < t
                });
                if hit {
                    out.push((x, y, z));
                }
            }
        }
    }
    out.sort();
    out
}

#[test]
fn new_controller_has_an_empty_index() {
    let ctl = controller(16, 3);
    assert_eq!(ctl.index.len(), 0);
    assert_eq!(ctl.config.chunk_edge_length(), 16);
    assert_eq!(ctl.config.render_distance_chunks(), 3);
}

#[test]
fn observer_at_origin_with_radius_one_gets_eight_chunks() {
    let mut ctl = controller(16, 1);
    let outcome = ctl.tick(&vec![ObserverState::new(0, 0, 0)]);
    assert!(outcome.removed.is_empty());
    let mut expected = Vec::new();
    for x in [-1i64, 0] {
        for y in [-1i64, 0] {
            for z in [-1i64, 0] {
                expected.push((x, y, z));
            }
        }
    }
    expected.sort();
    assert_eq!(sorted(outcome.created), expected);
    assert_eq!(ctl.index.len(), 8);
    assert!(ctl.index.contains(&ChunkCoordinate::new(0, 0, 0)));
    assert!(!ctl.index.contains(&ChunkCoordinate::new(1, 0, 0)));
    for r in ctl.index.records() {
        assert_eq!(r.load_state, LoadState::ShouldLoad);
        assert_eq!(r.generation_state, GenerationState::NotStarted);
    }
}

#[test]
fn tick_creates_what_direct_computation_gives() {
    for (edge, radius, p) in [
        (16u32, 3u32, ObserverState::new(0, 0, 0)),
        (16, 3, ObserverState::new(-10, -10, -10)),
        (16, 2, ObserverState::new(15, 31, -1)),
        (5, 2, ObserverState::new(7, -3, 12)),
        (1, 4, ObserverState::new(0, 0, 0)),
    ] {
        let mut ctl = controller(edge, radius);
        let outcome = ctl.tick(&vec![p]);
        let expected = wanted(&ctl.config, &[p], 12);
        assert!(!expected.is_empty());
        assert_eq!(sorted(outcome.created), expected);
        assert_eq!(sorted(ctl.index.records().iter().map(|r| r.coordinate).collect()), expected);
    }
}

#[test]
fn wanted_chunk_exists_once_with_overlapping_observers() {
    let mut ctl = controller(16, 2);
    let observers = vec![ObserverState::new(0, 0, 0), ObserverState::new(10, 0, 0), ObserverState::new(0, 0, 0)];
    let outcome = ctl.tick(&observers);
    let expected = wanted(&ctl.config, &observers, 8);
    let created = sorted(outcome.created);
    assert_eq!(created, expected);
    let mut once = created.clone();
    once.dedup();
    assert_eq!(once, created);
    let held = sorted(ctl.index.records().iter().map(|r| r.coordinate).collect());
    assert_eq!(held, expected);
    assert_eq!(ctl.index.len(), expected.len());
}

#[test]
fn distant_observers_each_get_their_chunks() {
    let mut ctl = controller(16, 1);
    let observers = vec![ObserverState::new(0, 0, 0), ObserverState::new(1600, 0, 0)];
    let outcome = ctl.tick(&observers);
    assert_eq!(outcome.created.len(), 16);
    assert!(ctl.index.contains(&ChunkCoordinate::new(0, 0, 0)));
    assert!(ctl.index.contains(&ChunkCoordinate::new(100, 0, 0)));
    assert!(ctl.index.contains(&ChunkCoordinate::new(99, -1, -1)));
}

#[test]
fn chunk_in_range_of_one_observer_is_kept() {
    let mut ctl = controller(16, 1);
    let near = ObserverState::new(0, 0, 0);
    let far = ObserverState::new(100_000, 0, 0);
    ctl.tick(&vec![near]);
    let outcome = ctl.tick(&vec![far, near]);
    assert!(outcome.removed.is_empty());
    assert_eq!(ctl.index.get(&ChunkCoordinate::new(0, 0, 0)).unwrap().load_state, LoadState::ShouldLoad);
}

#[test]
fn second_tick_without_movement_changes_nothing() {
    let mut ctl = controller(16, 3);
    let observers = vec![ObserverState::new(5, -20, 33), ObserverState::new(40, 0, 0)];
    // a record that is out of range from the start
    ctl.index.insert(ChunkRecord::fresh(ChunkCoordinate::new(500, 500, 500))).unwrap();
    let first = ctl.tick(&observers);
    assert_eq!(sorted(first.removed), vec![(500, 500, 500)]);
    assert!(!first.created.is_empty());
    let before = ctl.index.records();
    let second = ctl.tick(&observers);
    assert!(second.removed.is_empty());
    assert!(second.created.is_empty());
    assert_eq!(ctl.index.records(), before);
    let third = ctl.tick(&observers);
    assert!(third.removed.is_empty());
    assert!(third.created.is_empty());
    assert_eq!(ctl.index.records(), before);
}

#[test]
fn chunk_left_behind_is_asked_to_unload() {
    let mut ctl = controller(16, 1);
    let c = ChunkCoordinate::new(0, 0, 0);
    ctl.tick(&vec![ObserverState::new(0, 0, 0)]);
    assert_eq!(ctl.index.get(&c).unwrap().load_state, LoadState::ShouldLoad);
    assert!(ctl.index.live_coordinates().contains(&c));
    // the observer now stands in the middle of chunk 62: of the candidates
    // around it only the four with x = 62 are within 16 units
    let outcome = ctl.tick(&vec![ObserverState::new(1000, 0, 0)]);
    assert_eq!(ctl.index.get(&c).unwrap().load_state, LoadState::ShouldUnload);
    assert!(outcome.removed.contains(&c));
    assert_eq!(outcome.removed.len(), 8);
    assert_eq!(outcome.created.len(), 4);
    assert!(!ctl.index.live_coordinates().contains(&c));
    assert_eq!(sorted(ctl.index.live_coordinates()), sorted(outcome.created));
    assert!(ctl.index.contains(&c));
    assert_eq!(ctl.index.len(), 12);
}

#[test]
fn loaded_chunk_left_behind_is_asked_to_unload() {
    let mut ctl = controller(16, 1);
    let c = ChunkCoordinate::new(0, 0, 0);
    ctl.tick(&vec![ObserverState::new(0, 0, 0)]);
    assert!(ctl.index.advance_load(&c, LoadState::Loaded));
    assert!(ctl.index.advance_generation(&c, GenerationState::Generating));
    let outcome = ctl.tick(&vec![ObserverState::new(1000, 0, 0)]);
    assert!(outcome.removed.contains(&c));
    let r = ctl.index.get(&c).unwrap();
    assert_eq!(r.load_state, LoadState::ShouldUnload);
    assert_eq!(r.generation_state, GenerationState::Generating);
}

#[test]
fn unloading_never_reverts() {
    let mut ctl = controller(16, 1);
    let c = ChunkCoordinate::new(0, 0, 0);
    let home = vec![ObserverState::new(0, 0, 0)];
    let away = vec![ObserverState::new(1000, 0, 0)];
    ctl.tick(&home);
    ctl.tick(&away);
    assert_eq!(ctl.index.get(&c).unwrap().load_state, LoadState::ShouldUnload);
    // the observer comes back: the record is still there, and stays as it
    // is; what was created around the other place is retired in turn
    let outcome = ctl.tick(&home);
    assert!(outcome.created.is_empty());
    assert_eq!(outcome.removed.len(), 4);
    assert!(outcome.removed.iter().all(|k| k.x == 62));
    assert_eq!(ctl.index.get(&c).unwrap().load_state, LoadState::ShouldUnload);
    assert!(ctl.index.live_coordinates().is_empty());
    // once evicted, the coordinate is created anew
    for k in ctl.index.records() {
        if k.load_state == LoadState::ShouldUnload && k.coordinate.x <= 0 {
            ctl.index.remove(&k.coordinate).unwrap();
        }
    }
    let outcome = ctl.tick(&home);
    assert_eq!(outcome.created.len(), 8);
    assert_eq!(ctl.index.get(&c).unwrap(), ChunkRecord::fresh(c));
}

#[test]
fn unloaded_record_out_of_range_stays_unloaded() {
    let mut ctl = controller(16, 1);
    let c = ChunkCoordinate::new(50, 0, 0);
    ctl.index.insert(ChunkRecord::fresh(c)).unwrap();
    assert!(ctl.index.advance_load(&c, LoadState::ShouldUnload));
    assert!(ctl.index.advance_load(&c, LoadState::Unloaded));
    let outcome = ctl.tick(&vec![ObserverState::new(0, 0, 0)]);
    assert!(outcome.removed.is_empty());
    assert_eq!(ctl.index.get(&c).unwrap().load_state, LoadState::Unloaded);
}

#[test]
fn without_observers_every_live_chunk_is_asked_to_unload() {
    let mut ctl = controller(16, 1);
    ctl.tick(&vec![ObserverState::new(0, 0, 0)]);
    let outcome = ctl.tick(&vec![]);
    assert_eq!(outcome.removed.len(), 8);
    assert!(outcome.created.is_empty());
    assert!(ctl.index.live_coordinates().is_empty());
    assert_eq!(ctl.index.len(), 8);
}

#[test]
fn chunk_at_exactly_render_distance_is_unloaded_and_not_loaded() {
    let mut ctl = controller(16, 1);
    let c = ChunkCoordinate::new(0, 0, 0);
    // centre (8, 8, 8), observer exactly 16 away
    let p = ObserverState::new(-8, 8, 8);
    let outcome = ctl.tick(&vec![p]);
    assert!(!outcome.created.contains(&c));
    ctl.index.insert(ChunkRecord::fresh(c)).unwrap();
    let outcome = ctl.tick(&vec![p]);
    assert_eq!(outcome.removed, vec![c]);
    assert!(outcome.created.is_empty());
    let outcome = ctl.tick(&vec![p]);
    assert!(outcome.removed.is_empty());
    assert!(outcome.created.is_empty());
}

#[test]
fn chunk_in_range_above_the_candidate_cube_is_not_created() {
    let mut ctl = controller(16, 1);
    let p = ObserverState::new(15, 0, 0);
    let above = ChunkCoordinate::new(1, 0, 0);
    // centre (24, 8, 8): 81 + 64 + 64 = 209, within 16 of the observer
    assert!(ctl.config.within_render_distance(&above, &p));
    let outcome = ctl.tick(&vec![p]);
    assert!(!outcome.created.contains(&above));
    assert!(!ctl.index.contains(&above));
    // but it is not unloaded either, once it exists
    ctl.index.insert(ChunkRecord::fresh(above)).unwrap();
    let outcome = ctl.tick(&vec![p]);
    assert!(outcome.removed.is_empty());
}

#[test]
fn passes_can_run_apart() {
    let mut ctl = controller(16, 1);
    let home = vec![ObserverState::new(0, 0, 0)];
    assert!(ctl.unload_pass(&home).is_empty());
    assert_eq!(ctl.load_pass(&home).len(), 8);
    assert!(ctl.load_pass(&home).is_empty());
    let away = vec![ObserverState::new(-1000, 0, 0)];
    assert_eq!(ctl.unload_pass(&away).len(), 8);
    assert!(ctl.unload_pass(&away).is_empty());
    assert_eq!(ctl.index.len(), 8);
}

#[test]
fn observers_at_the_ends_of_the_world() {
    for p in [
        ObserverState::new(i64::MAX, i64::MAX, i64::MAX),
        ObserverState::new(i64::MIN, i64::MIN, i64::MIN),
        ObserverState::new(i64::MIN, 0, i64::MAX),
    ] {
        let mut ctl = controller(1, 2);
        let outcome = ctl.tick(&vec![p]);
        let base = p.containing_chunk(&ctl.config);
        assert!(outcome.created.contains(&base));
        for c in &outcome.created {
            assert!(ctl.config.within_render_distance(c, &p));
        }
        let again = ctl.tick(&vec![p]);
        assert!(again.created.is_empty());
        assert!(again.removed.is_empty());
    }
}

#[test]
fn largest_edge_and_radius_one() {
    let mut ctl = controller(u32::MAX, 1);
    let outcome = ctl.tick(&vec![ObserverState::new(0, 0, 0)]);
    // centres at about half an edge on each axis: 3/4 of the squared threshold
    assert_eq!(outcome.created.len(), 8);
}
