use voxel_streaming::{ChunkCoordinate, ChunkIndex, ChunkRecord, GenerationState, IndexError, LoadState};

fn record(x: i64, y: i64, z: i64) -> ChunkRecord {
    ChunkRecord::fresh(ChunkCoordinate::new(x, y, z))
}

#[test]
fn fresh_record_is_to_be_loaded_and_not_generated() {
    let r = record(1, 2, 3);
    assert_eq!(r.coordinate, ChunkCoordinate::new(1, 2, 3));
    assert_eq!(r.load_state, LoadState::ShouldLoad);
    assert_eq!(r.generation_state, GenerationState::NotStarted);
}

#[test]
fn coordinates_are_equal_when_all_components_are() {
    assert_eq!(ChunkCoordinate::new(1, 2, 3), ChunkCoordinate::new(1, 2, 3));
    assert_ne!(ChunkCoordinate::new(1, 2, 3), ChunkCoordinate::new(1, 2, 4));
    assert_ne!(ChunkCoordinate::new(1, 2, 3), ChunkCoordinate::new(1, 3, 3));
    assert_ne!(ChunkCoordinate::new(1, 2, 3), ChunkCoordinate::new(2, 2, 3));
    assert_ne!(ChunkCoordinate::new(1, 2, 3), ChunkCoordinate::new(3, 2, 1));
}

#[test]
fn new_index_is_empty() {
    let index = ChunkIndex::new();
    assert_eq!(index.len(), 0);
    assert!(index.records().is_empty());
    assert!(!index.contains(&ChunkCoordinate::new(0, 0, 0)));
    assert_eq!(index.get(&ChunkCoordinate::new(0, 0, 0)), None);
    assert_eq!(index.position(&ChunkCoordinate::new(0, 0, 0)), None);
}

#[test]
fn insert_then_get() {
    let mut index = ChunkIndex::new();
    assert_eq!(index.insert(record(1, 2, 3)), Ok(()));
    assert_eq!(index.len(), 1);
    assert!(index.contains(&ChunkCoordinate::new(1, 2, 3)));
    assert!(!index.contains(&ChunkCoordinate::new(3, 2, 1)));
    assert_eq!(index.get(&ChunkCoordinate::new(1, 2, 3)), Some(record(1, 2, 3)));
    assert_eq!(index.get(&ChunkCoordinate::new(3, 2, 1)), None);
    assert_eq!(index.entry(0), record(1, 2, 3));
}

#[test]
fn insert_refuses_a_coordinate_twice() {
    let mut index = ChunkIndex::new();
    assert_eq!(index.insert(record(0, 0, 0)), Ok(()));
    let mut other = record(0, 0, 0);
    other.load_state = LoadState::Loaded;
    assert_eq!(index.insert(other), Err(IndexError::DuplicateCoordinate));
    assert_eq!(index.len(), 1);
    assert_eq!(index.get(&ChunkCoordinate::new(0, 0, 0)), Some(record(0, 0, 0)));
}

#[test]
fn records_come_in_insertion_order() {
    let mut index = ChunkIndex::new();
    for x in [5i64, -1, 3] {
        assert_eq!(index.insert(record(x, 0, 0)), Ok(()));
    }
    assert_eq!(index.records(), vec![record(5, 0, 0), record(-1, 0, 0), record(3, 0, 0)]);
    assert_eq!(index.position(&ChunkCoordinate::new(-1, 0, 0)), Some(1));
}

#[test]
fn remove_of_an_absent_coordinate_does_nothing() {
    let mut index = ChunkIndex::new();
    index.insert(record(0, 0, 0)).unwrap();
    assert_eq!(index.remove(&ChunkCoordinate::new(9, 9, 9)), Ok(()));
    assert_eq!(index.len(), 1);
}

#[test]
fn remove_refuses_a_live_record() {
    let mut index = ChunkIndex::new();
    let c = ChunkCoordinate::new(0, 0, 0);
    index.insert(record(0, 0, 0)).unwrap();
    assert_eq!(index.remove(&c), Err(IndexError::StillLive));
    assert!(index.contains(&c));
    assert!(index.advance_load(&c, LoadState::Loaded));
    assert_eq!(index.remove(&c), Err(IndexError::StillLive));
    assert!(index.contains(&c));
}

#[test]
fn remove_evicts_a_record_that_was_asked_to_unload() {
    let mut index = ChunkIndex::new();
    let a = ChunkCoordinate::new(0, 0, 0);
    let b = ChunkCoordinate::new(1, 0, 0);
    let c = ChunkCoordinate::new(2, 0, 0);
    index.insert(ChunkRecord::fresh(a)).unwrap();
    index.insert(ChunkRecord::fresh(b)).unwrap();
    index.insert(ChunkRecord::fresh(c)).unwrap();
    assert!(index.advance_load(&b, LoadState::ShouldUnload));
    assert_eq!(index.remove(&b), Ok(()));
    assert!(!index.contains(&b));
    assert_eq!(index.get(&b), None);
    assert_eq!(index.records(), vec![ChunkRecord::fresh(a), ChunkRecord::fresh(c)]);
    // the coordinate can come back as a new record
    assert_eq!(index.insert(ChunkRecord::fresh(b)), Ok(()));
    assert!(index.contains(&b));
    assert_eq!(index.len(), 3);
}

#[test]
fn remove_evicts_an_unloaded_record() {
    let mut index = ChunkIndex::new();
    let a = ChunkCoordinate::new(4, 4, 4);
    index.insert(ChunkRecord::fresh(a)).unwrap();
    assert!(index.advance_load(&a, LoadState::ShouldUnload));
    assert!(index.advance_load(&a, LoadState::Unloaded));
    assert_eq!(index.remove(&a), Ok(()));
    assert_eq!(index.len(), 0);
    assert!(!index.contains(&a));
}

#[test]
fn load_state_steps() {
    let all = [LoadState::ShouldLoad, LoadState::Loaded, LoadState::ShouldUnload, LoadState::Unloaded];
    let allowed = [
        (LoadState::ShouldLoad, LoadState::Loaded),
        (LoadState::ShouldLoad, LoadState::ShouldUnload),
        (LoadState::Loaded, LoadState::ShouldUnload),
        (LoadState::ShouldUnload, LoadState::Unloaded),
    ];
    for from in all {
        for to in all {
            assert_eq!(from.can_advance_to(to), allowed.contains(&(from, to)));
        }
    }
    assert!(LoadState::ShouldLoad.is_live());
    assert!(LoadState::Loaded.is_live());
    assert!(!LoadState::ShouldUnload.is_live());
    assert!(!LoadState::Unloaded.is_live());
    assert!(!LoadState::ShouldLoad.is_evictable());
    assert!(!LoadState::Loaded.is_evictable());
    assert!(LoadState::ShouldUnload.is_evictable());
    assert!(LoadState::Unloaded.is_evictable());
}

#[test]
fn generation_state_steps() {
    let all = [GenerationState::NotStarted, GenerationState::Generating, GenerationState::Done];
    let allowed = [
        (GenerationState::NotStarted, GenerationState::Generating),
        (GenerationState::Generating, GenerationState::Done),
    ];
    for from in all {
        for to in all {
            assert_eq!(from.can_advance_to(to), allowed.contains(&(from, to)));
        }
    }
}

#[test]
fn unloaded_record_is_never_revived() {
    let mut index = ChunkIndex::new();
    let a = ChunkCoordinate::new(0, 0, 0);
    index.insert(ChunkRecord::fresh(a)).unwrap();
    assert!(index.advance_load(&a, LoadState::ShouldUnload));
    assert!(index.advance_load(&a, LoadState::Unloaded));
    for to in [LoadState::ShouldLoad, LoadState::Loaded, LoadState::ShouldUnload, LoadState::Unloaded] {
        assert!(!index.advance_load(&a, to));
        assert_eq!(index.get(&a).unwrap().load_state, LoadState::Unloaded);
    }
}

#[test]
fn advance_keeps_the_other_fields() {
    let mut index = ChunkIndex::new();
    let a = ChunkCoordinate::new(0, 0, 0);
    index.insert(ChunkRecord::fresh(a)).unwrap();
    assert!(index.advance_generation(&a, GenerationState::Generating));
    assert!(index.advance_load(&a, LoadState::Loaded));
    let r = index.get(&a).unwrap();
    assert_eq!(r.coordinate, a);
    assert_eq!(r.load_state, LoadState::Loaded);
    assert_eq!(r.generation_state, GenerationState::Generating);
    assert!(!index.advance_generation(&a, GenerationState::NotStarted));
    assert!(!index.advance_generation(&a, GenerationState::Generating));
    assert!(index.advance_generation_at(0, GenerationState::Done));
    assert!(!index.advance_load_at(0, LoadState::ShouldLoad));
    assert!(index.advance_load_at(0, LoadState::ShouldUnload));
    assert_eq!(
        index.get(&a),
        Some(ChunkRecord { coordinate: a, load_state: LoadState::ShouldUnload, generation_state: GenerationState::Done })
    );
}

#[test]
fn advance_of_an_absent_coordinate_does_nothing() {
    let mut index = ChunkIndex::new();
    let a = ChunkCoordinate::new(0, 0, 0);
    assert!(!index.advance_load(&a, LoadState::Loaded));
    assert!(!index.advance_generation(&a, GenerationState::Generating));
    assert_eq!(index.len(), 0);
}

#[test]
fn live_coordinates_and_pending_generation() {
    let mut index = ChunkIndex::new();
    let a = ChunkCoordinate::new(0, 0, 0);
    let b = ChunkCoordinate::new(1, 0, 0);
    let c = ChunkCoordinate::new(2, 0, 0);
    let d = ChunkCoordinate::new(3, 0, 0);
    for k in [a, b, c, d] {
        index.insert(ChunkRecord::fresh(k)).unwrap();
    }
    assert!(index.advance_load(&b, LoadState::Loaded));
    assert!(index.advance_load(&c, LoadState::ShouldUnload));
    assert!(index.advance_load(&d, LoadState::ShouldUnload));
    assert!(index.advance_load(&d, LoadState::Unloaded));
    assert!(index.advance_generation(&a, GenerationState::Generating));
    assert!(index.advance_generation(&c, GenerationState::Generating));
    assert!(index.advance_generation(&c, GenerationState::Done));
    let live = index.live_coordinates();
    assert_eq!(live.len(), 2);
    assert!(live.contains(&a) && live.contains(&b));
    let pending = index.pending_generation();
    assert_eq!(pending.len(), 2);
    assert!(pending.contains(&b) && pending.contains(&d));
}

#[test]
fn many_coordinates_stay_apart() {
    let mut index = ChunkIndex::new();
    for x in -4i64..4 {
        for y in -4i64..4 {
            for z in -4i64..4 {
                assert_eq!(index.insert(record(x, y, z)), Ok(()));
            }
        }
    }
    assert_eq!(index.len(), 512);
    for x in -4i64..4 {
        for y in -4i64..4 {
            for z in -4i64..4 {
                assert!(index.contains(&ChunkCoordinate::new(x, y, z)));
                assert_eq!(index.insert(record(x, y, z)), Err(IndexError::DuplicateCoordinate));
            }
        }
    }
    assert!(!index.contains(&ChunkCoordinate::new(4, 0, 0)));
    assert!(!index.contains(&ChunkCoordinate::new(0, -5, 0)));
    assert_eq!(index.len(), 512);
}
