use voxel_streaming::coords::{center_along, containing_along, origin_along};
use voxel_streaming::{ChunkCoordinate, ObserverState, StreamingConfig, WorldPosition};

fn config(edge: u32, radius: u32) -> StreamingConfig {
    StreamingConfig::new(edge, radius).unwrap()
}

#[test]
fn config_needs_positive_tunables() {
    assert!(StreamingConfig::new(0, 3).is_none());
    assert!(StreamingConfig::new(16, 0).is_none());
    assert!(StreamingConfig::new(0, 0).is_none());
    let cfg = StreamingConfig::new(16, 3).unwrap();
    assert_eq!(cfg.chunk_edge_length(), 16);
    assert_eq!(cfg.render_distance_chunks(), 3);
    assert_eq!(cfg.render_distance_units(), 48);
}

#[test]
fn standard_config_is_edge_16_radius_3() {
    let cfg = StreamingConfig::standard();
    assert_eq!(cfg.chunk_edge_length(), 16);
    assert_eq!(cfg.render_distance_chunks(), 3);
}

#[test]
fn render_distance_units_does_not_overflow() {
    let cfg = config(u32::MAX, u32::MAX);
    assert_eq!(cfg.render_distance_units(), (u32::MAX as u64) * (u32::MAX as u64));
}

#[test]
fn center_is_coordinate_times_edge_plus_half_edge() {
    let cfg = config(16, 1);
    assert_eq!(ChunkCoordinate::new(0, 0, 0).center(&cfg), WorldPosition { x: 8, y: 8, z: 8 });
    assert_eq!(ChunkCoordinate::new(1, 0, 0).center(&cfg), WorldPosition { x: 24, y: 8, z: 8 });
    assert_eq!(ChunkCoordinate::new(-1, -2, 3).center(&cfg), WorldPosition { x: -8, y: -24, z: 56 });
    for c in -5i64..5 {
        assert_eq!(center_along(c, 16), (c as i128) * 16 + 8);
    }
}

#[test]
fn center_is_the_same_every_time() {
    let cfg = config(16, 3);
    let c = ChunkCoordinate::new(7, -9, 11);
    assert_eq!(c.center(&cfg), c.center(&cfg));
}

#[test]
fn center_of_an_odd_edge_uses_the_whole_half() {
    assert_eq!(center_along(0, 5), 2);
    assert_eq!(center_along(-1, 5), -3);
    assert_eq!(center_along(2, 1), 2);
}

#[test]
fn center_at_the_ends_of_the_coordinate_range() {
    assert_eq!(center_along(i64::MAX, u32::MAX), (i64::MAX as i128) * (u32::MAX as i128) + (u32::MAX / 2) as i128);
    assert_eq!(center_along(i64::MIN, u32::MAX), (i64::MIN as i128) * (u32::MAX as i128) + (u32::MAX / 2) as i128);
}

#[test]
fn world_origin_is_coordinate_times_edge() {
    let cfg = config(16, 1);
    assert_eq!(ChunkCoordinate::new(0, 0, 0).world_origin(&cfg), WorldPosition { x: 0, y: 0, z: 0 });
    assert_eq!(ChunkCoordinate::new(2, -1, 5).world_origin(&cfg), WorldPosition { x: 32, y: -16, z: 80 });
    assert_eq!(origin_along(i64::MIN, 3), (i64::MIN as i128) * 3);
}

#[test]
fn containing_chunk_is_floor_division() {
    assert_eq!(containing_along(0, 16), 0);
    assert_eq!(containing_along(15, 16), 0);
    assert_eq!(containing_along(16, 16), 1);
    assert_eq!(containing_along(-1, 16), -1);
    assert_eq!(containing_along(-16, 16), -1);
    assert_eq!(containing_along(-17, 16), -2);
    assert_eq!(containing_along(i64::MIN, 1), i64::MIN);
    assert_eq!(containing_along(i64::MAX, 1), i64::MAX);
    assert_eq!(containing_along(i64::MIN, 16), i64::MIN / 16);
    assert_eq!(containing_along(i64::MIN + 1, 16), i64::MIN / 16);
    assert_eq!(containing_along(i64::MIN, 3), -3074457345618258603);
    for p in -40i64..40 {
        assert_eq!(containing_along(p, 7), p.div_euclid(7));
    }
}

#[test]
fn observer_containing_chunk_by_axis() {
    let cfg = config(16, 3);
    let p = ObserverState::new(-10, 17, 0);
    assert_eq!(p.containing_chunk(&cfg), ChunkCoordinate::new(-1, 1, 0));
}

#[test]
fn chunk_at_origin_is_within_one_chunk_of_the_origin() {
    let cfg = config(16, 1);
    let p = ObserverState::new(0, 0, 0);
    // centre (8, 8, 8): squared distance 192, below 256
    assert!(cfg.within_render_distance(&ChunkCoordinate::new(0, 0, 0), &p));
    // centre (24, 8, 8): squared distance 704
    assert!(!cfg.within_render_distance(&ChunkCoordinate::new(1, 0, 0), &p));
}

#[test]
fn render_distance_is_exclusive_at_the_boundary() {
    let cfg = config(16, 1);
    let c = ChunkCoordinate::new(0, 0, 0);
    // centre (8, 8, 8); exactly 16 away along x
    assert!(!cfg.within_render_distance(&c, &ObserverState::new(-8, 8, 8)));
    assert!(!cfg.within_render_distance(&c, &ObserverState::new(24, 8, 8)));
    // one unit closer
    assert!(cfg.within_render_distance(&c, &ObserverState::new(-7, 8, 8)));
    assert!(cfg.within_render_distance(&c, &ObserverState::new(23, 8, 8)));
    // 12^2 + 8^2 + 7^2 = 257 and 12^2 + 8^2 + 6^2 = 244
    assert!(!cfg.within_render_distance(&c, &ObserverState::new(20, 16, 15)));
    assert!(cfg.within_render_distance(&c, &ObserverState::new(20, 16, 14)));
    // 12^2 + 8^2 + sqrt(48)^2 is 256 at no whole point; 0, 16 and 0 is
    assert!(!cfg.within_render_distance(&c, &ObserverState::new(8, 24, 8)));
}

#[test]
fn render_distance_at_the_ends_of_the_world() {
    let cfg = config(u32::MAX, u32::MAX);
    let far = ChunkCoordinate::new(i64::MAX, i64::MAX, i64::MAX);
    let near = ChunkCoordinate::new(0, 0, 0);
    let p = ObserverState::new(i64::MIN, i64::MIN, i64::MIN);
    assert!(!cfg.within_render_distance(&far, &p));
    // about 2^63 away on each axis, with a render distance of about 2^64
    assert!(cfg.within_render_distance(&near, &p));
    let q = ObserverState::new(0, 0, 0);
    assert!(cfg.within_render_distance(&near, &q));
    assert!(cfg.within_render_distance(&ChunkCoordinate::new(1000, -1000, 1000), &q));
    assert!(!cfg.within_render_distance(&far, &q));
}

#[test]
fn any_observer_in_range_counts() {
    let cfg = config(16, 1);
    let c = ChunkCoordinate::new(0, 0, 0);
    let far = ObserverState::new(1000, 0, 0);
    let near = ObserverState::new(8, 8, 8);
    assert!(!cfg.within_render_distance_of_any(&c, &vec![]));
    assert!(!cfg.within_render_distance_of_any(&c, &vec![far]));
    assert!(cfg.within_render_distance_of_any(&c, &vec![far, near]));
    assert!(cfg.within_render_distance_of_any(&c, &vec![near, far]));
}
