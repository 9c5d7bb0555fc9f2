use meteo_animation::TrailManager;

#[test]
fn test_new_creates_trails() {
    let tm = TrailManager::new(100, 16, 0.0f32);
    assert_eq!(tm.trail_length(), 16);
    assert_eq!(tm.max_particles(), 100);
}

#[test]
fn trail_test_new_allocates_correct_size() {
    let tm = TrailManager::new(10, 8, 0.0f32);
    assert_eq!(tm.get_trails_len(), 160);
}

#[test]
fn test_reset_fills_all_same() {
    let mut tm = TrailManager::new(10, 4, 0.0f32);
    tm.reset_trail(0, 50.0, 50.0);
    for i in 0..4 {
        let (x, y) = tm.get_position(0, i);
        assert_eq!((x, y), (50.0, 50.0), "Segment {} should be (50, 50)", i);
    }
}

#[test]
fn test_reset_different_particles() {
    let mut tm = TrailManager::new(10, 4, 0.0f32);
    tm.reset_trail(0, 10.0, 10.0);
    tm.reset_trail(1, 20.0, 20.0);
    assert_eq!(tm.get_position(0, 0), (10.0, 10.0));
    assert_eq!(tm.get_position(1, 0), (20.0, 20.0));
}

#[test]
fn test_push_stores_at_head() {
    let mut tm = TrailManager::new(10, 4, 0.0f32);
    tm.reset_trail(0, 0.0, 0.0);
    tm.push_position(0, 10.0, 10.0);
    assert_eq!(tm.get_position(0, 0), (10.0, 10.0));
}

#[test]
fn test_push_shifts_positions() {
    let mut tm = TrailManager::new(10, 4, 0.0f32);
    tm.reset_trail(0, 0.0, 0.0);
    tm.push_position(0, 10.0, 10.0);
    assert_eq!(tm.get_position(0, 0), (10.0, 10.0));
    assert_eq!(tm.get_position(0, 1), (0.0, 0.0));
    assert_eq!(tm.get_position(0, 2), (0.0, 0.0));
    assert_eq!(tm.get_position(0, 3), (0.0, 0.0));
}

#[test]
fn test_push_drops_oldest() {
    let mut tm = TrailManager::new(10, 3, 0.0f32);
    tm.reset_trail(0, 0.0, 0.0);
    tm.push_position(0, 1.0, 1.0);
    tm.push_position(0, 2.0, 2.0);
    tm.push_position(0, 3.0, 3.0);
    assert_eq!(tm.get_position(0, 0), (3.0, 3.0));
    assert_eq!(tm.get_position(0, 1), (2.0, 2.0));
    assert_eq!(tm.get_position(0, 2), (1.0, 1.0));
}

#[test]
fn test_multiple_particles_independent() {
    let mut tm = TrailManager::new(10, 3, 0.0f32);
    tm.reset_trail(0, 0.0, 0.0);
    tm.reset_trail(1, 100.0, 100.0);
    tm.push_position(0, 5.0, 5.0);
    tm.push_position(1, 105.0, 105.0);
    assert_eq!(tm.get_position(0, 0), (5.0, 5.0));
    assert_eq!(tm.get_position(0, 1), (0.0, 0.0));
    assert_eq!(tm.get_position(1, 0), (105.0, 105.0));
    assert_eq!(tm.get_position(1, 1), (100.0, 100.0));
}

#[test]
fn test_out_of_bounds_particle_id() {
    let mut tm = TrailManager::new(5, 4, 0.0f32);
    tm.reset_trail(10, 50.0, 50.0);
    tm.push_position(10, 60.0, 60.0);
    let pos = tm.get_position(10, 0);
    assert_eq!(pos, (0.0, 0.0));
}

#[test]
fn buffer_layout_is_flat_pairs_particle_after_particle() {
    let mut tm = TrailManager::new(2, 2, 0u32);
    tm.reset_trail(1, 7, 8);
    tm.push_position(1, 9, 10);
    assert_eq!(tm.trails(), &vec![0, 0, 0, 0, 9, 10, 7, 8]);
}

#[test]
fn out_of_range_segment_reads_zero() {
    let mut tm = TrailManager::new(2, 2, -1i32);
    tm.reset_trail(0, 3, 4);
    assert_eq!(tm.get_position(0, 2), (-1, -1));
    assert_eq!(tm.get_position(0, 1), (3, 4));
}

#[test]
fn single_segment_trail_keeps_only_newest() {
    let mut tm = TrailManager::new(1, 1, 0u8);
    tm.push_position(0, 1, 2);
    tm.push_position(0, 3, 4);
    assert_eq!(tm.get_position(0, 0), (3, 4));
    assert_eq!(tm.get_trails_len(), 2);
}
