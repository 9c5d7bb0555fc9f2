use meteo_animation::{TrailManager, TrailVertexBuilder};

type V = (f32, f32, f32, f32, f32, f32);

/// A quad that records what it was built from: segment index, segment
/// count and the two end points; a segment of no length gives none.
fn labelled(s: usize, n: usize, p0: (f32, f32), p1: (f32, f32)) -> Option<[V; 6]> {
    if p0 == p1 {
        None
    } else {
        Some([(s as f32, n as f32, p0.0, p0.1, p1.0, p1.1); 6])
    }
}

fn build(vb: &mut TrailVertexBuilder<f32>, tm: &TrailManager<f32>, count: usize) {
    vb.build_with(tm, count, labelled);
}

#[test]
fn test_new_creates_builder() {
    let vb = TrailVertexBuilder::new(100, 16, 0.0f32);
    assert_eq!(vb.get_vertex_count(), 0);
}

#[test]
fn vertex_test_new_allocates_correct_size() {
    let vb = TrailVertexBuilder::new(10, 4, 0.0f32);
    assert_eq!(vb.vertices().len(), 10 * 3 * 6 * 6);
}

#[test]
fn test_build_generates_vertices() {
    let mut tm = TrailManager::new(10, 4, 0.0f32);
    tm.reset_trail(0, 0.0, 0.0);
    tm.push_position(0, 10.0, 0.0);
    tm.push_position(0, 20.0, 0.0);
    let mut vb = TrailVertexBuilder::new(10, 4, 0.0f32);
    build(&mut vb, &tm, 1);
    assert_eq!(vb.get_vertex_count(), 18);
}

#[test]
fn test_build_empty_trails() {
    let tm = TrailManager::new(10, 4, 0.0f32);
    let mut vb = TrailVertexBuilder::new(10, 4, 0.0f32);
    build(&mut vb, &tm, 0);
    assert_eq!(vb.get_vertex_count(), 0);
}

#[test]
fn test_multiple_particles() {
    let mut tm = TrailManager::new(10, 3, 0.0f32);
    tm.reset_trail(0, 0.0, 0.0);
    tm.push_position(0, 10.0, 0.0);
    tm.reset_trail(1, 100.0, 100.0);
    tm.push_position(1, 110.0, 100.0);
    let mut vb = TrailVertexBuilder::new(10, 3, 0.0f32);
    build(&mut vb, &tm, 2);
    assert_eq!(vb.get_vertex_count(), 24);
}

#[test]
fn test_degenerate_segments_handled() {
    let mut tm = TrailManager::new(10, 4, 0.0f32);
    tm.reset_trail(0, 50.0, 50.0);
    let mut vb = TrailVertexBuilder::new(10, 4, 0.0f32);
    build(&mut vb, &tm, 1);
    assert_eq!(vb.get_vertex_count(), 18);
}

#[test]
fn build_stops_at_capacity_and_counts_partial_quads() {
    let tm = TrailManager::new(5, 3, 0u8);
    let mut vb = TrailVertexBuilder::new(1, 3, 0u8);
    vb.build_with(&tm, 5, |_s: usize, _n: usize, _a: (u8, u8), _b: (u8, u8)| Some([(1, 1, 1, 1, 1, 1); 6]));
    assert_eq!(vb.get_vertex_count(), 12);
}

#[test]
fn build_uses_quad_output_in_order() {
    let mut tm = TrailManager::new(2, 3, 0u32);
    tm.reset_trail(0, 1, 1);
    tm.reset_trail(1, 2, 2);
    let mut vb = TrailVertexBuilder::new(2, 3, 0u32);
    vb.build_with(&tm, 2, |s: usize, n: usize, a: (u32, u32), _b: (u32, u32)| {
        if a.0 == 2 && s == 1 {
            None
        } else {
            Some([(s as u32, n as u32, a.0, a.1, 9, 9); 6])
        }
    });
    assert_eq!(vb.get_vertex_count(), 24);
    assert_eq!(vb.get_vertex(0), (0, 2, 1, 1, 9, 9));
    assert_eq!(vb.get_vertex(6), (1, 2, 1, 1, 9, 9));
    assert_eq!(vb.get_vertex(12), (0, 2, 2, 2, 9, 9));
    assert_eq!(vb.get_vertex(18), (0, 0, 0, 0, 0, 0));
    assert_eq!(vb.get_vertex(24), (0, 0, 0, 0, 0, 0));
}

#[test]
fn short_trails_give_no_vertices() {
    let tm = TrailManager::new(4, 1, 0.0f32);
    let mut vb = TrailVertexBuilder::new(4, 1, 0.0f32);
    build(&mut vb, &tm, 4);
    assert_eq!(vb.get_vertex_count(), 0);
    assert_eq!(vb.get_floats_per_vertex(), 6);
}

#[test]
fn emit_vertex_ignores_overflow() {
    let mut vb = TrailVertexBuilder::new(1, 2, 0u16);
    for i in 0..8u16 {
        vb.emit_vertex(i, i, i, i, i, i);
    }
    assert_eq!(vb.get_vertex_count(), 6);
    assert_eq!(vb.get_vertex(5), (5, 5, 5, 5, 5, 5));
    vb.reset();
    assert_eq!(vb.get_vertex_count(), 0);
    vb.emit_degenerate_quad();
    assert_eq!(vb.get_vertex_count(), 6);
    assert_eq!(vb.get_vertex(0), (0, 0, 0, 0, 0, 0));
}

#[test]
fn segments_run_head_to_tail() {
    let mut tm = TrailManager::new(1, 3, 0.0f32);
    tm.reset_trail(0, 0.0, 0.0);
    tm.push_position(0, 10.0, 0.0);
    tm.push_position(0, 20.0, 0.0);
    let mut vb = TrailVertexBuilder::new(1, 3, 0.0f32);
    build(&mut vb, &tm, 1);
    assert_eq!(vb.get_vertex_count(), 12);
    // segment 0 joins the head (20, 0) to (10, 0); segment 1 joins (10, 0) to (0, 0)
    assert_eq!(vb.get_vertex(0), (0.0, 2.0, 20.0, 0.0, 10.0, 0.0));
    assert_eq!(vb.get_vertex(5), (0.0, 2.0, 20.0, 0.0, 10.0, 0.0));
    assert_eq!(vb.get_vertex(6), (1.0, 2.0, 10.0, 0.0, 0.0, 0.0));
}

#[test]
fn still_trail_gives_quads_of_no_area() {
    let mut tm = TrailManager::new(2, 3, 0.0f32);
    tm.reset_trail(0, 5.0, 5.0);
    let mut vb = TrailVertexBuilder::new(2, 3, 0.0f32);
    build(&mut vb, &tm, 1);
    assert_eq!(vb.get_vertex_count(), 12);
    for i in 0..12 {
        assert_eq!(vb.get_vertex(i), (0.0, 0.0, 0.0, 0.0, 0.0, 0.0));
    }
}

#[test]
fn cut_group_keeps_first_vertices() {
    let mut tm = TrailManager::new(2, 3, 0u32);
    tm.reset_trail(0, 1, 1);
    tm.reset_trail(1, 2, 2);
    // room for 9 vertices: one whole quad and the first three of the next
    let mut vb = TrailVertexBuilder::new(2, 3, 0u32);
    vb.reset();
    vb.build_with(&tm, 2, |s: usize, _n: usize, a: (u32, u32), _b: (u32, u32)| {
        Some([
            (s as u32, 0, a.0, 0, 0, 0),
            (s as u32, 1, a.0, 0, 0, 0),
            (s as u32, 2, a.0, 0, 0, 0),
            (s as u32, 3, a.0, 0, 0, 0),
            (s as u32, 4, a.0, 0, 0, 0),
            (s as u32, 5, a.0, 0, 0, 0),
        ])
    });
    assert_eq!(vb.get_vertex_count(), 24);
    let mut small = TrailVertexBuilder::new(1, 2, 0u32);
    small.build_with(&tm, 2, |s: usize, _n: usize, a: (u32, u32), _b: (u32, u32)| {
        Some([
            (s as u32, 0, a.0, 0, 0, 0),
            (s as u32, 1, a.0, 0, 0, 0),
            (s as u32, 2, a.0, 0, 0, 0),
            (s as u32, 3, a.0, 0, 0, 0),
            (s as u32, 4, a.0, 0, 0, 0),
            (s as u32, 5, a.0, 0, 0, 0),
        ])
    });
    // room for one segment per trail of two positions: 6 vertices, the
    // first segment of trail 0 only
    assert_eq!(small.get_vertex_count(), 6);
    assert_eq!(small.get_vertex(5), (0, 5, 1, 0, 0, 0));
}
