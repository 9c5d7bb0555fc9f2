use vstd::prelude::*;
use crate::trail::TrailManager;

verus! {

/// Numbers per vertex: x, y, alpha, r, g, b.
pub const FLOATS_PER_VERTEX: usize = 6;

/// Vertices per trail segment: one quad as two triangles.
pub const VERTICES_PER_SEGMENT: usize = 6;

/// A vertex: x, y, alpha, r, g, b.
pub type Vertex<T> = (T, T, T, T, T, T);

/// Number of segments of a trail of `trail_length` positions.
pub open spec fn segments_per_trail(trail_length: int) -> int {
    if trail_length > 1 { trail_length - 1 } else { 0 }
}

/// The six vertices a segment contributes: the quad computed for it, or a
/// quad of no area (six vertices of `zero`s) when there is none.
pub open spec fn quad_vertices<T>(out: Option<[Vertex<T>; 6]>, zero: T) -> Seq<Vertex<T>> {
    match out {
        Some(q) => q@,
        None => Seq::new(6, |i: int| (zero, zero, zero, zero, zero, zero)),
    }
}

/// Where the vertices of segment `s` of trail `p` end in `emitted`: six
/// places after they start at `6 * (p * segs + s)`, or earlier where the
/// buffer ran out of room.
pub open spec fn segment_end<T>(emitted: Seq<Vertex<T>>, segs: int, p: int, s: int) -> int {
    let k = p * segs + s;
    if 6 * k + 6 <= emitted.len() { 6 * k + 6 } else { emitted.len() as int }
}

/// The vertices of segment `s` of trail `p` stand at positions
/// `6 * (p * segs + s)` onwards of `emitted`, as the quad function gives
/// them for that segment's two end positions; where the buffer ran out of
/// room, the first of them.
pub open spec fn segment_emitted<T, F: Fn(usize, usize, (T, T), (T, T)) -> Option<[Vertex<T>; 6]>>(
    emitted: Seq<Vertex<T>>,
    trails: Seq<Seq<(T, T)>>,
    quad: F,
    zero: T,
    segs: int,
    p: int,
    s: int,
) -> bool {
    let k = p * segs + s;
    let end = segment_end(emitted, segs, p, s);
    exists|out: Option<[Vertex<T>; 6]>|
        #[trigger] quad.ensures((s as usize, segs as usize, trails[p][s], trails[p][s + 1]), out)
            && emitted.subrange(6 * k, end) == quad_vertices(out, zero).take(end - 6 * k)
}

/// Vertex buffer for trail quads: room for six vertices per segment of
/// every trail, filled from the front by `emit_vertex` and reset before
/// each frame.
pub struct TrailVertexBuilder<T> {
    vertices: Vec<T>,
    vertex_count: usize,
    max_vertices: usize,
    zero: T,
}

impl<T: Copy> View for TrailVertexBuilder<T> {
    type V = Seq<Vertex<T>>;

    /// The vertices emitted since the last reset.
    closed spec fn view(&self) -> Seq<Vertex<T>> {
        Seq::new(self.vertex_count as nat, |i: int| self.vertex_at(i))
    }
}

impl<T: Copy> TrailVertexBuilder<T> {
    pub closed spec fn vertex_at(&self, i: int) -> Vertex<T> {
        let b = i * 6;
        (
            self.vertices@[b],
            self.vertices@[b + 1],
            self.vertices@[b + 2],
            self.vertices@[b + 3],
            self.vertices@[b + 4],
            self.vertices@[b + 5],
        )
    }

    /// The buffer holds six numbers per vertex of room, and no more vertices
    /// have been emitted than there is room for.
    pub open spec fn wf(&self) -> bool {
        &&& self.spec_buffer().len() == self.spec_max_vertices() * 6
        &&& self.spec_max_vertices() * 6 <= usize::MAX
        &&& self@.len() <= self.spec_max_vertices()
    }

    /// Number of vertices the buffer has room for.
    pub closed spec fn spec_max_vertices(&self) -> usize {
        self.max_vertices
    }

    /// The value that fills unused vertices.
    pub closed spec fn spec_zero(&self) -> T {
        self.zero
    }

    /// The whole buffer, emitted or not.
    pub closed spec fn spec_buffer(&self) -> Seq<T> {
        self.vertices@
    }

    /// Room for six vertices per segment of `max_particles` trails of
    /// `trail_length` positions; nothing emitted yet.
    pub fn new(max_particles: usize, trail_length: usize, zero: T) -> (b: Self)
        requires
            max_particles * segments_per_trail(trail_length as int) * 36 <= usize::MAX,
        ensures
            b.wf(),
            b@ == Seq::<Vertex<T>>::empty(),
            b.spec_max_vertices() == max_particles * segments_per_trail(trail_length as int) * 6,
            b.spec_zero() == zero,
            b.spec_buffer().len() == b.spec_max_vertices() * 6,
            forall|i: int| 0 <= i < b.spec_buffer().len() ==> #[trigger] b.spec_buffer()[i] == zero,
    {
        let segments = if trail_length > 1 {
            trail_length - 1
        } else {
            0
        };
        proof {
            assert(0 <= max_particles * segments) by (nonlinear_arith);
            assert(max_particles * segments * 6 * 6 == max_particles * segments * 36) by (nonlinear_arith);
        }
        let max_vertices = max_particles * segments * VERTICES_PER_SEGMENT;
        let size = max_vertices * FLOATS_PER_VERTEX;
        let mut vertices: Vec<T> = Vec::new();
        let mut i: usize = 0;
        while i < size
            invariant
                i <= size,
                vertices@.len() == i,
                forall|j: int| 0 <= j < i ==> #[trigger] vertices@[j] == zero,
            decreases size - i,
        {
            vertices.push(zero);
            i = i + 1;
        }
        let b = TrailVertexBuilder { vertices, vertex_count: 0, max_vertices, zero };
        assert(b@ =~= Seq::<Vertex<T>>::empty());
        b
    }

    /// Forgets the emitted vertices (the buffer keeps its bytes).
    pub fn reset(&mut self)
        requires
            old(self).wf(),
        ensures
            final(self).wf(),
            final(self)@ == Seq::<Vertex<T>>::empty(),
            final(self).spec_max_vertices() == old(self).spec_max_vertices(),
            final(self).spec_zero() == old(self).spec_zero(),
    {
        self.vertex_count = 0;
        assert(self@ =~= Seq::<Vertex<T>>::empty());
    }

    /// Appends a vertex; when the buffer is full nothing changes.
    pub fn emit_vertex(&mut self, x: T, y: T, alpha: T, r: T, g: T, b: T)
        requires
            old(self).wf(),
        ensures
            final(self).wf(),
            final(self).spec_max_vertices() == old(self).spec_max_vertices(),
            final(self).spec_zero() == old(self).spec_zero(),
            old(self)@.len() < old(self).spec_max_vertices() ==> final(self)@ == old(self)@.push((x, y, alpha, r, g, b)),
            old(self)@.len() >= old(self).spec_max_vertices() ==> final(self)@ == old(self)@,
    {
        if self.vertex_count >= self.max_vertices {
            return;
        }
        let base = self.vertex_count * FLOATS_PER_VERTEX;
        self.vertices.set(base, x);
        self.vertices.set(base + 1, y);
        self.vertices.set(base + 2, alpha);
        self.vertices.set(base + 3, r);
        self.vertices.set(base + 4, g);
        self.vertices.set(base + 5, b);
        self.vertex_count = self.vertex_count + 1;
        assert(self@ =~= old(self)@.push((x, y, alpha, r, g, b)));
    }

    /// Appends six vertices at the origin with every field `zero`: a quad
    /// of no area, which the GPU culls.
    pub fn emit_degenerate_quad(&mut self)
        requires
            old(self).wf(),
        ensures
            final(self).wf(),
            final(self).spec_max_vertices() == old(self).spec_max_vertices(),
            final(self).spec_zero() == old(self).spec_zero(),
            final(self)@ == ({
                let z = old(self).spec_zero();
                let room = old(self).spec_max_vertices() - old(self)@.len();
                let n = if room < 6 { room } else { 6 };
                old(self)@ + Seq::new(n as nat, |i: int| (z, z, z, z, z, z))
            }),
    {
        let z = self.zero;
        let mut k: usize = 0;
        while k < 6
            invariant
                self.wf(),
                k <= 6,
                self.max_vertices == old(self).max_vertices,
                self.zero == old(self).zero,
                z == self.zero,
                self@ == ({
                    let room = old(self).max_vertices - old(self)@.len();
                    let n = if room < k { room } else { k as int };
                    old(self)@ + Seq::new(n as nat, |i: int| (z, z, z, z, z, z))
                }),
            decreases 6 - k,
        {
            let ghost before = self@;
            self.emit_vertex(z, z, z, z, z, z);
            proof {
                let room = old(self).max_vertices - old(self)@.len();
                let n1 = if room < k + 1 { room } else { k + 1 };
                assert(self@ =~= old(self)@ + Seq::new(n1 as nat, |i: int| (z, z, z, z, z, z)));
            }
            k = k + 1;
        }
    }

    /// Vertex `index` if it has been emitted, else six `zero`s.
    pub fn get_vertex(&self, index: usize) -> (r: Vertex<T>)
        requires
            self.wf(),
        ensures
            index < self@.len() ==> r == self@[index as int],
            index >= self@.len() ==> r == (self.spec_zero(), self.spec_zero(), self.spec_zero(), self.spec_zero(), self.spec_zero(), self.spec_zero()),
    {
        if index >= self.vertex_count {
            return (self.zero, self.zero, self.zero, self.zero, self.zero, self.zero);
        }
        let base = index * FLOATS_PER_VERTEX;
        (
            self.vertices[base],
            self.vertices[base + 1],
            self.vertices[base + 2],
            self.vertices[base + 3],
            self.vertices[base + 4],
            self.vertices[base + 5],
        )
    }

    /// Number of vertices emitted since the last reset.
    pub fn get_vertex_count(&self) -> (r: usize)
        ensures
            r == self@.len(),
    {
        self.vertex_count
    }

    /// Numbers per vertex (6).
    pub fn get_floats_per_vertex(&self) -> (r: usize)
        ensures
            r == 6,
    {
        FLOATS_PER_VERTEX
    }

    /// The vertex buffer, six numbers per vertex.
    pub fn vertices(&self) -> (r: &Vec<T>)
        ensures
            r@ == self.spec_buffer(),
    {
        &self.vertices
    }

    /// Appends six vertices, as many as there is room for.
    pub fn emit_group(&mut self, group: [Vertex<T>; 6])
        requires
            old(self).wf(),
        ensures
            final(self).wf(),
            final(self).spec_max_vertices() == old(self).spec_max_vertices(),
            final(self).spec_zero() == old(self).spec_zero(),
            final(self)@ == ({
                let room = old(self).spec_max_vertices() - old(self)@.len();
                let n = if room < 6 { room } else { 6 };
                old(self)@ + group@.take(n)
            }),
    {
        let mut k: usize = 0;
        while k < 6
            invariant
                self.wf(),
                k <= 6,
                self.max_vertices == old(self).max_vertices,
                self.zero == old(self).zero,
                self@ == ({
                    let room = old(self).max_vertices - old(self)@.len();
                    let n = if room < k { room } else { k as int };
                    old(self)@ + group@.take(n)
                }),
            decreases 6 - k,
        {
            let v = group[k];
            self.emit_vertex(v.0, v.1, v.2, v.3, v.4, v.5);
            proof {
                let room = old(self).max_vertices - old(self)@.len();
                let n1 = if room < k + 1 { room } else { k + 1 };
                assert(self@ =~= old(self)@ + group@.take(n1));
            }
            k = k + 1;
        }
    }

    /// Refills the buffer with the trails of the first `particle_count`
    /// particles (at most as many as there are trails): for every segment,
    /// head to tail, the six vertices that `quad` computes from its segment
    /// index, the number of segments and the segment's two end positions, or
    /// a quad of no area where `quad` gives none. Vertices beyond the
    /// buffer's room are dropped one by one, so a segment cut short keeps the
    /// first of its vertices.
    pub fn build_with<F>(&mut self, trails: &TrailManager<T>, particle_count: usize, quad: F)
        where
            F: Fn(usize, usize, (T, T), (T, T)) -> Option<[Vertex<T>; 6]>,
        requires
            old(self).wf(),
            trails.wf(),
            forall|s: usize, n: usize, a: (T, T), b: (T, T)| #[trigger] quad.requires((s, n, a, b)),
        ensures
            final(self).wf(),
            final(self).spec_max_vertices() == old(self).spec_max_vertices(),
            final(self).spec_zero() == old(self).spec_zero(),
            ({
                let segs = segments_per_trail(trails.spec_trail_length() as int);
                let np = if particle_count < trails.spec_max_particles() { particle_count as int } else { trails.spec_max_particles() as int };
                let total = 6 * segs * np;
                &&& final(self)@.len() == if total < old(self).spec_max_vertices() { total } else { old(self).spec_max_vertices() as int }
                &&& forall|p: int, s: int|
                    0 <= p < np && 0 <= s < segs && 6 * (p * segs + s) < final(self)@.len() ==> #[trigger] segment_emitted(
                        final(self)@,
                        trails@,
                        quad,
                        final(self).spec_zero(),
                        segs,
                        p,
                        s,
                    )
            }),
    {
        self.reset();
        let trail_length = trails.trail_length();
        if trail_length < 2 {
            assert(segments_per_trail(trail_length as int) == 0);
            assert(6 * 0 * (particle_count as int) == 0) by (nonlinear_arith);
            assert(6 * 0 * (trails.spec_max_particles() as int) == 0) by (nonlinear_arith);
            return;
        }
        let segments = trail_length - 1;
        let np = if particle_count < trails.max_particles() {
            particle_count
        } else {
            trails.max_particles()
        };
        let ghost segs = segments as int;
        let ghost max = self.max_vertices as int;
        let mut p: usize = 0;
        while p < np
            invariant
                self.wf(),
                trails.wf(),
                self.max_vertices == old(self).max_vertices,
                self.zero == old(self).zero,
                max == self.max_vertices,
                segs == segments,
                segments == trails.spec_trail_length() - 1,
                np <= trails.spec_max_particles(),
                p <= np,
                forall|s: usize, n: usize, a: (T, T), b: (T, T)| #[trigger] quad.requires((s, n, a, b)),
                self@.len() == if 6 * (p * segs) < max { 6 * (p * segs) } else { max },
                forall|p2: int, s2: int|
                    0 <= p2 < p && 0 <= s2 < segs && 6 * (p2 * segs + s2) < self@.len() ==> #[trigger] segment_emitted(
                        self@,
                        trails@,
                        quad,
                        self.zero,
                        segs,
                        p2,
                        s2,
                    ),
            decreases np - p,
        {
            let mut s: usize = 0;
            while s < segments
                invariant
                    self.wf(),
                    trails.wf(),
                    self.max_vertices == old(self).max_vertices,
                    self.zero == old(self).zero,
                    max == self.max_vertices,
                    segs == segments,
                    segments == trails.spec_trail_length() - 1,
                    np <= trails.spec_max_particles(),
                    p < np,
                    s <= segs,
                    forall|s: usize, n: usize, a: (T, T), b: (T, T)| #[trigger] quad.requires((s, n, a, b)),
                    self@.len() == if 6 * (p * segs + s) < max { 6 * (p * segs + s) } else { max },
                    forall|p2: int, s2: int|
                        0 <= s2 < segs && (0 <= p2 < p || (p2 == p && s2 < s)) && 6 * (p2 * segs + s2) < self@.len()
                            ==> #[trigger] segment_emitted(self@, trails@, quad, self.zero, segs, p2, s2),
                decreases segs - s,
            {
                let a = trails.get_position(p, s);
                let b = trails.get_position(p, s + 1);
                let out = quad(s, segments, a, b);
                let z = self.zero;
                let group = match out {
                    Some(g) => g,
                    None => [(z, z, z, z, z, z); 6],
                };
                let ghost before = self@;
                self.emit_group(group);
                proof {
                    assert(group@ =~= quad_vertices(out, z));
                    let k = p * segs + s;
                    assert forall|p2: int, s2: int|
                        0 <= s2 < segs && (0 <= p2 < p || (p2 == p && s2 < s + 1)) && 6 * (p2 * segs + s2) < self@.len()
                            implies #[trigger] segment_emitted(self@, trails@, quad, self.zero, segs, p2, s2) by {
                        if p2 == p && s2 == s {
                            assert(6 * k < max);
                            assert(before.len() == 6 * k);
                            let end = segment_end(self@, segs, p2, s2);
                            assert(self@.subrange(6 * k, end) =~= quad_vertices(out, z).take(end - 6 * k));
                        } else {
                            let k2 = p2 * segs + s2;
                            crate::atlas::lemma_row_major_lt(segs, p2, s2, p as int, s as int);
                            assert(6 * k2 < before.len());
                            assert(segment_emitted(before, trails@, quad, self.zero, segs, p2, s2));
                            assert(segment_end(self@, segs, p2, s2) == segment_end(before, segs, p2, s2));
                            assert(self@.subrange(6 * k2, segment_end(self@, segs, p2, s2))
                                =~= before.subrange(6 * k2, segment_end(before, segs, p2, s2)));
                        }
                    }
                }
                s = s + 1;
            }
            proof {
                assert(p * segs + segs == (p + 1) * segs) by (nonlinear_arith);
            }
            p = p + 1;
        }
        proof {
            assert(6 * (np * segs) == 6 * segs * np) by (nonlinear_arith);
        }
    }
}

} // verus!
