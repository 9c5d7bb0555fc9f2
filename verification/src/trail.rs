use vstd::prelude::*;
use vstd::arithmetic::mul::lemma_mul_inequality;

verus! {

/// Where in the flat buffer the x coordinate of segment `s` of particle `p`
/// stands, for trails of length `len`; the y coordinate follows it.
pub open spec fn slot(len: int, p: int, s: int) -> int {
    p * len * 2 + s * 2
}

/// Two segments of trails of length `len` share no buffer cell unless they
/// are the same segment of the same particle.
pub proof fn lemma_slot_unique(len: int, p: int, s: int, q: int, r: int)
    requires
        0 <= p,
        0 <= q,
        0 <= s < len,
        0 <= r < len,
        slot(len, p, s) == slot(len, q, r),
    ensures
        p == q,
        s == r,
{
    assert(p * len * 2 == (p * len) * 2);
    assert(q * len * 2 == (q * len) * 2);
    if p < q {
        lemma_mul_inequality(p + 1, q, len);
        assert((p + 1) * len == p * len + len) by (nonlinear_arith);
    } else if q < p {
        lemma_mul_inequality(q + 1, p, len);
        assert((q + 1) * len == q * len + len) by (nonlinear_arith);
    }
}

/// Segment `s` of particle `p` lies inside a buffer of `count * len * 2` cells.
pub proof fn lemma_slot_bound(len: int, count: int, p: int, s: int)
    requires
        0 <= p < count,
        0 <= s < len,
    ensures
        0 <= slot(len, p, s),
        slot(len, p, s) + 1 < count * len * 2,
{
    lemma_mul_inequality(p + 1, count, len);
    assert((p + 1) * len == p * len + len) by (nonlinear_arith);
    assert(0 <= p * len) by (nonlinear_arith)
        requires
            0 <= p,
            0 <= len,
    ;
    assert(p * len * 2 == (p * len) * 2);
    assert(count * len * 2 == (count * len) * 2);
}

/// After a trail is reset to one point and a new position is pushed, the
/// head is the new position and every older segment is the reset point;
/// the other trails are untouched.
pub proof fn law_push_after_reset<T>(trails: Seq<Seq<(T, T)>>, p: int, len: nat, start: (T, T), next: (T, T))
    requires
        0 <= p < trails.len(),
        len >= 1,
    ensures
        ({
            let reset = trails.update(p, Seq::new(len, |s: int| start));
            let pushed = reset.update(p, seq![next] + reset[p].take(len - 1));
            &&& pushed[p].len() == len
            &&& pushed[p][0] == next
            &&& forall|s: int| 1 <= s < len ==> #[trigger] pushed[p][s] == start
            &&& forall|q: int| 0 <= q < trails.len() && q != p ==> #[trigger] pushed[q] == trails[q]
        }),
{
    let reset = trails.update(p, Seq::new(len, |s: int| start));
    let pushed = reset.update(p, seq![next] + reset[p].take(len - 1));
    assert forall|s: int| 1 <= s < len implies #[trigger] pushed[p][s] == start by {
        assert(pushed[p][s] == reset[p].take(len - 1)[s - 1]);
    }
}

/// Segment `s` of particle `p` read from a flat buffer.
pub open spec fn pos_in<T>(buf: Seq<T>, len: int, p: int, s: int) -> (T, T) {
    (buf[slot(len, p, s)], buf[slot(len, p, s) + 1])
}

/// Writing one segment of one trail leaves every other segment as it was.
proof fn lemma_write_pair<T>(buf: Seq<T>, len: int, count: int, p: int, i: int, a: T, b: T)
    requires
        buf.len() == count * len * 2,
        0 <= p < count,
        0 <= i < len,
    ensures
        ({
            let nb = buf.update(slot(len, p, i), a).update(slot(len, p, i) + 1, b);
            &&& nb.len() == buf.len()
            &&& pos_in(nb, len, p, i) == (a, b)
            &&& forall|q: int, s: int|
                0 <= q < count && 0 <= s < len && !(q == p && s == i) ==> #[trigger] pos_in(nb, len, q, s)
                    == pos_in(buf, len, q, s)
        }),
{
    lemma_slot_bound(len, count, p, i);
    let nb = buf.update(slot(len, p, i), a).update(slot(len, p, i) + 1, b);
    assert forall|q: int, s: int|
        0 <= q < count && 0 <= s < len && !(q == p && s == i) implies #[trigger] pos_in(nb, len, q, s)
            == pos_in(buf, len, q, s) by {
        lemma_slot_bound(len, count, q, s);
        if slot(len, q, s) == slot(len, p, i) {
            lemma_slot_unique(len, q, s, p, i);
        }
    }
}

/// Position history of a fixed number of particles. Each particle has
/// `trail_length` segments; segment 0 is the newest position (the head) and
/// the last one the oldest (the tail). The positions are kept in one flat
/// buffer `[x, y, x, y, ...]`, particle after particle, ready for upload.
pub struct TrailManager<T> {
    trails: Vec<T>,
    trail_length: usize,
    max_particles: usize,
    zero: T,
}

impl<T: Copy> View for TrailManager<T> {
    type V = Seq<Seq<(T, T)>>;

    /// For each particle, its positions from head to tail.
    closed spec fn view(&self) -> Seq<Seq<(T, T)>> {
        Seq::new(
            self.max_particles as nat,
            |p: int| Seq::new(self.trail_length as nat, |s: int| self.position_at(p, s)),
        )
    }
}

impl<T: Copy> TrailManager<T> {
    /// Segment `s` of particle `p` as stored in the buffer.
    pub closed spec fn position_at(&self, p: int, s: int) -> (T, T) {
        pos_in(self.trails@, self.trail_length as int, p, s)
    }

    /// The buffer holds exactly two cells per segment, and the view holds
    /// `max_particles` trails of `trail_length` positions each.
    pub open spec fn wf(&self) -> bool {
        &&& self.spec_buffer().len() == self.spec_max_particles() * self.spec_trail_length() * 2
        &&& self.spec_max_particles() * self.spec_trail_length() * 2 <= usize::MAX
        &&& self@.len() == self.spec_max_particles()
        &&& forall|p: int| 0 <= p < self@.len() ==> #[trigger] self@[p].len() == self.spec_trail_length()
    }

    /// The buffer, as stored.
    pub closed spec fn spec_buffer(&self) -> Seq<T> {
        self.trails@
    }

    /// The value reported for positions that do not exist.
    pub closed spec fn spec_zero(&self) -> T {
        self.zero
    }

    pub closed spec fn spec_trail_length(&self) -> usize {
        self.trail_length
    }

    pub closed spec fn spec_max_particles(&self) -> usize {
        self.max_particles
    }

    /// Room for `max_particles` trails of `trail_length` positions, each
    /// position `(zero, zero)`.
    pub fn new(max_particles: usize, trail_length: usize, zero: T) -> (m: Self)
        requires
            max_particles * trail_length * 2 <= usize::MAX,
        ensures
            m.wf(),
            m.spec_max_particles() == max_particles,
            m.spec_trail_length() == trail_length,
            m.spec_zero() == zero,
            m@ == Seq::new(max_particles as nat, |p: int| Seq::new(trail_length as nat, |s: int| (zero, zero))),
    {
        assert(0 <= max_particles * trail_length) by (nonlinear_arith);
        let size = max_particles * trail_length * 2;
        let mut trails: Vec<T> = Vec::new();
        let mut i: usize = 0;
        while i < size
            invariant
                i <= size,
                trails@.len() == i,
                forall|j: int| 0 <= j < i ==> trails@[j] == zero,
            decreases size - i,
        {
            trails.push(zero);
            i = i + 1;
        }
        let m = TrailManager { trails, trail_length, max_particles, zero };
        assert forall|p: int, s: int| 0 <= p < max_particles && 0 <= s < trail_length
            implies #[trigger] m.position_at(p, s) == (zero, zero) by {
            lemma_slot_bound(trail_length as int, max_particles as int, p, s);
        }
        assert(m@ =~~= Seq::new(max_particles as nat, |p: int| Seq::new(trail_length as nat, |s: int| (zero, zero))));
        m
    }

    /// Number of positions per trail.
    pub fn trail_length(&self) -> (r: usize)
        ensures
            r == self.spec_trail_length(),
    {
        self.trail_length
    }

    /// Number of trails.
    pub fn max_particles(&self) -> (r: usize)
        ensures
            r == self.spec_max_particles(),
    {
        self.max_particles
    }

    /// Length of the flat buffer.
    pub fn get_trails_len(&self) -> (r: usize)
        ensures
            r == self.spec_buffer().len(),
    {
        self.trails.len()
    }

    /// The flat buffer `[x, y, x, y, ...]`.
    pub fn trails(&self) -> (r: &Vec<T>)
        ensures
            r@ == self.spec_buffer(),
    {
        &self.trails
    }

    /// Segment `segment` of particle `particle_id`, or `(zero, zero)` when
    /// either index is out of range.
    pub fn get_position(&self, particle_id: usize, segment: usize) -> (r: (T, T))
        requires
            self.wf(),
        ensures
            particle_id < self.spec_max_particles() && segment < self.spec_trail_length() ==> r
                == self@[particle_id as int][segment as int],
            !(particle_id < self.spec_max_particles() && segment < self.spec_trail_length()) ==> r
                == (self.spec_zero(), self.spec_zero()),
    {
        if particle_id >= self.max_particles || segment >= self.trail_length {
            return (self.zero, self.zero);
        }
        proof {
            lemma_slot_bound(self.trail_length as int, self.max_particles as int, particle_id as int, segment as int);
        }
        let base = particle_id * self.trail_length * 2;
        let idx = base + segment * 2;
        (self.trails[idx], self.trails[idx + 1])
    }

    /// Sets every position of trail `particle_id` to `(x, y)` (used when a
    /// particle spawns); an out-of-range id changes nothing.
    pub fn reset_trail(&mut self, particle_id: usize, x: T, y: T)
        requires
            old(self).wf(),
        ensures
            final(self).wf(),
            final(self).spec_max_particles() == old(self).spec_max_particles(),
            final(self).spec_trail_length() == old(self).spec_trail_length(),
            final(self).spec_zero() == old(self).spec_zero(),
            particle_id >= old(self).spec_max_particles() ==> final(self)@ == old(self)@,
            particle_id < old(self).spec_max_particles() ==> final(self)@ == old(self)@.update(
                particle_id as int,
                Seq::new(old(self).spec_trail_length() as nat, |s: int| (x, y)),
            ),
    {
        if particle_id >= self.max_particles {
            return;
        }
        let ghost len = self.trail_length as int;
        let ghost count = self.max_particles as int;
        let ghost p = particle_id as int;
        proof {
            assert(0 <= p * len) by (nonlinear_arith)
                requires
                    0 <= p,
                    0 <= len,
            ;
            assert(p * len <= count * len) by (nonlinear_arith)
                requires
                    p < count,
                    0 <= len,
            ;
        }
        let base = particle_id * self.trail_length * 2;
        let mut i: usize = 0;
        while i < self.trail_length
            invariant
                self.wf(),
                self.trail_length == old(self).trail_length,
                self.max_particles == old(self).max_particles,
                self.zero == old(self).zero,
                len == self.trail_length,
                count == self.max_particles,
                p == particle_id,
                p < count,
                base == slot(len, p, 0),
                i <= len,
                forall|q: int, s: int|
                    0 <= q < count && 0 <= s < len && q != p ==> #[trigger] self.position_at(q, s)
                        == old(self).position_at(q, s),
                forall|s: int| 0 <= s < i ==> #[trigger] self.position_at(p, s) == (x, y),
            decreases len - i,
        {
            proof {
                lemma_slot_bound(len, count, p, i as int);
            }
            let idx = base + i * 2;
            let ghost before = self.trails@;
            let ghost pre = *self;
            self.trails.set(idx, x);
            self.trails.set(idx + 1, y);
            proof {
                lemma_write_pair(before, len, count, p, i as int, x, y);
                assert(self.trails@ == before.update(slot(len, p, i as int), x).update(slot(len, p, i as int) + 1, y));
                assert forall|q: int, s: int| 0 <= q < count && 0 <= s < len && q != p
                    implies #[trigger] self.position_at(q, s) == old(self).position_at(q, s) by {
                    assert(pos_in(self.trails@, len, q, s) == pos_in(before, len, q, s));
                    assert(pre.position_at(q, s) == old(self).position_at(q, s));
                }
                assert forall|s: int| 0 <= s < i + 1 implies #[trigger] self.position_at(p, s) == (x, y) by {
                    if s < i {
                        assert(pos_in(self.trails@, len, p, s) == pos_in(before, len, p, s));
                        assert(pre.position_at(p, s) == (x, y));
                    }
                }
            }
            i = i + 1;
        }
        proof {
            let target = old(self)@.update(p, Seq::new(len as nat, |s: int| (x, y)));
            assert forall|q: int| 0 <= q < count implies #[trigger] self@[q] =~= target[q] by {
                assert forall|s: int| 0 <= s < len implies #[trigger] self@[q][s] == target[q][s] by {
                }
            }
            assert(self@ =~= target);
        }
    }

    /// Records a new head position for trail `particle_id`: every position
    /// moves one step toward the tail, the oldest one drops out, and `(x, y)`
    /// becomes segment 0. An out-of-range id changes nothing.
    pub fn push_position(&mut self, particle_id: usize, x: T, y: T)
        requires
            old(self).wf(),
            particle_id < old(self).spec_max_particles() ==> old(self).spec_trail_length() > 0,
        ensures
            final(self).wf(),
            final(self).spec_max_particles() == old(self).spec_max_particles(),
            final(self).spec_trail_length() == old(self).spec_trail_length(),
            final(self).spec_zero() == old(self).spec_zero(),
            particle_id >= old(self).spec_max_particles() ==> final(self)@ == old(self)@,
            particle_id < old(self).spec_max_particles() ==> final(self)@ == old(self)@.update(
                particle_id as int,
                seq![(x, y)] + old(self)@[particle_id as int].take(old(self).spec_trail_length() - 1),
            ),
    {
        if particle_id >= self.max_particles {
            return;
        }
        let ghost len = self.trail_length as int;
        let ghost count = self.max_particles as int;
        let ghost p = particle_id as int;
        proof {
            lemma_slot_bound(len, count, p, 0);
        }
        let base = particle_id * self.trail_length * 2;
        let mut i: usize = self.trail_length - 1;
        while i >= 1
            invariant
                self.wf(),
                self.trail_length == old(self).trail_length,
                self.max_particles == old(self).max_particles,
                self.zero == old(self).zero,
                len == self.trail_length,
                count == self.max_particles,
                p == particle_id,
                p < count,
                len > 0,
                base == slot(len, p, 0),
                i < len,
                forall|q: int, s: int|
                    0 <= q < count && 0 <= s < len && q != p ==> #[trigger] self.position_at(q, s)
                        == old(self).position_at(q, s),
                forall|s: int| 0 <= s <= i ==> #[trigger] self.position_at(p, s) == old(self).position_at(p, s),
                forall|s: int| i < s < len ==> #[trigger] self.position_at(p, s) == old(self).position_at(p, s - 1),
            decreases i,
        {
            proof {
                lemma_slot_bound(len, count, p, i as int);
                lemma_slot_bound(len, count, p, i - 1);
            }
            let src = base + (i - 1) * 2;
            let dst = base + i * 2;
            let a = self.trails[src];
            let b = self.trails[src + 1];
            let ghost before = self.trails@;
            let ghost pre = *self;
            self.trails.set(dst, a);
            self.trails.set(dst + 1, b);
            proof {
                lemma_write_pair(before, len, count, p, i as int, a, b);
                assert(self.trails@ == before.update(slot(len, p, i as int), a).update(slot(len, p, i as int) + 1, b));
                assert((a, b) == pos_in(before, len, p, i - 1));
                assert forall|q: int, s: int| 0 <= q < count && 0 <= s < len && q != p
                    implies #[trigger] self.position_at(q, s) == old(self).position_at(q, s) by {
                    assert(pos_in(self.trails@, len, q, s) == pos_in(before, len, q, s));
                    assert(pre.position_at(q, s) == old(self).position_at(q, s));
                }
                assert forall|s: int| 0 <= s <= i - 1 implies #[trigger] self.position_at(p, s) == old(self).position_at(p, s) by {
                    assert(pos_in(self.trails@, len, p, s) == pos_in(before, len, p, s));
                    assert(pre.position_at(p, s) == old(self).position_at(p, s));
                }
                assert forall|s: int| i - 1 < s < len implies #[trigger] self.position_at(p, s) == old(self).position_at(p, s - 1) by {
                    if s > i {
                        assert(pos_in(self.trails@, len, p, s) == pos_in(before, len, p, s));
                        assert(pre.position_at(p, s) == old(self).position_at(p, s - 1));
                    } else {
                        assert(pre.position_at(p, i - 1) == old(self).position_at(p, i - 1));
                    }
                }
            }
            i = i - 1;
        }
        let ghost before = self.trails@;
            let ghost pre = *self;
        self.trails.set(base, x);
        self.trails.set(base + 1, y);
        proof {
            lemma_write_pair(before, len, count, p, 0, x, y);
            assert(self.trails@ == before.update(slot(len, p, 0), x).update(slot(len, p, 0) + 1, y));
            let target = old(self)@.update(p, seq![(x, y)] + old(self)@[p].take(len - 1));
            assert forall|q: int| 0 <= q < count implies #[trigger] self@[q] =~= target[q] by {
                assert forall|s: int| 0 <= s < len implies #[trigger] self@[q][s] == target[q][s] by {
                    if q != p || s != 0 {
                        assert(pos_in(self.trails@, len, q, s) == pos_in(before, len, q, s));
                        assert(pre.position_at(q, s) == pos_in(before, len, q, s));
                        if q == p {
                            assert(pre.position_at(p, s) == old(self).position_at(p, s - 1));
                        } else {
                            assert(pre.position_at(q, s) == old(self).position_at(q, s));
                        }
                    }
                }
            }
            assert(self@ =~= target);
        }
    }
}

} // verus!
