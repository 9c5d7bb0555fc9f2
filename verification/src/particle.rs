use vstd::prelude::*;
use crate::trail::TrailManager;

verus! {

/// Lifecycle state of a particle. The simulation stores it as a number
/// (0 active, 1 exiting, 2 respawning, 3 inactive); any other number is
/// `Other`, which the rules below carry along unchanged.
#[derive(Clone, Copy, Debug, PartialEq, Eq, Structural)]
pub enum ParticleState {
    Active,
    Exiting,
    Respawning,
    Inactive,
    Other,
}

/// What happens to a particle at the start of a simulation step.
#[derive(Clone, Copy, Debug, PartialEq, Eq, Structural)]
pub enum Gate {
    /// Beyond the target count and already inactive: left as it is.
    Idle,
    /// Beyond the target count: made inactive and moved off screen.
    Deactivate,
    /// Within the target count but inactive: placed at a fresh position.
    Spawn,
    /// Within the target count and live: moved by the wind.
    Simulate,
}

/// What a moved particle becomes.
#[derive(Clone, Copy, Debug, PartialEq, Eq, Structural)]
pub enum Outcome {
    /// It left the bounds, grew too old, or stood where there is no wind:
    /// placed at a fresh position.
    Respawn,
    /// It keeps its new position.
    Move,
}

pub open spec fn gate_of(index: u32, target_count: u32, state: ParticleState) -> Gate {
    if !(index < target_count) {
        if state == ParticleState::Inactive { Gate::Idle } else { Gate::Deactivate }
    } else if state == ParticleState::Inactive {
        Gate::Spawn
    } else {
        Gate::Simulate
    }
}

/// Particle `index` is live exactly when it is below the target count; the
/// first step decision follows from that and the current state.
pub fn gate(index: u32, target_count: u32, state: ParticleState) -> (g: Gate)
    ensures
        g == gate_of(index, target_count, state),
{
    if !(index < target_count) {
        if state == ParticleState::Inactive {
            Gate::Idle
        } else {
            Gate::Deactivate
        }
    } else if state == ParticleState::Inactive {
        Gate::Spawn
    } else {
        Gate::Simulate
    }
}

/// Outcome and next state of a particle moved by a uniform wind: it
/// respawns (as active) when it left the bounds or grew too old; otherwise
/// an exiting particle becomes active again and any other keeps its state.
pub open spec fn settle_of(state: ParticleState, in_bounds: bool, too_old: bool) -> (Outcome, ParticleState) {
    if !in_bounds || too_old {
        (Outcome::Respawn, ParticleState::Active)
    } else if state == ParticleState::Exiting {
        (Outcome::Move, ParticleState::Active)
    } else {
        (Outcome::Move, state)
    }
}

pub fn settle(state: ParticleState, in_bounds: bool, too_old: bool) -> (r: (Outcome, ParticleState))
    ensures
        r == settle_of(state, in_bounds, too_old),
{
    if !in_bounds || too_old {
        (Outcome::Respawn, ParticleState::Active)
    } else if state == ParticleState::Exiting {
        (Outcome::Move, ParticleState::Active)
    } else {
        (Outcome::Move, state)
    }
}

/// Outcome and next state of a particle that samples a wind texture: it
/// respawns (as respawning) where the texture has no wind, when it left the
/// bounds, or when it grew too old; otherwise it moves and is active.
pub open spec fn settle_in_wind_of(wind_valid: bool, in_bounds: bool, too_old: bool) -> (Outcome, ParticleState) {
    if !wind_valid || !in_bounds || too_old {
        (Outcome::Respawn, ParticleState::Respawning)
    } else {
        (Outcome::Move, ParticleState::Active)
    }
}

pub fn settle_in_wind(wind_valid: bool, in_bounds: bool, too_old: bool) -> (r: (Outcome, ParticleState))
    ensures
        r == settle_in_wind_of(wind_valid, in_bounds, too_old),
{
    if !wind_valid || !in_bounds || too_old {
        (Outcome::Respawn, ParticleState::Respawning)
    } else {
        (Outcome::Move, ParticleState::Active)
    }
}

/// State of a particle after one step with a uniform wind.
pub open spec fn step_state(index: u32, target_count: u32, state: ParticleState, in_bounds: bool, too_old: bool) -> ParticleState {
    match gate_of(index, target_count, state) {
        Gate::Idle => ParticleState::Inactive,
        Gate::Deactivate => ParticleState::Inactive,
        Gate::Spawn => ParticleState::Active,
        Gate::Simulate => settle_of(state, in_bounds, too_old).1,
    }
}

/// State of a particle after one step on a wind texture.
pub open spec fn step_state_in_wind(
    index: u32,
    target_count: u32,
    state: ParticleState,
    wind_valid: bool,
    in_bounds: bool,
    too_old: bool,
) -> ParticleState {
    match gate_of(index, target_count, state) {
        Gate::Idle => ParticleState::Inactive,
        Gate::Deactivate => ParticleState::Inactive,
        Gate::Spawn => ParticleState::Respawning,
        Gate::Simulate => settle_in_wind_of(wind_valid, in_bounds, too_old).1,
    }
}

/// Below the target count, only an inactive particle is spawned; every
/// live one (active, exiting, respawning, or of another code) is moved by
/// the wind. At or beyond the target count, an inactive particle is left
/// alone and any other is deactivated.
pub proof fn law_gate_decision(index: u32, target_count: u32, state: ParticleState)
    ensures
        index < target_count && state == ParticleState::Inactive ==> gate_of(index, target_count, state) == Gate::Spawn,
        index < target_count && state != ParticleState::Inactive ==> gate_of(index, target_count, state) == Gate::Simulate,
        index >= target_count && state == ParticleState::Inactive ==> gate_of(index, target_count, state) == Gate::Idle,
        index >= target_count && state != ParticleState::Inactive ==> gate_of(index, target_count, state) == Gate::Deactivate,
{
}

/// In a uniform wind, a particle is respawned exactly when it left the
/// bounds or grew too old, and a respawned particle is always active,
/// whatever its state before. A particle that stays keeps its state,
/// except that an exiting one becomes active again.
pub proof fn law_settle(state: ParticleState, in_bounds: bool, too_old: bool)
    ensures
        (settle_of(state, in_bounds, too_old).0 == Outcome::Respawn) <==> (!in_bounds || too_old),
        settle_of(state, in_bounds, too_old).0 == Outcome::Respawn ==> settle_of(state, in_bounds, too_old).1
            == ParticleState::Active,
        in_bounds && !too_old && state == ParticleState::Exiting ==> settle_of(state, in_bounds, too_old).1
            == ParticleState::Active,
        in_bounds && !too_old && state != ParticleState::Exiting ==> settle_of(state, in_bounds, too_old).1 == state,
{
}

/// On a wind texture, a particle is respawned exactly when its wind is not
/// valid, it left the bounds or it grew too old; it is then marked
/// respawning, and otherwise it is active.
pub proof fn law_settle_in_wind(wind_valid: bool, in_bounds: bool, too_old: bool)
    ensures
        (settle_in_wind_of(wind_valid, in_bounds, too_old).0 == Outcome::Respawn) <==> (!wind_valid || !in_bounds
            || too_old),
        settle_in_wind_of(wind_valid, in_bounds, too_old).0 == Outcome::Respawn ==> settle_in_wind_of(
            wind_valid,
            in_bounds,
            too_old,
        ).1 == ParticleState::Respawning,
        settle_in_wind_of(wind_valid, in_bounds, too_old).0 == Outcome::Move ==> settle_in_wind_of(
            wind_valid,
            in_bounds,
            too_old,
        ).1 == ParticleState::Active,
{
}

/// After a step with a uniform wind, a particle is inactive exactly when
/// its index is at or above the target count.
pub proof fn law_active_iff_below_target(index: u32, target_count: u32, state: ParticleState, in_bounds: bool, too_old: bool)
    ensures
        (step_state(index, target_count, state, in_bounds, too_old) == ParticleState::Inactive) <==> index >= target_count,
{
}

/// After a step on a wind texture, a particle is inactive exactly when its
/// index is at or above the target count.
pub proof fn law_active_iff_below_target_in_wind(
    index: u32,
    target_count: u32,
    state: ParticleState,
    wind_valid: bool,
    in_bounds: bool,
    too_old: bool,
)
    ensures
        (step_state_in_wind(index, target_count, state, wind_valid, in_bounds, too_old) == ParticleState::Inactive)
            <==> index >= target_count,
{
}

/// A live particle that stays inside the bounds and young enough, on valid
/// wind, is never respawned; one that leaves the bounds always is.
pub proof fn law_respawn_exactly_when_lost(wind_valid: bool, in_bounds: bool, too_old: bool)
    ensures
        (settle_in_wind_of(wind_valid, in_bounds, too_old).0 == Outcome::Respawn) <==> (!wind_valid || !in_bounds || too_old),
        (settle_of(ParticleState::Active, in_bounds, too_old).0 == Outcome::Respawn) <==> (!in_bounds || too_old),
{
}

/// The first of `attempts` candidates that the test accepts: `Some(a)` when
/// candidate `a` passed and every earlier one failed, `None` when all failed.
/// Used to respawn a particle where there is wind.
pub fn first_valid<F: Fn(u32) -> bool>(attempts: u32, valid: F) -> (r: Option<u32>)
    requires
        forall|a: u32| a < attempts ==> call_requires(valid, (a,)),
    ensures
        match r {
            Some(a) => {
                &&& a < attempts
                &&& call_ensures(valid, (a,), true)
                &&& forall|b: u32| b < a ==> call_ensures(valid, (b,), false)
            },
            None => forall|b: u32| b < attempts ==> call_ensures(valid, (b,), false),
        },
{
    let mut a: u32 = 0;
    while a < attempts
        invariant
            a <= attempts,
            forall|c: u32| c < attempts ==> call_requires(valid, (c,)),
            forall|b: u32| b < a ==> call_ensures(valid, (b,), false),
        decreases attempts - a,
    {
        let ok = valid(a);
        if ok {
            return Some(a);
        }
        a = a + 1;
    }
    None
}

/// Whether step `r` is of the kind that gate decision `g` calls for: kept
/// when idle; parked off screen at `(off_screen, off_screen)` with state
/// code `inactive` and its age kept when deactivated; respawned when
/// spawned; respawned or moved when simulated.
pub open spec fn step_fits_gate<T>(g: Gate, record: Particle<T>, off_screen: T, inactive: T, r: Step<T>) -> bool {
    match g {
        Gate::Idle => r is Keep,
        Gate::Deactivate => r == Step::Park((off_screen, off_screen, record.2, inactive)),
        Gate::Spawn => r is Respawn,
        Gate::Simulate => r is Respawn || r is Move,
    }
}

/// The step of particle `index` with state `state` and numbers `record`.
/// Idle: kept. Deactivate: parked. Spawn: respawned at the result of
/// `spawn`. Simulate: respawned or moved to the result of `advance`, as
/// the outcome returned with it says. Each closure runs only in its own
/// case.
pub fn particle_step<T: Copy, S: Fn() -> Particle<T>, M: Fn() -> (Outcome, Particle<T>)>(
    index: u32,
    target_count: u32,
    state: ParticleState,
    record: Particle<T>,
    off_screen: T,
    inactive: T,
    spawn: S,
    advance: M,
) -> (r: Step<T>)
    requires
        spawn.requires(()),
        advance.requires(()),
    ensures
        step_fits_gate(gate_of(index, target_count, state), record, off_screen, inactive, r),
        gate_of(index, target_count, state) == Gate::Spawn ==> exists|p: Particle<T>| #[trigger] spawn.ensures((), p) && r == Step::Respawn(p),
        gate_of(index, target_count, state) == Gate::Simulate ==> exists|o: Outcome, p: Particle<T>| #[trigger] advance.ensures((), (o, p)) && r == (
            match o {
                Outcome::Respawn => Step::Respawn(p),
                Outcome::Move => Step::Move(p),
            }
        ),
{
    match gate(index, target_count, state) {
        Gate::Idle => Step::Keep,
        Gate::Deactivate => Step::Park((off_screen, off_screen, record.2, inactive)),
        Gate::Spawn => {
            let p = spawn();
            Step::Respawn(p)
        },
        Gate::Simulate => {
            let (o, p) = advance();
            proof {
                assert(advance.ensures((), (o, p)));
            }
            match o {
                Outcome::Respawn => Step::Respawn(p),
                Outcome::Move => Step::Move(p),
            }
        },
    }
}

/// A step that fits its gate leaves a particle at or beyond the target
/// count inactive: kept only when it was inactive already, otherwise parked
/// with state code `inactive`; a particle below the target count is always
/// respawned or moved.
pub proof fn law_step_respects_target<T>(
    index: u32,
    target_count: u32,
    state: ParticleState,
    record: Particle<T>,
    off_screen: T,
    inactive: T,
    r: Step<T>,
)
    requires
        step_fits_gate(gate_of(index, target_count, state), record, off_screen, inactive, r),
    ensures
        index >= target_count ==> (r is Keep && state == ParticleState::Inactive) || r == Step::Park(
            (off_screen, off_screen, record.2, inactive),
        ),
        index < target_count ==> r is Respawn || r is Move,
{
}

/// Numbers stored per particle: x, y, age, state code.
pub const FLOATS_PER_PARTICLE: usize = 4;

/// A particle record: x, y, age, state code.
pub type Particle<T> = (T, T, T, T);

/// What one simulation step does to a particle.
pub enum Step<T> {
    /// Nothing changes.
    Keep,
    /// The record is replaced; the trail stays (a particle put away).
    Park(Particle<T>),
    /// The record is replaced and the trail restarts at the new position.
    Respawn(Particle<T>),
    /// The record is replaced and the new position becomes the head of the
    /// trail, the older positions moving one place toward the tail.
    Move(Particle<T>),
}

/// Whether step `s` turned record `before` into `after` and, where the
/// particle has a trail, trail `trail_before` of `len` positions into
/// `trail_after`.
pub open spec fn applied<T>(
    s: Step<T>,
    before: Particle<T>,
    after: Particle<T>,
    trail_before: Seq<(T, T)>,
    trail_after: Seq<(T, T)>,
    has_trail: bool,
    len: nat,
) -> bool {
    match s {
        Step::Keep => after == before && (has_trail ==> trail_after == trail_before),
        Step::Park(p) => after == p && (has_trail ==> trail_after == trail_before),
        Step::Respawn(p) => after == p && (has_trail ==> trail_after == Seq::new(len, |k: int| (p.0, p.1))),
        Step::Move(p) => after == p && (has_trail ==> trail_after == seq![(p.0, p.1)] + trail_before.take(len - 1)),
    }
}

/// Particle `i` went from `before` to `after` by a step that `f` may return
/// for it; its trail went likewise from `trail_before` to `trail_after` when
/// `i` is below `trail_count`, the number of trails.
pub open spec fn step_taken<T, F: Fn(usize, Particle<T>) -> Step<T>>(
    f: F,
    i: int,
    before: Particle<T>,
    after: Particle<T>,
    trail_before: Seq<(T, T)>,
    trail_after: Seq<(T, T)>,
    trail_count: int,
    len: nat,
) -> bool {
    exists|s: Step<T>| #[trigger] call_ensures(f, (i as usize, before), s) && applied(s, before, after, trail_before, trail_after, i < trail_count, len)
}

/// After a step, the head of a moved or respawned particle's trail is the
/// particle's new position, and a respawn fills the whole trail with it; a
/// kept or parked particle's trail is unchanged.
pub proof fn law_trail_follows_particle<T>(
    s: Step<T>,
    before: Particle<T>,
    after: Particle<T>,
    trail_before: Seq<(T, T)>,
    trail_after: Seq<(T, T)>,
    len: nat,
)
    requires
        len >= 1,
        trail_before.len() == len,
        applied(s, before, after, trail_before, trail_after, true, len),
    ensures
        trail_after.len() == len,
        (s is Move || s is Respawn) ==> trail_after[0] == (after.0, after.1),
        s is Respawn ==> forall|k: int| 0 <= k < len ==> trail_after[k] == (after.0, after.1),
        s is Move ==> forall|k: int| 1 <= k < len ==> trail_after[k] == trail_before[k - 1],
        (s is Keep || s is Park) ==> trail_after == trail_before,
{
}

/// Storage of a fixed number of particles, four numbers each (x, y, age,
/// state code), in one flat buffer ready for upload.
pub struct ParticleSimulator<T> {
    particles: Vec<T>,
    max_particles: usize,
}

impl<T: Copy> View for ParticleSimulator<T> {
    type V = Seq<Particle<T>>;

    /// The particle records, by index.
    closed spec fn view(&self) -> Seq<Particle<T>> {
        Seq::new(self.max_particles as nat, |i: int| self.record(i))
    }
}

impl<T: Copy> ParticleSimulator<T> {
    closed spec fn record(&self, i: int) -> Particle<T> {
        (self.particles@[4 * i], self.particles@[4 * i + 1], self.particles@[4 * i + 2], self.particles@[4 * i + 3])
    }

    /// The flat buffer holds exactly four numbers per particle.
    pub open spec fn wf(&self) -> bool {
        &&& self.spec_buffer().len() == 4 * self@.len()
        &&& 4 * self@.len() <= usize::MAX
    }

    /// The flat buffer.
    pub closed spec fn spec_buffer(&self) -> Seq<T> {
        self.particles@
    }

    /// `max_particles` particles, each holding the record `init`.
    pub fn new(max_particles: usize, init: Particle<T>) -> (s: Self)
        requires
            4 * max_particles <= usize::MAX,
        ensures
            s.wf(),
            s@ == Seq::new(max_particles as nat, |i: int| init),
    {
        let mut particles: Vec<T> = Vec::new();
        let mut i: usize = 0;
        while i < max_particles
            invariant
                i <= max_particles,
                4 * max_particles <= usize::MAX,
                particles@.len() == 4 * i,
                forall|j: int| 0 <= j < i ==> (#[trigger] particles@[4 * j], particles@[4 * j + 1], particles@[4 * j + 2], particles@[4 * j + 3]) == init,
            decreases max_particles - i,
        {
            particles.push(init.0);
            particles.push(init.1);
            particles.push(init.2);
            particles.push(init.3);
            i = i + 1;
        }
        let s = ParticleSimulator { particles, max_particles };
        assert(s@ =~= Seq::new(max_particles as nat, |i: int| init));
        s
    }

    /// Length of the flat buffer (four numbers per particle).
    pub fn get_particles_len(&self) -> (r: usize)
        ensures
            r == self.spec_buffer().len(),
            self.wf() ==> r == 4 * self@.len(),
    {
        self.particles.len()
    }

    /// Number of particles.
    pub fn get_max_particles(&self) -> (r: usize)
        requires
            self.wf(),
        ensures
            r == self@.len(),
    {
        self.max_particles
    }

    /// The flat buffer `[x, y, age, state, ...]`.
    pub fn particles(&self) -> (r: &Vec<T>)
        ensures
            r@ == self.spec_buffer(),
    {
        &self.particles
    }

    /// The record of particle `idx`.
    pub fn get_particle(&self, idx: usize) -> (r: Particle<T>)
        requires
            self.wf(),
            idx < self@.len(),
        ensures
            r == self@[idx as int],
    {
        let base = idx * FLOATS_PER_PARTICLE;
        (self.particles[base], self.particles[base + 1], self.particles[base + 2], self.particles[base + 3])
    }

    /// Replaces the record of particle `idx`; the others stay.
    pub fn set_particle(&mut self, idx: usize, p: Particle<T>)
        requires
            old(self).wf(),
            idx < old(self)@.len(),
        ensures
            final(self).wf(),
            final(self)@ == old(self)@.update(idx as int, p),
    {
        let base = idx * FLOATS_PER_PARTICLE;
        self.particles.set(base, p.0);
        self.particles.set(base + 1, p.1);
        self.particles.set(base + 2, p.2);
        self.particles.set(base + 3, p.3);
        assert(self@ =~= old(self)@.update(idx as int, p));
    }

    pub fn get_x(&self, idx: usize) -> (r: T)
        requires
            self.wf(),
            idx < self@.len(),
        ensures
            r == self@[idx as int].0,
    {
        self.particles[idx * FLOATS_PER_PARTICLE]
    }

    pub fn get_y(&self, idx: usize) -> (r: T)
        requires
            self.wf(),
            idx < self@.len(),
        ensures
            r == self@[idx as int].1,
    {
        self.particles[idx * FLOATS_PER_PARTICLE + 1]
    }

    pub fn get_age(&self, idx: usize) -> (r: T)
        requires
            self.wf(),
            idx < self@.len(),
        ensures
            r == self@[idx as int].2,
    {
        self.particles[idx * FLOATS_PER_PARTICLE + 2]
    }

    pub fn get_state(&self, idx: usize) -> (r: T)
        requires
            self.wf(),
            idx < self@.len(),
        ensures
            r == self@[idx as int].3,
    {
        self.particles[idx * FLOATS_PER_PARTICLE + 3]
    }

    pub fn get_position(&self, idx: usize) -> (r: (T, T))
        requires
            self.wf(),
            idx < self@.len(),
        ensures
            r == (self@[idx as int].0, self@[idx as int].1),
    {
        let base = idx * FLOATS_PER_PARTICLE;
        (self.particles[base], self.particles[base + 1])
    }

    /// Moves particle `idx`; its age, its state and the other particles stay.
    pub fn set_position(&mut self, idx: usize, x: T, y: T)
        requires
            old(self).wf(),
            idx < old(self)@.len(),
        ensures
            final(self).wf(),
            final(self)@ == old(self)@.update(idx as int, (x, y, old(self)@[idx as int].2, old(self)@[idx as int].3)),
    {
        let base = idx * FLOATS_PER_PARTICLE;
        self.particles.set(base, x);
        self.particles.set(base + 1, y);
        assert(self@ =~= old(self)@.update(idx as int, (x, y, old(self)@[idx as int].2, old(self)@[idx as int].3)));
    }

    /// Sets the state code of particle `idx`; everything else stays.
    pub fn set_state(&mut self, idx: usize, state: T)
        requires
            old(self).wf(),
            idx < old(self)@.len(),
        ensures
            final(self).wf(),
            final(self)@ == old(self)@.update(idx as int, (old(self)@[idx as int].0, old(self)@[idx as int].1, old(self)@[idx as int].2, state)),
    {
        let base = idx * FLOATS_PER_PARTICLE;
        self.particles.set(base + 3, state);
        assert(self@ =~= old(self)@.update(idx as int, (old(self)@[idx as int].0, old(self)@[idx as int].1, old(self)@[idx as int].2, state)));
    }

    /// One simulation step without trails: `step` decides, for each particle
    /// in turn, what becomes of it, and the record is updated accordingly.
    pub fn step_with<F: Fn(usize, Particle<T>) -> Step<T>>(&mut self, step: F)
        requires
            old(self).wf(),
            forall|i: usize, p: Particle<T>| call_requires(step, (i, p)),
        ensures
            final(self).wf(),
            final(self)@.len() == old(self)@.len(),
            forall|i: int| 0 <= i < old(self)@.len() ==> #[trigger] step_taken(
                step,
                i,
                old(self)@[i],
                final(self)@[i],
                Seq::empty(),
                Seq::empty(),
                0,
                0,
            ),
    {
        let n = self.max_particles;
        let mut i: usize = 0;
        while i < n
            invariant
                self.wf(),
                n == old(self)@.len(),
                self@.len() == n,
                i <= n,
                forall|i: usize, p: Particle<T>| call_requires(step, (i, p)),
                forall|j: int| 0 <= j < i ==> #[trigger] step_taken(
                    step,
                    j,
                    old(self)@[j],
                    self@[j],
                    Seq::empty(),
                    Seq::empty(),
                    0,
                    0,
                ),
                forall|j: int| i <= j < n ==> self@[j] == old(self)@[j],
            decreases n - i,
        {
            let rec = self.get_particle(i);
            let s = step(i, rec);
            let ghost sg = s;
            match s {
                Step::Keep => {},
                Step::Park(p) => self.set_particle(i, p),
                Step::Respawn(p) => self.set_particle(i, p),
                Step::Move(p) => self.set_particle(i, p),
            }
            proof {
                assert(applied(sg, old(self)@[i as int], self@[i as int], Seq::empty(), Seq::empty(), false, 0));
                assert(step_taken(step, i as int, old(self)@[i as int], self@[i as int], Seq::empty(), Seq::empty(), 0, 0));
            }
            i = i + 1;
        }
    }

    /// One simulation step with trails: `step` decides, for each particle in
    /// turn, what becomes of it; the record is updated, and the particle's
    /// trail (where it has one) follows: a respawn restarts it at the new
    /// position, a move pushes the new position at its head. Trails of
    /// particles beyond this simulator stay.
    pub fn step_with_trails<F: Fn(usize, Particle<T>) -> Step<T>>(&mut self, trails: &mut TrailManager<T>, step: F)
        requires
            old(self).wf(),
            old(trails).wf(),
            forall|i: usize, p: Particle<T>| call_requires(step, (i, p)),
            forall|i: usize, p: Particle<T>, s: Step<T>|
                i < old(trails).spec_max_particles() && call_ensures(step, (i, p), s) && s is Move
                    ==> old(trails).spec_trail_length() > 0,
        ensures
            final(self).wf(),
            final(trails).wf(),
            final(self)@.len() == old(self)@.len(),
            final(trails).spec_max_particles() == old(trails).spec_max_particles(),
            final(trails).spec_trail_length() == old(trails).spec_trail_length(),
            final(trails).spec_zero() == old(trails).spec_zero(),
            forall|i: int| 0 <= i < old(self)@.len() ==> #[trigger] step_taken(
                step,
                i,
                old(self)@[i],
                final(self)@[i],
                old(trails)@[i],
                final(trails)@[i],
                old(trails)@.len() as int,
                old(trails).spec_trail_length() as nat,
            ),
            forall|i: int| old(self)@.len() <= i < old(trails)@.len() ==> final(trails)@[i] == old(trails)@[i],
    {
        let n = self.max_particles;
        let ghost len = trails.spec_trail_length() as nat;
        let mut i: usize = 0;
        while i < n
            invariant
                self.wf(),
                trails.wf(),
                old(trails).wf(),
                n == old(self)@.len(),
                self@.len() == n,
                i <= n,
                len == old(trails).spec_trail_length(),
                trails.spec_max_particles() == old(trails).spec_max_particles(),
                trails.spec_trail_length() == old(trails).spec_trail_length(),
                trails.spec_zero() == old(trails).spec_zero(),
                forall|i: usize, p: Particle<T>| call_requires(step, (i, p)),
                forall|i: usize, p: Particle<T>, s: Step<T>|
                    i < old(trails).spec_max_particles() && call_ensures(step, (i, p), s) && s is Move
                        ==> old(trails).spec_trail_length() > 0,
                forall|j: int| 0 <= j < i ==> #[trigger] step_taken(
                    step,
                    j,
                    old(self)@[j],
                    self@[j],
                    old(trails)@[j],
                    trails@[j],
                    old(trails)@.len() as int,
                    len,
                ),
                forall|j: int| i <= j < n ==> self@[j] == old(self)@[j],
                forall|j: int| i <= j < trails@.len() ==> trails@[j] == old(trails)@[j],
            decreases n - i,
        {
            let rec = self.get_particle(i);
            let s = step(i, rec);
            let ghost sg = s;
            let ghost tb = trails@;
            match s {
                Step::Keep => {},
                Step::Park(p) => self.set_particle(i, p),
                Step::Respawn(p) => {
                    self.set_particle(i, p);
                    trails.reset_trail(i, p.0, p.1);
                    assert(i < old(trails)@.len() ==> trails@[i as int] == Seq::new(len, |k: int| (p.0, p.1)));
                },
                Step::Move(p) => {
                    self.set_particle(i, p);
                    trails.push_position(i, p.0, p.1);
                    assert(i < old(trails)@.len() ==> trails@[i as int] == seq![(p.0, p.1)] + tb[i as int].take(len - 1));
                },
            }
            proof {
                assert(applied(sg, old(self)@[i as int], self@[i as int], old(trails)@[i as int], trails@[i as int], i < old(trails)@.len(), len));
                assert(step_taken(step, i as int, old(self)@[i as int], self@[i as int], old(trails)@[i as int], trails@[i as int], old(trails)@.len() as int, len));
                assert forall|j: int| 0 <= j < i implies trails@[j] == tb[j] by {}
            }
            i = i + 1;
        }
    }
}

} // verus!
