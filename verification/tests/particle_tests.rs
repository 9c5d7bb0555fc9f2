use meteo_animation::{first_valid, particle_step, gate, settle, settle_in_wind, Gate, Outcome, ParticleSimulator, ParticleState, Step, TrailManager};

const STATE_INACTIVE: f32 = 3.0;

fn simulator(max_particles: usize) -> ParticleSimulator<f32> {
    ParticleSimulator::new(max_particles, (-1000.0, -1000.0, 0.0, STATE_INACTIVE))
}

#[test]
fn particles_beyond_target_are_deactivated() {
    assert_eq!(gate(10, 10, ParticleState::Active), Gate::Deactivate);
    assert_eq!(gate(50, 10, ParticleState::Respawning), Gate::Deactivate);
    assert_eq!(gate(50, 10, ParticleState::Inactive), Gate::Idle);
}

#[test]
fn inactive_particles_below_target_spawn() {
    assert_eq!(gate(0, 1, ParticleState::Inactive), Gate::Spawn);
    assert_eq!(gate(9, 10, ParticleState::Inactive), Gate::Spawn);
}

#[test]
fn live_particles_below_target_simulate() {
    assert_eq!(gate(0, 1, ParticleState::Active), Gate::Simulate);
    assert_eq!(gate(3, 10, ParticleState::Other), Gate::Simulate);
}

#[test]
fn uniform_wind_outcomes() {
    assert_eq!(settle(ParticleState::Active, true, false), (Outcome::Move, ParticleState::Active));
    assert_eq!(settle(ParticleState::Active, false, false), (Outcome::Respawn, ParticleState::Active));
    assert_eq!(settle(ParticleState::Exiting, true, false), (Outcome::Move, ParticleState::Active));
    assert_eq!(settle(ParticleState::Respawning, true, false), (Outcome::Move, ParticleState::Respawning));
    assert_eq!(settle(ParticleState::Other, true, true), (Outcome::Respawn, ParticleState::Active));
}

#[test]
fn wind_texture_outcomes() {
    assert_eq!(settle_in_wind(true, true, false), (Outcome::Move, ParticleState::Active));
    assert_eq!(settle_in_wind(false, true, false), (Outcome::Respawn, ParticleState::Respawning));
    assert_eq!(settle_in_wind(true, false, false), (Outcome::Respawn, ParticleState::Respawning));
    assert_eq!(settle_in_wind(true, true, true), (Outcome::Respawn, ParticleState::Respawning));
}

#[test]
fn test_new_creates_correct_size() {
    let sim = simulator(100);
    assert_eq!(sim.get_max_particles(), 100);
    assert_eq!(sim.get_particles_len(), 400); // 100 * 4 floats
}

#[test]
fn test_new_creates_inactive_particles() {
    let sim = simulator(100);
    for i in 0..100 {
        assert_eq!(sim.get_state(i), STATE_INACTIVE, "Particle {} should be inactive", i);
    }
}

#[test]
fn test_get_x_y() {
    let mut sim = simulator(10);
    sim.set_position(0, 50.0, 75.0);

    assert_eq!(sim.get_x(0), 50.0);
    assert_eq!(sim.get_y(0), 75.0);
}

#[test]
fn test_set_position() {
    let mut sim = simulator(10);
    sim.set_position(5, 123.4, 567.8);

    let (x, y) = sim.get_position(5);
    assert!((x - 123.4).abs() < 0.01);
    assert!((y - 567.8).abs() < 0.01);
}

#[test]
fn test_set_state() {
    let mut sim = simulator(10);
    sim.set_state(3, 42.0);

    assert_eq!(sim.get_state(3), 42.0);
}

#[test]
fn new_particles_are_parked_off_screen() {
    let sim = simulator(3);
    assert_eq!(sim.get_particle(2), (-1000.0, -1000.0, 0.0, STATE_INACTIVE));
    assert_eq!(sim.particles().len(), 12);
    assert_eq!(sim.particles()[4], -1000.0);
}

#[test]
fn set_particle_leaves_the_others() {
    let mut sim = simulator(3);
    sim.set_particle(1, (1.0, 2.0, 3.0, 0.0));
    assert_eq!(sim.get_particle(1), (1.0, 2.0, 3.0, 0.0));
    assert_eq!(sim.get_age(1), 3.0);
    assert_eq!(sim.get_particle(0), (-1000.0, -1000.0, 0.0, STATE_INACTIVE));
    assert_eq!(sim.get_particle(2), (-1000.0, -1000.0, 0.0, STATE_INACTIVE));
    assert_eq!(&sim.particles()[4..8], &[1.0, 2.0, 3.0, 0.0]);
}

#[test]
fn set_position_keeps_age_and_state() {
    let mut sim = simulator(2);
    sim.set_particle(0, (0.0, 0.0, 7.0, 1.0));
    sim.set_position(0, 5.0, 6.0);
    assert_eq!(sim.get_particle(0), (5.0, 6.0, 7.0, 1.0));
}

#[test]
fn empty_simulator_holds_nothing() {
    let sim = simulator(0);
    assert_eq!(sim.get_max_particles(), 0);
    assert_eq!(sim.get_particles_len(), 0);
}

#[test]
fn first_valid_takes_the_first_accepted() {
    assert_eq!(first_valid(10, |a: u32| a >= 3), Some(3));
    assert_eq!(first_valid(10, |a: u32| a == 0), Some(0));
    assert_eq!(first_valid(10, |_a: u32| false), None);
    assert_eq!(first_valid(0, |_a: u32| true), None);
    assert_eq!(first_valid(3, |a: u32| a == 5), None);
}

#[test]
fn step_with_applies_each_decision() {
    let mut sim = simulator(4);
    sim.set_particle(1, (1.0, 1.0, 5.0, 0.0));
    sim.set_particle(2, (2.0, 2.0, 6.0, 0.0));
    sim.set_particle(3, (3.0, 3.0, 7.0, 0.0));
    sim.step_with(|i: usize, (x, y, age, code): (f32, f32, f32, f32)| match i {
        0 => Step::Keep,
        1 => Step::Park((-1000.0, -1000.0, age, STATE_INACTIVE)),
        2 => Step::Respawn((50.0, 60.0, 0.0, 2.0)),
        _ => Step::Move((x + 1.0, y, age + 1.0, code)),
    });
    assert_eq!(sim.get_particle(0), (-1000.0, -1000.0, 0.0, STATE_INACTIVE));
    assert_eq!(sim.get_particle(1), (-1000.0, -1000.0, 5.0, STATE_INACTIVE));
    assert_eq!(sim.get_particle(2), (50.0, 60.0, 0.0, 2.0));
    assert_eq!(sim.get_particle(3), (4.0, 3.0, 8.0, 0.0));
}

#[test]
fn step_with_trails_moves_heads_and_resets_respawns() {
    let mut sim = simulator(3);
    let mut trails = TrailManager::new(4, 3, 0.0f32);
    trails.reset_trail(0, 9.0, 9.0);
    trails.reset_trail(1, 1.0, 1.0);
    trails.reset_trail(3, 7.0, 7.0);
    sim.set_particle(1, (1.0, 1.0, 0.0, 0.0));
    sim.step_with_trails(&mut trails, |i: usize, (x, y, age, code): (f32, f32, f32, f32)| match i {
        0 => Step::Park((-1000.0, -1000.0, age, STATE_INACTIVE)),
        1 => Step::Move((x + 2.0, y, age + 1.0, code)),
        _ => Step::Respawn((30.0, 40.0, 0.0, 2.0)),
    });
    // parked: the trail stays
    assert_eq!(trails.get_position(0, 0), (9.0, 9.0));
    // moved: the new position is the head, the old one follows
    assert_eq!(sim.get_position(1), (3.0, 1.0));
    assert_eq!(trails.get_position(1, 0), (3.0, 1.0));
    assert_eq!(trails.get_position(1, 1), (1.0, 1.0));
    assert_eq!(trails.get_position(1, 2), (1.0, 1.0));
    // respawned: the whole trail restarts at the new position
    for k in 0..3 {
        assert_eq!(trails.get_position(2, k), (30.0, 40.0));
    }
    // a trail with no particle stays
    assert_eq!(trails.get_position(3, 0), (7.0, 7.0));
}

#[test]
fn step_with_trails_ignores_missing_trails() {
    let mut sim = simulator(3);
    let mut trails = TrailManager::new(1, 2, 0.0f32);
    sim.step_with_trails(&mut trails, |_i: usize, _p: (f32, f32, f32, f32)| Step::Move((1.0, 2.0, 3.0, 0.0)));
    assert_eq!(sim.get_particle(2), (1.0, 2.0, 3.0, 0.0));
    assert_eq!(trails.get_position(0, 0), (1.0, 2.0));
    assert_eq!(trails.get_position(0, 1), (0.0, 0.0));
}

#[test]
fn particle_step_follows_the_gate() {
    let rec = (1.0f32, 2.0, 9.0, 0.0);
    let spawn = || (5.0f32, 5.0, 0.0, 0.0);
    let advance = || (Outcome::Move, (1.5f32, 2.0, 10.0, 0.0));
    let respawn = || (Outcome::Respawn, (7.0f32, 7.0, 0.0, 0.0));
    let parked = (-1000.0, -1000.0, 9.0, STATE_INACTIVE);
    assert!(matches!(particle_step(5, 5, ParticleState::Inactive, rec, -1000.0, STATE_INACTIVE, spawn, advance), Step::Keep));
    assert!(matches!(particle_step(5, 5, ParticleState::Active, rec, -1000.0, STATE_INACTIVE, spawn, advance), Step::Park(p) if p == parked));
    assert!(matches!(particle_step(0, 5, ParticleState::Inactive, rec, -1000.0, STATE_INACTIVE, spawn, advance), Step::Respawn(p) if p == (5.0, 5.0, 0.0, 0.0)));
    assert!(matches!(particle_step(0, 5, ParticleState::Active, rec, -1000.0, STATE_INACTIVE, spawn, advance), Step::Move(p) if p == (1.5, 2.0, 10.0, 0.0)));
    assert!(matches!(particle_step(0, 5, ParticleState::Exiting, rec, -1000.0, STATE_INACTIVE, spawn, respawn), Step::Respawn(p) if p == (7.0, 7.0, 0.0, 0.0)));
}

#[test]
fn stepping_beyond_target_leaves_particles_inactive() {
    let mut sim = simulator(4);
    for i in 0..4 {
        sim.set_particle(i, (i as f32, 0.0, 3.0, 0.0));
    }
    sim.set_state(3, STATE_INACTIVE);
    sim.step_with(|i: usize, rec: (f32, f32, f32, f32)| {
        let state = if rec.3 == STATE_INACTIVE { ParticleState::Inactive } else { ParticleState::Active };
        particle_step(i as u32, 2, state, rec, -1000.0, STATE_INACTIVE, || (0.0, 0.0, 0.0, 0.0), || (Outcome::Move, rec))
    });
    assert_eq!(sim.get_particle(0), (0.0, 0.0, 3.0, 0.0));
    assert_eq!(sim.get_particle(1), (1.0, 0.0, 3.0, 0.0));
    assert_eq!(sim.get_particle(2), (-1000.0, -1000.0, 3.0, STATE_INACTIVE));
    assert_eq!(sim.get_particle(3), (3.0, 0.0, 3.0, STATE_INACTIVE));
}
