use verlet_physics::constraint::{collision_correction, constrain_border, link_correction};
use verlet_physics::geometry::{ceil_root, floor_root, isqrt_ceil, isqrt_floor, scale_ceil, scale_trunc};
use verlet_physics::{Link, LinkError, Object, PhysicsEngine, Vec2};

const S: i64 = 1024;
const FRAME: u64 = 16_667;

fn world() -> PhysicsEngine {
    PhysicsEngine::new(600 * S, 400 * S, 400 * S, 20 * S, Vec2::new(0, 1000 * S))
}

fn dist(a: Vec2, b: Vec2) -> f64 {
    let dx = (a.x - b.x) as f64;
    let dy = (a.y - b.y) as f64;
    (dx * dx + dy * dy).sqrt()
}

fn pos(e: &PhysicsEngine, h: usize) -> Vec2 {
    e.iterate_particles()[h].0
}

#[test]
fn spawn_hands_out_handles_in_order() {
    let mut e = world();
    let a = e.spawn_object(Object::new(600 * S, 400 * S, 4 * S, 0xffffffff, false));
    let b = e.spawn_object(Object::new(610 * S, 400 * S, 8 * S, 0xff0000ff, true));
    assert_eq!(a, 0);
    assert_eq!(b, 1);
    let ps = e.iterate_particles();
    assert_eq!(ps.len(), 2);
    assert_eq!(ps[0], (Vec2::new(600 * S, 400 * S), 4 * S, 0xffffffff));
    assert_eq!(ps[1], (Vec2::new(610 * S, 400 * S), 8 * S, 0xff0000ff));
    assert_eq!(e.particle_count(), 2);
}

#[test]
fn add_link_reports_each_error() {
    let mut e = world();
    e.spawn_object(Object::new(600 * S, 400 * S, 4 * S, 0, false));
    e.spawn_object(Object::new(650 * S, 400 * S, 4 * S, 0, false));
    assert_eq!(e.add_link(0, 2, 32 * S), Err(LinkError::UnknownHandle));
    assert_eq!(e.add_link(5, 1, 32 * S), Err(LinkError::UnknownHandle));
    assert_eq!(e.add_link(1, 1, 32 * S), Err(LinkError::SameParticle));
    assert_eq!(e.add_link(0, 1, 0), Err(LinkError::BadLength));
    assert_eq!(e.add_link(0, 1, -3), Err(LinkError::BadLength));
    assert_eq!(e.add_link(0, 1, 32 * S), Ok(()));
}

#[test]
fn link_last_two_needs_two_particles() {
    let mut e = world();
    assert_eq!(e.link_last_two(32 * S), Err(LinkError::UnknownHandle));
    e.spawn_object(Object::new(600 * S, 400 * S, 4 * S, 0, false));
    assert_eq!(e.link_last_two(32 * S), Err(LinkError::UnknownHandle));
    e.spawn_object(Object::new(650 * S, 400 * S, 4 * S, 0, false));
    assert_eq!(e.link_last_two(32 * S), Ok(()));
    assert_eq!(Link(0, 1, 32 * S), Link(0, 1, 32 * S));
}

#[test]
fn touching_particles_are_not_corrected() {
    let mut e = world();
    e.spawn_object(Object::new(600 * S, 400 * S, 5 * S, 0, false));
    e.spawn_object(Object::new(610 * S, 400 * S, 5 * S, 0, false));
    e.update(FRAME);
    let a = pos(&e, 0);
    let b = pos(&e, 1);
    assert_eq!(b.x - a.x, 10 * S);
    assert_eq!(b.y, a.y);
    assert!(a.y > 400 * S);
}

#[test]
fn overlapping_particles_are_separated() {
    let mut e = world();
    e.spawn_object(Object::new(600 * S, 400 * S, 5 * S, 0, false));
    e.spawn_object(Object::new(608 * S, 400 * S, 5 * S, 0, false));
    e.update(FRAME);
    assert!(dist(pos(&e, 0), pos(&e, 1)) >= 9.9 * S as f64);
}

#[test]
fn pinned_particle_never_moves() {
    let mut e = world();
    let anchor = Vec2::new(600 * S, 300 * S);
    e.spawn_object(Object::new(anchor.x, anchor.y, 8 * S, 0, true));
    e.spawn_object(Object::new(604 * S, 300 * S, 8 * S, 0, false));
    e.spawn_object(Object::new(640 * S, 300 * S, 8 * S, 0, false));
    assert_eq!(e.add_link(0, 2, 32 * S), Ok(()));
    for _ in 0..60 {
        e.update(FRAME);
        assert_eq!(pos(&e, 0), anchor);
    }
    assert_ne!(pos(&e, 1), Vec2::new(604 * S, 300 * S));
}

#[test]
fn grid_lists_every_particle_once_in_its_cell() {
    let mut e = world();
    let mut n: usize = 0;
    for x in 0..10i64 {
        for y in 0..10i64 {
            e.spawn_object(Object::new((580 + 16 * x) * S, (380 + 16 * y) * S, 4 * S, 0, false));
            n += 1;
        }
    }
    for _ in 0..30 {
        e.update(FRAME);
    }
    let ps = e.iterate_particles();
    let mut seen = vec![0usize; n];
    for c in 0..e.cell_count() {
        for &h in e.cell(c).iter() {
            seen[h] += 1;
            assert_eq!(e.cell_index(ps[h].0), c);
        }
    }
    assert!(seen.iter().all(|&k| k == 1));
}

#[test]
fn boundary_holds_a_lone_particle_inside() {
    let mut e = world();
    e.spawn_object(Object::new(1100 * S, 400 * S, 10 * S, 0, false));
    e.update(FRAME);
    let centre = Vec2::new(600 * S, 400 * S);
    assert!(dist(pos(&e, 0), centre) <= (390 * S) as f64 + 1.0);
}

#[test]
fn link_pulls_toward_rest_length() {
    let mut e = world();
    e.spawn_object(Object::new(575 * S, 400 * S, 4 * S, 0, false));
    e.spawn_object(Object::new(625 * S, 400 * S, 4 * S, 0, false));
    assert_eq!(e.link_last_two(32 * S), Ok(()));
    let rest = (32 * S) as f64;
    let initial = (dist(pos(&e, 0), pos(&e, 1)) - rest).abs();
    e.update(FRAME);
    let first = (dist(pos(&e, 0), pos(&e, 1)) - rest).abs();
    assert!(first < initial);
    for _ in 0..40 {
        e.update(FRAME);
        let d = dist(pos(&e, 0), pos(&e, 1));
        assert!(d > 0.0);
        assert!(d <= 50.0 * S as f64);
    }
    let last = (dist(pos(&e, 0), pos(&e, 1)) - rest).abs();
    assert!(last < S as f64);
}

#[test]
fn verlet_step_matches_formula() {
    let mut o = Object::new(0, 0, 1, 0, false);
    o.accelerate(Vec2::new(1_000_000, -2_000_000));
    o.update_position(1_000_000);
    assert_eq!(o.position, Vec2::new(1_000_000, -2_000_000));
    assert_eq!(o.last_position, Vec2::new(0, 0));
    assert_eq!(o.acceleration, Vec2::new(0, 0));
    o.update_position(1_000_000);
    assert_eq!(o.position, Vec2::new(2_000_000, -4_000_000));
    let mut h = Object::new(0, 0, 1, 0, false);
    h.accelerate(Vec2::new(1000, 0));
    h.update_position(500_000);
    assert_eq!(h.position, Vec2::new(250, 0));
}

#[test]
fn pinned_particle_ignores_acceleration() {
    let mut o = Object::new(5, 6, 1, 0, true);
    o.accelerate(Vec2::new(1000, 1000));
    o.update_position(1_000_000);
    assert_eq!(o.position, Vec2::new(5, 6));
    assert_eq!(o.acceleration, Vec2::new(0, 0));
}

#[test]
fn integer_roots() {
    assert_eq!(isqrt_floor(0), 0);
    assert_eq!(isqrt_floor(15), 3);
    assert_eq!(isqrt_floor(16), 4);
    assert_eq!(isqrt_ceil(15), 4);
    assert_eq!(isqrt_ceil(16), 4);
    assert_eq!(isqrt_ceil(17), 5);
    assert_eq!(floor_root(1 << 80), 1 << 40);
    assert_eq!(ceil_root((1 << 80) + 1), (1 << 40) + 1);
}

#[test]
fn scaling_rounds_as_named() {
    assert_eq!(scale_trunc(7, 1, 2), 3);
    assert_eq!(scale_trunc(-7, 1, 2), -3);
    assert_eq!(scale_ceil(7, 1, 2), 4);
    assert_eq!(scale_ceil(-7, 1, 2), -4);
    assert_eq!(scale_ceil(8, 1, 2), 4);
}

#[test]
fn border_projects_onto_reduced_circle() {
    let o = Object::new(300, 400, 10, 0, false);
    assert_eq!(constrain_border(&o, Vec2::new(0, 0), 110), Vec2::new(60, 80));
    let inner = Object::new(30, 40, 10, 0, true);
    assert_eq!(constrain_border(&inner, Vec2::new(0, 0), 110), Vec2::new(30, 40));
}

#[test]
fn link_correction_splits_evenly() {
    let a = Object::new(0, 0, 1, 0, false);
    let b = Object::new(50, 0, 1, 0, false);
    assert_eq!(link_correction(&a, &b, 32), (Vec2::new(9, 0), Vec2::new(41, 0)));
    let pa = Object::new(0, 0, 1, 0, true);
    assert_eq!(link_correction(&pa, &b, 32), (Vec2::new(0, 0), Vec2::new(32, 0)));
    let same = Object::new(50, 0, 1, 0, false);
    assert_eq!(link_correction(&same, &b, 32), (Vec2::new(50, 0), Vec2::new(50, 0)));
}

#[test]
fn collision_shares_follow_the_other_radius() {
    let a = Object::new(0, 0, 10, 0, false);
    let b = Object::new(20, 0, 30, 0, false);
    // Overlap 20: the small particle moves 3/4 of it, the large one 1/4.
    assert_eq!(collision_correction(&a, &b), (Vec2::new(-15, 0), Vec2::new(25, 0)));
    let pinned = Object::new(20, 0, 30, 0, true);
    assert_eq!(collision_correction(&a, &pinned), (Vec2::new(-20, 0), Vec2::new(20, 0)));
    let apart = Object::new(40, 0, 30, 0, false);
    assert_eq!(collision_correction(&a, &apart), (Vec2::new(0, 0), Vec2::new(40, 0)));
}

#[test]
fn grid_clamps_far_positions_into_range() {
    let e = PhysicsEngine::new(0, 0, 100, 10, Vec2::new(0, 0));
    assert_eq!(e.cell_count(), 625);
    assert_eq!(e.cell_index(Vec2::new(0, 0)), 12 + 12 * 25);
    assert_eq!(e.cell_index(Vec2::new(1_000_000, -1_000_000)), 24);
    assert_eq!(e.cell_index(Vec2::new(-1_000_000, 1_000_000)), 24 * 25);
}

#[test]
fn cell_may_exceed_the_boundary_radius() {
    let mut e = PhysicsEngine::new(0, 0, 100, 250, Vec2::new(0, 10));
    assert_eq!(e.cell_count(), 1);
    e.spawn_object(Object::new(10, 0, 5, 0, false));
    e.spawn_object(Object::new(-10, 0, 5, 0, false));
    e.update(FRAME);
    assert_eq!(e.cell(0).len(), 2);
}

#[test]
fn far_edge_particle_is_clamped_into_last_column() {
    let mut e = world();
    let h = e.spawn_object(Object::new(1100 * S, 400 * S, 5 * S, 0, false));
    assert_eq!(e.cell_index(Vec2::new(1100 * S, 400 * S)), 1299);
    assert_eq!(e.cell(1299).len(), 1);
    assert_eq!(e.cell(1299)[0], h);
    assert_eq!(e.cell(1300).len(), 0);
}
