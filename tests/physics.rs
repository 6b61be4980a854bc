use ball_physics::body::{
    collision_feedback, resolve_pair, BallState, CollisionError, DynamicBody, Feedback, Mass,
};
use ball_physics::geometry::{div_floor, isqrt, Vec2};
use ball_physics::gravity::Gravity;
use ball_physics::grid::{ColliderDesc, Grid, GridError};

fn v(x: i64, y: i64) -> Vec2 {
    Vec2 { x, y }
}

fn grid() -> Grid {
    Grid::new(300, 200).unwrap()
}

fn grid_of(bodies: &[BallState]) -> Grid {
    let mut g = grid();
    for b in bodies {
        g.add(ColliderDesc { id: b.ball.0, position: b.position });
    }
    g
}

fn dist2(a: Vec2, b: Vec2) -> i128 {
    let dx = (a.x - b.x) as i128;
    let dy = (a.y - b.y) as i128;
    dx * dx + dy * dy
}

#[test]
fn cell_of_position_rounds_down() {
    let g = grid();
    assert_eq!(g.get_cell(v(450, -1)), (1, -1));
    assert_eq!(g.get_cell(v(-300, -301)), (-1, -2));
    assert_eq!(g.get_cell(v(0, 299)), (0, 0));
    assert_eq!(g.get_cell(v(600, 300)), (2, 1));
}

#[test]
fn grid_rejects_bad_sizes() {
    assert_eq!(Grid::new(0, 0).err(), Some(GridError::InvalidCellSize));
    assert_eq!(Grid::new(-5, 1).err(), Some(GridError::InvalidCellSize));
    assert_eq!(Grid::new(300, -1).err(), Some(GridError::NegativeRadius));
    assert_eq!(Grid::new(300, 301).err(), Some(GridError::RadiusExceedsCellSize));
    assert!(Grid::new(300, 300).is_ok());
}

#[test]
fn add_groups_colliders_by_cell() {
    let mut g = grid();
    g.add(ColliderDesc { id: 0, position: v(10, 10) });
    g.add(ColliderDesc { id: 1, position: v(400, 10) });
    g.add(ColliderDesc { id: 2, position: v(20, 20) });
    assert_eq!(g.get_cells().len(), 2);
    let first: Vec<usize> = g.get_cells()[0].get_colliders().iter().map(|c| c.id).collect();
    assert_eq!(first, vec![0, 2]);
    g.clear();
    assert_eq!(g.get_cells().len(), 0);
}

#[test]
fn neighbours_across_cell_boundary_collide() {
    let mut g = grid();
    let a = ColliderDesc { id: 0, position: v(299, 0) };
    let b = ColliderDesc { id: 1, position: v(301, -1) };
    g.add(a);
    g.add(b);
    assert_eq!(g.get_collided(a.position), vec![b]);
    assert_eq!(g.get_collided(b.position), vec![a]);
}

#[test]
fn collision_radius_is_strict() {
    let mut g = grid();
    let a = ColliderDesc { id: 0, position: v(0, 0) };
    let b = ColliderDesc { id: 1, position: v(200, 0) };
    let c = ColliderDesc { id: 2, position: v(120, 159) };
    g.add(a);
    g.add(b);
    g.add(c);
    assert_eq!(g.get_collided(a.position), vec![c]);
}

#[test]
fn no_self_collision() {
    let mut g = grid();
    let a = ColliderDesc { id: 0, position: v(50, 50) };
    let twin = ColliderDesc { id: 1, position: v(50, 50) };
    let near = ColliderDesc { id: 2, position: v(60, 50) };
    g.add(a);
    g.add(twin);
    g.add(near);
    assert_eq!(g.get_collided(v(50, 50)), vec![near]);
}

#[test]
fn gravity_pulls_towards_center() {
    let g = Gravity::new(v(0, 0), 10);
    assert_eq!(g.apply_gravity(Mass(1), v(3000, 4000)), v(-6, -8));
    assert_eq!(g.apply_gravity(Mass(7), v(-3000, 4000)), v(6, -8));
}

#[test]
fn gravity_at_center_is_zero() {
    let g = Gravity::new(v(120, -40), 1000);
    assert_eq!(g.apply_gravity(Mass(3), v(120, -40)), v(0, 0));
}

#[test]
fn forces_of_sources_add_up_before_division() {
    let mut bodies = vec![BallState::new(9, 200, v(0, 0), v(0, 0))];
    bodies[0].body.mass = Mass(4);
    let sources = vec![Gravity::new(v(1000, 0), 10), Gravity::new(v(0, 1000), 6)];
    DynamicBody::apply_gravity(&mut bodies, &sources);
    assert_eq!(bodies[0].body.acceleration.0, v(2, 1));
}

#[test]
fn apply_force_and_impulse_divide_by_mass() {
    let mut b = DynamicBody::default();
    b.mass = Mass(4);
    b.apply_force(v(10, -10));
    assert_eq!(b.acceleration.0, v(2, -3));
    b.apply_impulse(v(-9, 8));
    assert_eq!(b.velocity.0, v(-3, 2));
}

#[test]
fn free_motion_keeps_velocity() {
    let mut bodies = vec![BallState::new(1, 200, v(100, -50), v(7, -3))];
    let mut g = grid();
    DynamicBody::apply_gravity(&mut bodies, &Vec::new());
    assert_eq!(bodies[0].body.acceleration.0, v(0, 0));
    DynamicBody::apply_physics(&mut bodies, 10, &mut g);
    assert_eq!(bodies[0].body.velocity.0, v(7, -3));
    assert_eq!(bodies[0].position, v(170, -80));
    assert_eq!(g.get_cells().len(), 1);
    assert_eq!(g.get_cells()[0].get_colliders()[0], ColliderDesc { id: 1, position: v(170, -80) });
}

#[test]
fn integration_uses_new_velocity() {
    let mut bodies = vec![BallState::new(1, 200, v(0, 0), v(1, 0))];
    let mut g = grid();
    let sources = vec![Gravity::new(v(0, 5000), 2)];
    DynamicBody::apply_gravity(&mut bodies, &sources);
    assert_eq!(bodies[0].body.acceleration.0, v(0, 2));
    DynamicBody::apply_physics(&mut bodies, 3, &mut g);
    assert_eq!(bodies[0].body.velocity.0, v(1, 6));
    assert_eq!(bodies[0].position, v(3, 18));
}

#[test]
fn pair_shifts_are_opposite() {
    let me = BallState::new(1, 200, v(0, 0), v(0, 0));
    let other = BallState::new(2, 200, v(300, 400), v(0, 0));
    let (a, b) = resolve_pair(&me, &other);
    assert_eq!(a.position, v(30, 40));
    assert_eq!(b.position, v(270, 360));
    assert_eq!(a.position.x - me.position.x, -(b.position.x - other.position.x));
    assert_eq!(a.position.y - me.position.y, -(b.position.y - other.position.y));
}

#[test]
fn overlapping_pair_is_separated() {
    let me = BallState::new(1, 200, v(0, 0), v(10, 0));
    let other = BallState::new(2, 200, v(100, 0), v(-5, 0));
    let (a, b) = resolve_pair(&me, &other);
    assert_eq!(a.position, v(-150, 0));
    assert_eq!(b.position, v(250, 0));
    assert!(dist2(a.position, b.position) >= 400 * 400);
    assert_eq!(a.body.velocity.0, v(2, 0));
    assert_eq!(b.body.velocity.0, v(-4, 0));
}

#[test]
fn coincident_pair_is_left_alone() {
    let me = BallState::new(1, 200, v(5, 5), v(10, 0));
    let other = BallState::new(2, 200, v(5, 5), v(-5, 0));
    let (a, b) = resolve_pair(&me, &other);
    assert_eq!(a, me);
    assert_eq!(b, other);
}

#[test]
fn collision_pass_separates_overlapping_pair() {
    let mut bodies = vec![
        BallState::new(11, 200, v(0, 0), v(10, 0)),
        BallState::new(12, 200, v(100, 0), v(-5, 0)),
    ];
    let g = grid_of(&bodies);
    let fb = DynamicBody::fix_collisions(&mut bodies, &g).unwrap();
    assert_eq!(bodies[0].position, v(-150, 0));
    assert_eq!(bodies[1].position, v(250, 0));
    assert!(dist2(bodies[0].position, bodies[1].position) >= 400 * 400);
    assert_eq!(bodies[0].body.velocity.0, v(1, 0));
    assert_eq!(bodies[1].body.velocity.0, v(-1, 0));
    assert_eq!(bodies[0].body.n_collisions, 1);
    assert_eq!(bodies[1].body.n_collisions, 1);
    assert_eq!(
        fb,
        vec![Feedback { id: 11, red: 5, blue: 95 }, Feedback { id: 12, red: 5, blue: 95 }]
    );
}

#[test]
fn distant_bodies_do_not_collide() {
    let mut bodies: Vec<BallState> = (0..5)
        .map(|i| BallState::new(i, 200, v(1000 * i as i64, -1000 * i as i64), v(3, 4)))
        .collect();
    let before = bodies.clone();
    let g = grid_of(&bodies);
    let fb = DynamicBody::fix_collisions(&mut bodies, &g).unwrap();
    assert!(fb.is_empty());
    assert_eq!(bodies, before);
}

#[test]
fn feedback_only_on_changed_count() {
    assert_eq!(collision_feedback(0, 3, 7), Some(Feedback { id: 7, red: 15, blue: 85 }));
    assert_eq!(collision_feedback(3, 3, 7), None);
    assert_eq!(collision_feedback(0, 25, 7), Some(Feedback { id: 7, red: 100, blue: 0 }));
    assert_eq!(collision_feedback(4, 0, 7), Some(Feedback { id: 7, red: 0, blue: 100 }));
}

#[test]
fn count_rising_to_three_emits_once() {
    let mut bodies = vec![
        BallState::new(100, 0, v(0, 0), v(0, 0)),
        BallState::new(101, 0, v(50, 0), v(0, 0)),
        BallState::new(102, 0, v(0, 50), v(0, 0)),
        BallState::new(103, 0, v(-50, 0), v(0, 0)),
    ];
    let g = grid_of(&bodies);
    let fb = DynamicBody::fix_collisions(&mut bodies, &g).unwrap();
    assert_eq!(bodies[0].body.n_collisions, 3);
    let for_centre: Vec<&Feedback> = fb.iter().filter(|f| f.id == 100).collect();
    assert_eq!(for_centre, vec![&Feedback { id: 100, red: 15, blue: 85 }]);
    let again = DynamicBody::fix_collisions(&mut bodies, &g).unwrap();
    assert!(again.iter().all(|f| f.id != 100));
}

#[test]
fn unknown_collider_id_is_reported() {
    let mut bodies = vec![BallState::new(1, 200, v(0, 0), v(0, 0))];
    let mut g = grid();
    g.add(ColliderDesc { id: 5, position: v(10, 10) });
    let before = bodies.clone();
    assert_eq!(
        DynamicBody::fix_collisions(&mut bodies, &g),
        Err(CollisionError::LookupMiss(5))
    );
    assert_eq!(bodies, before);
}

#[test]
fn tick_runs_whole_pipeline() {
    let mut bodies = vec![
        BallState::new(1, 200, v(-60, 0), v(0, 0)),
        BallState::new(2, 200, v(60, 0), v(0, 0)),
    ];
    let sources = vec![Gravity::new(v(0, 0), 10)];
    let mut g = grid();
    let fb = DynamicBody::tick(&mut bodies, &sources, &mut g, 1);
    assert_eq!(bodies[0].body.acceleration.0, v(10, 0));
    assert_eq!(bodies[1].body.acceleration.0, v(-10, 0));
    assert_eq!(fb.len(), 2);
    assert!(dist2(bodies[0].position, bodies[1].position) >= 400 * 400);
}

#[test]
fn integer_helpers() {
    assert_eq!(isqrt(0), 0);
    assert_eq!(isqrt(24), 4);
    assert_eq!(isqrt(25), 5);
    assert_eq!(div_floor(-7, 2), -4);
    assert_eq!(div_floor(7, 2), 3);
}

#[test]
fn neighbours_cover_the_block_row_by_row() {
    let mut g = grid();
    let centre = ColliderDesc { id: 0, position: v(10, 10) };
    let diag = ColliderDesc { id: 1, position: v(310, 310) };
    let far = ColliderDesc { id: 2, position: v(610, 10) };
    let below = ColliderDesc { id: 3, position: v(-10, -10) };
    let centre2 = ColliderDesc { id: 4, position: v(20, 280) };
    g.add(centre);
    g.add(diag);
    g.add(far);
    g.add(below);
    g.add(centre2);
    assert_eq!(g.get_neighbours(v(10, 10)), vec![below, centre, centre2, diag]);
    assert_eq!(g.get_collided(v(10, 10)), vec![below]);
}

#[test]
fn grid_colliders_carry_body_ids() {
    let mut bodies = vec![BallState::new(7, 200, v(0, 0), v(1, 2))];
    let mut g = grid();
    DynamicBody::apply_physics(&mut bodies, 500, &mut g);
    assert_eq!(bodies[0].position, v(500, 1000));
    assert_eq!(bodies[0].body.velocity.0, v(1, 2));
    assert_eq!(g.get_cells().len(), 1);
    assert_eq!(g.get_cells()[0].get_colliders(), &vec![ColliderDesc { id: 7, position: v(500, 1000) }]);
}

#[test]
fn two_close_colliders_see_each_other_once() {
    let mut g = grid();
    let a = ColliderDesc { id: 1, position: v(0, 0) };
    let b = ColliderDesc { id: 2, position: v(100, 0) };
    g.add(a);
    g.add(b);
    assert_eq!(g.get_collided(a.position), vec![b]);
    assert_eq!(g.get_collided(b.position), vec![a]);
}
