use collision2d::camera::Camera;
use collision2d::fixed::SCALE;
use collision2d::geometry::{Rot, Vec2};
use collision2d::object::Object;
use collision2d::broad::BroadPhase;
use collision2d::simulator::{check_pair, CollisionInfo, CollisionSimulator};
use collision2d::traversed::TraversedVolume;

fn v(x: i64, y: i64) -> Vec2 {
    Vec2 { x, y }
}

fn u(x: f64) -> i64 {
    (x * SCALE as f64).round() as i64
}

fn identity() -> Rot {
    Rot { cos: SCALE, sin: 0 }
}

/// A diamond (a square rotated 45 degrees) with the given circumradius.
fn diamond(r: i64) -> Vec<Vec2> {
    vec![v(r, 0), v(0, r), v(-r, 0), v(0, -r)]
}

#[test]
fn object_new_defaults_and_update() {
    let mut o = Object::new(v(u(1.0), u(2.0)), v(u(3.0), u(-1.0)), identity(), diamond(u(1.0)));
    assert_eq!(o.mass, SCALE);
    assert_eq!(o.cur_time, 0);
    assert_eq!(o.updated, 0);
    assert_eq!(o.collided, 0);
    o.acceleration = v(0, u(-10.0));
    o.update(u(2.0));
    assert_eq!(o.position, v(u(7.0), u(0.0)));
    assert_eq!(o.velocity, v(u(3.0), u(-21.0)));
    assert_eq!(o.cur_time, u(2.0));
    assert_eq!(o.updated, 1);
}

#[test]
fn camera_screen_to_world_inverts_pan_and_zoom() {
    let cam = Camera { translation: v(u(1.0), u(2.0)), scale: u(2.0) };
    let w = cam.screen_to_world(v(u(5.0), u(6.0)));
    assert_eq!(w, v(u(2.0), u(2.0)));
    let cam0 = Camera::default();
    assert_eq!(cam0.screen_to_world(v(u(3.5), u(-1.5))), v(u(3.5), u(-1.5)));
}

#[test]
fn traversed_volume_spans_current_and_future_pose() {
    let o = Object::new(v(0, 0), v(u(5.0), 0), identity(), diamond(u(1.0)));
    let tv = TraversedVolume::from_object(&o, u(1.0));
    // Hull of the diamond now and the diamond shifted 5 to the right.
    assert_eq!(
        tv.points,
        vec![
            v(u(0.0), u(-1.0)),
            v(u(5.0), u(-1.0)),
            v(u(6.0), u(0.0)),
            v(u(5.0), u(1.0)),
            v(u(0.0), u(1.0)),
            v(u(-1.0), u(0.0)),
        ]
    );
}

#[test]
fn toi_point_at_unit_speed_hits_at_distance() {
    // A point at the origin moving +x at unit speed toward a 45-degree
    // edge crossing y = 0 at x = 7: impact at exactly t = 7.
    let hit = check_pair(
        v(0, 0),
        v(SCALE, 0),
        v(u(6.0), u(-1.0)),
        v(u(8.0), u(1.0)),
        0,
        u(10.0),
    );
    assert_eq!(hit, Some(u(7.0)));
}

#[test]
fn toi_parallel_motion_never_collides() {
    // Motion parallel to the edge: same slope, filtered as no collision.
    let hit = check_pair(
        v(0, 0),
        v(SCALE, SCALE),
        v(u(3.0), u(1.0)),
        v(u(5.0), u(3.0)),
        0,
        u(100.0),
    );
    assert_eq!(hit, None);
    // Vertical edge and vertical path are likewise filtered.
    assert_eq!(
        check_pair(v(0, 0), v(SCALE, 0), v(u(2.0), u(-1.0)), v(u(2.0), u(1.0)), 0, u(10.0)),
        None
    );
    assert_eq!(
        check_pair(v(0, 0), v(0, SCALE), v(u(-1.0), u(2.0)), v(u(1.0), u(2.0)), 0, u(10.0)),
        None
    );
}

#[test]
fn toi_outside_window_rejected() {
    // Impact at t = 7 rejected when the frame horizon stops at 6.
    let hit = check_pair(
        v(0, 0),
        v(SCALE, 0),
        v(u(6.0), u(-1.0)),
        v(u(8.0), u(1.0)),
        0,
        u(6.0),
    );
    assert_eq!(hit, None);
}

fn two_body_sim(a: Object, b: Object, te: i64) -> CollisionSimulator {
    let mut sim = CollisionSimulator::new();
    sim.objects.push(a);
    sim.objects.push(b);
    sim.time_elapsed = te;
    sim
}

#[test]
fn check_collision_directional_results_differ() {
    // A's corner reaches B's edge at t = 4.25, B's earliest corner would
    // need t = 4.75: with the horizon at 4.5 only one direction reports.
    let a = Object::new(v(0, 0), v(SCALE, 0), identity(), diamond(u(1.0)));
    let b = Object::new(v(u(10.0), u(3.5)), v(-SCALE, 0), identity(), diamond(u(4.0)));
    let sim = two_body_sim(a, b, u(4.5));
    let fwd = sim.check_collision(0, 1);
    let bwd = sim.check_collision(1, 0);
    assert!(fwd.is_some());
    let info = fwd.unwrap();
    assert_eq!(info.time, u(4.25));
    assert_eq!(info.object_1, 0);
    assert_eq!(info.object_2, 1);
    assert!(bwd.is_none());
}

#[test]
fn check_collisions_queries_both_directions() {
    let a = Object::new(v(0, 0), v(SCALE, 0), identity(), diamond(u(1.0)));
    let b = Object::new(v(u(10.0), u(0.5)), v(-SCALE, 0), identity(), diamond(u(1.0)));
    let sim = two_body_sim(a, b, u(5.0));
    let events = sim.check_collisions(0);
    assert_eq!(events.len(), 2);
    assert!(events.iter().any(|e| e.object_1 == 0 && e.object_2 == 1));
    assert!(events.iter().any(|e| e.object_1 == 1 && e.object_2 == 0));
    assert!(events.iter().all(|e| e.time == u(4.25)));
}

#[test]
fn broad_phase_one_entry_per_body_and_no_false_negative() {
    let a = Object::new(v(0, 0), v(SCALE, 0), identity(), diamond(u(1.0)));
    let b = Object::new(v(u(10.0), 0), v(-SCALE, 0), identity(), diamond(u(1.0)));
    let c = Object::new(v(u(100.0), 0), v(0, 0), identity(), diamond(u(1.0)));
    let mut sim = CollisionSimulator::new();
    sim.objects.push(a);
    sim.objects.push(b);
    sim.objects.push(c);
    sim.time_elapsed = u(5.0);
    let mut bp = BroadPhase::rebuild(&sim.objects, sim.time_elapsed);
    assert_eq!(bp.entries.len(), 3);
    for (i, e) in bp.entries.iter().enumerate() {
        assert_eq!(e.index, i);
        assert!(e.min_x <= e.max_x);
    }
    // The two approaching bodies' swept intervals truly overlap: at least
    // one of the two queries must propose the pair.
    let from_a = bp.query_overlaps(0);
    let from_b = bp.query_overlaps(1);
    assert!(from_a.contains(&1) || from_b.contains(&0));
    // The far-away body's interval is disjoint from A's.
    assert!(!bp.query_overlaps(0).contains(&2));
    // An incremental refresh keeps exactly one entry per body.
    bp.update(&sim.objects, 1, sim.time_elapsed);
    assert_eq!(bp.entries.len(), 3);
    for (i, e) in bp.entries.iter().enumerate() {
        assert_eq!(e.index, i);
    }
}

#[test]
fn stale_event_is_discarded_not_applied() {
    let a = Object::new(v(0, 0), v(SCALE, 0), identity(), diamond(u(1.0)));
    let b = Object::new(v(u(10.0), u(0.5)), v(-SCALE, 0), identity(), diamond(u(1.0)));
    let mut sim = two_body_sim(a, b, u(5.0));
    let event = sim.check_collision(0, 1).unwrap();
    // The first body moves after the event was computed: its stamp
    // changes and the queued event must be discarded, never applied.
    sim.objects[0].update(u(0.5));
    let before_velocities: Vec<Vec2> = sim.objects.iter().map(|o| o.velocity).collect();
    let before_debug = sim.debug_points.len();
    let applied = sim.handle_collision(event);
    assert!(!applied);
    let after_velocities: Vec<Vec2> = sim.objects.iter().map(|o| o.velocity).collect();
    assert_eq!(before_velocities, after_velocities);
    assert_eq!(sim.debug_points.len(), before_debug);
    assert_eq!(sim.objects[0].collided, 0);
    assert_eq!(sim.objects[1].collided, 0);
}

#[test]
fn fresh_event_is_applied() {
    let a = Object::new(v(0, 0), v(SCALE, 0), identity(), diamond(u(1.0)));
    let b = Object::new(v(u(10.0), u(0.5)), v(-SCALE, 0), identity(), diamond(u(1.0)));
    let mut sim = two_body_sim(a, b, u(5.0));
    let event = sim.check_collision(0, 1).unwrap();
    let applied = sim.handle_collision(event);
    assert!(applied);
    assert_eq!(sim.objects[0].collided, 1);
    assert_eq!(sim.objects[1].collided, 1);
    assert_eq!(sim.objects[0].cur_time, u(4.25));
    assert_eq!(sim.objects[1].cur_time, u(4.25));
    assert_eq!(sim.debug_points.len(), 1);
}

#[test]
fn equal_mass_head_on_velocities_swap_normal_components() {
    // Two unit-mass diamonds closing at speed 2, contact on a 45-degree
    // edge: the impulse swaps the normal components exactly, here turning
    // horizontal approach into vertical separation.
    let a = Object::new(v(0, 0), v(SCALE, 0), identity(), diamond(u(1.0)));
    let b = Object::new(v(u(10.0), u(0.5)), v(-SCALE, 0), identity(), diamond(u(1.0)));
    let mut sim = two_body_sim(a, b, u(5.0));
    let energy_before = sim.total_energy();
    let event = sim.check_collision(0, 1).unwrap();
    assert!(sim.handle_collision(event));
    assert_eq!(sim.objects[0].velocity, v(0, -SCALE));
    assert_eq!(sim.objects[1].velocity, v(0, SCALE));
    // Elastic: kinetic energy is conserved exactly here.
    assert_eq!(sim.total_energy(), energy_before);
    assert_eq!(energy_before, u(1.0));
}

#[test]
fn end_to_end_two_bodies_collide_and_separate() {
    // Two unit-mass diamonds, closing speed 2, ten units apart: the frame
    // pass finds the crossing at t = 4.25, applies the impulse, and the
    // boundary pass integrates everyone to just past the frame clock.
    let a = Object::new(v(0, 0), v(SCALE, 0), identity(), diamond(u(1.0)));
    let b = Object::new(v(u(10.0), u(0.5)), v(-SCALE, 0), identity(), diamond(u(1.0)));
    let mut sim = CollisionSimulator::new();
    sim.objects.push(a);
    sim.objects.push(b);
    let energy_before = sim.total_energy();
    sim.update(u(5.0), v(0, 0), identity(), diamond(u(1.0)));
    assert_eq!(sim.time_elapsed, u(5.0));
    assert_eq!(sim.frame, 1);
    assert_eq!(sim.objects.len(), 2);
    // Post-collision velocities: swapped along the contact normal.
    assert_eq!(sim.objects[0].velocity, v(0, -SCALE));
    assert_eq!(sim.objects[1].velocity, v(0, SCALE));
    assert_eq!(sim.objects[0].collided, 1);
    assert_eq!(sim.objects[1].collided, 1);
    // Both bodies were advanced through the impact to the frame clock.
    assert_eq!(sim.objects[0].cur_time, u(5.0));
    assert_eq!(sim.objects[1].cur_time, u(5.0));
    // Positions: advanced to 4.25, nudged apart by the bias along the
    // unit normal, then coasted on the new velocities to 5.
    assert_eq!(sim.objects[0].position, v(4_246_465, -753_535));
    assert_eq!(sim.objects[1].position, v(5_753_535, 1_253_535));
    // Elastic resolution: energy is conserved exactly in this setup.
    assert_eq!(sim.total_energy(), energy_before);
    assert_eq!(sim.debug_points.len(), 1);
}

#[test]
fn update_objects_drops_overly_collided_bodies() {
    let mut sim = CollisionSimulator::new();
    let mut doomed = Object::new(v(0, 0), v(0, 0), identity(), diamond(u(1.0)));
    doomed.collided = 101;
    let mut survivor = Object::new(v(u(3.0), 0), v(0, 0), identity(), diamond(u(1.0)));
    survivor.collided = 100;
    sim.objects.push(doomed);
    sim.objects.push(survivor);
    sim.update_objects(u(1.0), v(0, 0), identity(), diamond(u(1.0)));
    assert_eq!(sim.objects.len(), 1);
    assert_eq!(sim.objects[0].position, v(u(3.0), 0));
    assert_eq!(sim.objects[0].collided, 100);
    // The boundary pass integrates exactly to the frame clock: at clock
    // zero a resting body's own clock stays zero.
    assert_eq!(sim.objects[0].cur_time, 0);
}

#[test]
fn update_objects_spawns_at_click_position() {
    let mut sim = CollisionSimulator::new();
    sim.camera = Camera { translation: v(u(1.0), u(1.0)), scale: u(2.0) };
    sim.cursor_position = v(u(5.0), u(3.0));
    sim.right_clicked = true;
    sim.time_elapsed = u(7.0);
    sim.update_objects(u(1.0), v(u(1.5), u(-0.5)), identity(), diamond(u(1.0)));
    assert_eq!(sim.objects.len(), 1);
    let o = &sim.objects[0];
    assert_eq!(o.position, v(u(2.0), u(1.0)));
    assert_eq!(o.velocity, v(u(1.5), u(-0.5)));
    assert_eq!(o.mass, SCALE);
    assert_eq!(o.cur_time, u(7.0));
    assert_eq!(o.updated, 0);
}

#[test]
fn update_camera_pans_while_middle_clicked() {
    let mut sim = CollisionSimulator::new();
    sim.camera = Camera { translation: v(0, 0), scale: u(2.0) };
    sim.middle_clicked = true;
    sim.last_cursor_position = v(0, 0);
    sim.cursor_position = v(u(1.0), u(-3.0));
    sim.update_camera();
    assert_eq!(sim.camera.translation, v(u(0.5), u(-1.5)));
    sim.middle_clicked = false;
    sim.cursor_position = v(u(9.0), u(9.0));
    sim.update_camera();
    assert_eq!(sim.camera.translation, v(u(0.5), u(-1.5)));
}

#[test]
fn collision_info_orders_by_time_first() {
    let mk = |time: i64, o1: usize| CollisionInfo {
        time,
        object_1: o1,
        object_1_col_stamp: 0,
        point_1: 0,
        object_2: 9,
        object_2_col_stamp: 0,
        line_2: 0,
    };
    assert!(collision2d::simulator::ci_lt_exec(&mk(1, 5), &mk(2, 0)));
    assert!(!collision2d::simulator::ci_lt_exec(&mk(2, 0), &mk(1, 5)));
    assert!(collision2d::simulator::ci_lt_exec(&mk(2, 0), &mk(2, 5)));
}

#[test]
fn camera_inflate_scales_zoom_only() {
    let cam = Camera { translation: v(u(1.0), u(2.0)), scale: u(2.0) };
    let zoomed = cam.inflate(u(1.5));
    assert_eq!(zoomed.translation, v(u(1.0), u(2.0)));
    assert_eq!(zoomed.scale, u(3.0));
}
