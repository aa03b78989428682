use verlet::resolver::collision_pairs;
use verlet::solver::{locate, resolve_collisions, resolve_pairs, sub_step, tick, update_each, SUB_STEPS};
use verlet::spawner::{spawn_x, Spawner};
use verlet::store::ParticleStore;

#[derive(Clone, Copy, Debug, PartialEq)]
struct Ball {
    position: (f32, f32),
    old_position: (f32, f32),
    acceleration: (f32, f32),
}

fn at_rest(x: f32, y: f32) -> Ball {
    Ball { position: (x, y), old_position: (x, y), acceleration: (0.0, 0.0) }
}

fn store_of(balls: &[Ball]) -> ParticleStore<Ball> {
    let mut store = ParticleStore::new();
    for b in balls {
        store.insert(*b);
    }
    store
}

fn distance(a: &Ball, b: &Ball) -> f32 {
    let dx = a.position.0 - b.position.0;
    let dy = a.position.1 - b.position.1;
    (dx * dx + dy * dy).sqrt()
}

fn pull(gravity: (f32, f32)) -> impl Fn(Ball) -> Ball {
    move |mut b: Ball| {
        b.acceleration.0 += gravity.0;
        b.acceleration.1 += gravity.1;
        b
    }
}

fn hold(center: (f32, f32), radius: f32, ball_radius: f32) -> impl Fn(Ball) -> Ball {
    move |mut b: Ball| {
        let v = (center.0 - b.position.0, center.1 - b.position.1);
        let dist = (v.0 * v.0 + v.1 * v.1).sqrt();
        if dist > radius - ball_radius {
            let n = (v.0 / dist, v.1 / dist);
            b.position = (center.0 - n.0 * (radius - ball_radius), center.1 - n.1 * (radius - ball_radius));
        }
        b
    }
}

fn free(b: Ball) -> Ball {
    b
}

fn cell(diameter: f32) -> impl Fn(Ball) -> (i32, i32) {
    move |b: Ball| ((b.position.0 / diameter).floor() as i32, (b.position.1 / diameter).floor() as i32)
}

fn push_apart(diameter: f32, res_coef: f32) -> impl Fn(Ball, Ball) -> (Ball, Ball) {
    move |mut a: Ball, mut b: Ball| {
        let v = (a.position.0 - b.position.0, a.position.1 - b.position.1);
        let dist2 = v.0 * v.0 + v.1 * v.1;
        if dist2 < diameter * diameter && dist2 > 0.0 {
            let dist = dist2.sqrt();
            let n = (v.0 / dist, v.1 / dist);
            let delta = 0.5 * res_coef * (dist - diameter);
            a.position = (a.position.0 - n.0 * delta, a.position.1 - n.1 * delta);
            b.position = (b.position.0 + n.0 * delta, b.position.1 + n.1 * delta);
        }
        (a, b)
    }
}

fn verlet(dt: f32) -> impl Fn(Ball) -> Ball {
    move |mut b: Ball| {
        let d = (b.position.0 - b.old_position.0, b.position.1 - b.old_position.1);
        b.old_position = b.position;
        b.position = (
            b.position.0 + d.0 + b.acceleration.0 * (dt * dt),
            b.position.1 + d.1 + b.acceleration.1 * (dt * dt),
        );
        b.acceleration = (0.0, 0.0);
        b
    }
}

#[test]
fn a_tick_has_eight_sub_steps() {
    assert_eq!(SUB_STEPS, 8);
}

#[test]
fn update_each_applies_the_kernel_to_every_particle() {
    let mut store: ParticleStore<i64> = ParticleStore::new();
    for v in [1, 2, 3] {
        store.insert(v);
    }
    update_each(&mut store, &|v: i64| v * v + 1);
    assert_eq!((*store.get(0), *store.get(1), *store.get(2)), (2, 5, 10));
}

#[test]
fn locate_asks_for_the_cell_of_every_particle() {
    let store = store_of(&[at_rest(0.5, 0.5), at_rest(-0.5, 7.9), at_rest(8.0, -8.1)]);
    assert_eq!(locate(&store, &cell(4.0)), vec![(0, 0), (-1, 1), (2, -3)]);
}

#[test]
fn a_later_pair_sees_what_an_earlier_pair_left() {
    let mut store: ParticleStore<i64> = ParticleStore::new();
    for v in [1, 10, 100] {
        store.insert(v);
    }
    let pairs = vec![(0, 1), (1, 2), (0, 2)];
    resolve_pairs(&mut store, &pairs, &|a: i64, b: i64| (a + b, b - a));
    // (0,1): 11, 9, 100;  (1,2): 11, 109, 91;  (0,2): 102, 109, 80
    assert_eq!((*store.get(0), *store.get(1), *store.get(2)), (102, 109, 80));
}

#[test]
fn no_pairs_no_change() {
    let mut store: ParticleStore<i64> = ParticleStore::new();
    store.insert(4);
    resolve_pairs(&mut store, &vec![], &|a: i64, b: i64| (a + 1, b + 1));
    assert_eq!(*store.get(0), 4);
}

#[test]
fn the_kernel_runs_once_on_every_near_pair() {
    // Each particle counts the kernels that it has been through.
    let spots = [(0.0f32, 0.0f32), (1.0, 1.0), (5.0, 1.0), (30.0, 30.0), (2.0, 3.0), (9.0, 1.0)];
    let mut store: ParticleStore<((f32, f32), u32)> = ParticleStore::new();
    for s in spots {
        store.insert((s, 0));
    }
    let cell_of = |p: ((f32, f32), u32)| ((p.0 .0 / 4.0).floor() as i32, (p.0 .1 / 4.0).floor() as i32);
    resolve_collisions(&mut store, &cell_of, &|a: ((f32, f32), u32), b: ((f32, f32), u32)| {
        ((a.0, a.1 + 1), (b.0, b.1 + 1))
    });
    // Cells: (0,0), (0,0), (1,0), (7,7), (0,0), (2,0).
    let counts: Vec<u32> = (0..spots.len()).map(|i| store.get(i).1).collect();
    assert_eq!(counts, vec![3, 3, 4, 0, 3, 1]);
}

#[test]
fn the_phases_of_a_sub_step_run_in_order() {
    let mut store: ParticleStore<u64> = ParticleStore::new();
    store.insert(0);
    store.insert(0);
    sub_step(
        &mut store,
        &|p: u64| p * 10 + 1,
        &|p: u64| p * 10 + 2,
        &|_p: u64| (0, 0),
        &|a: u64, b: u64| (a * 10 + 3, b * 10 + 3),
        &|p: u64| p * 10 + 4,
    );
    assert_eq!((*store.get(0), *store.get(1)), (1234, 1234));
}

#[test]
fn a_tick_runs_its_sub_steps_one_after_the_other() {
    let mut store: ParticleStore<u64> = ParticleStore::new();
    store.insert(0);
    store.insert(0);
    tick(
        &mut store,
        3,
        &|p: u64| p * 10 + 1,
        &|p: u64| p * 10 + 2,
        &|_p: u64| (0, 0),
        &|a: u64, b: u64| (a * 10 + 3, b * 10 + 3),
        &|p: u64| p * 10 + 4,
    );
    assert_eq!((*store.get(0), *store.get(1)), (123412341234, 123412341234));
}

#[test]
fn a_tick_of_no_sub_steps_changes_nothing() {
    let mut store: ParticleStore<u64> = ParticleStore::new();
    store.insert(5);
    tick(&mut store, 0, &|p: u64| p + 1, &|p: u64| p + 1, &|_p: u64| (0, 0), &|a: u64, b: u64| (a, b), &|p: u64| {
        p + 1
    });
    assert_eq!(*store.get(0), 5);
}

#[test]
fn a_particle_at_rest_falls_by_gravity_times_dt_squared() {
    let dt = 1.0f32 / 600.0;
    let gravity = (0.0f32, -1000.0f32);
    let mut store = store_of(&[at_rest(0.0, 0.0)]);
    sub_step(
        &mut store,
        &pull(gravity),
        &hold((0.0, 0.0), 300.0, 2.0),
        &cell(4.0),
        &push_apart(4.0, 0.5),
        &verlet(dt),
    );
    let ball = *store.get(0);
    assert_eq!(ball.old_position, (0.0, 0.0));
    assert_eq!(ball.position.0 - ball.old_position.0, gravity.0 * (dt * dt));
    assert_eq!(ball.position.1 - ball.old_position.1, gravity.1 * (dt * dt));
    assert_eq!(ball.acceleration, (0.0, 0.0));
}

#[test]
fn three_overlapping_particles_in_a_row() {
    // Radius 1: the circles at x = 0, 1, 2 overlap pairwise, but for the
    // outer two, which just touch.
    let balls = [at_rest(0.0, 0.0), at_rest(1.0, 0.0), at_rest(2.0, 0.0)];
    let kernel = push_apart(2.0, 1.0);
    let mut store = store_of(&balls);
    let cells = locate(&store, &cell(2.0));
    assert_eq!(cells, vec![(0, 0), (0, 0), (1, 0)]);
    let pairs = collision_pairs(&cells);
    assert_eq!(pairs.len(), 3);
    for &(i, j) in &pairs {
        let overlapped = distance(store.get(i), store.get(j)) < 2.0;
        resolve_pairs(&mut store, &vec![(i, j)], &kernel);
        if overlapped {
            assert!(distance(store.get(i), store.get(j)) >= 2.0 - 1e-5);
        }
    }
    let moved: Vec<f32> = (0..3).map(|i| (store.get(i).position.0 - balls[i].position.0).abs()).collect();
    assert!(moved[1] < moved[0].max(moved[2]));
    assert!(store.get(0).position.0 <= 0.0 && store.get(2).position.0 >= 2.0);

    // The same pass in one call gives the same positions.
    let mut again = store_of(&balls);
    resolve_pairs(&mut again, &pairs, &kernel);
    for i in 0..3 {
        assert_eq!(again.get(i), store.get(i));
    }
}

#[test]
fn a_pass_over_particles_that_do_not_overlap_changes_nothing() {
    let balls = [at_rest(0.0, 0.0), at_rest(4.5, 0.0), at_rest(0.0, 4.5), at_rest(-20.0, 13.0), at_rest(4.5, 4.5)];
    let mut store = store_of(&balls);
    resolve_collisions(&mut store, &cell(4.0), &push_apart(4.0, 0.5));
    for (i, b) in balls.iter().enumerate() {
        assert_eq!(store.get(i), b);
    }
}

#[test]
fn the_kernel_moves_two_particles_by_opposite_amounts() {
    let balls = [at_rest(1.0, 2.0), at_rest(2.5, 3.0)];
    let mut store = store_of(&balls);
    resolve_collisions(&mut store, &cell(4.0), &push_apart(4.0, 0.5));
    let da = (store.get(0).position.0 - 1.0, store.get(0).position.1 - 2.0);
    let db = (store.get(1).position.0 - 2.5, store.get(1).position.1 - 3.0);
    assert!(da.0 != 0.0 || da.1 != 0.0);
    assert!((da.0 + db.0).abs() < 1e-6 && (da.1 + db.1).abs() < 1e-6);
}

#[test]
fn the_boundary_holds_every_particle() {
    let balls = [at_rest(0.0, 0.0), at_rest(299.0, 0.0), at_rest(-400.0, 300.0), at_rest(10.0, -1000.0)];
    let mut store = store_of(&balls);
    update_each(&mut store, &hold((0.0, 0.0), 300.0, 2.0));
    for i in 0..balls.len() {
        let p = store.get(i).position;
        assert!((p.0 * p.0 + p.1 * p.1).sqrt() <= 298.0 + 1e-3);
    }
    assert_eq!(store.get(0).position, (0.0, 0.0));
}

#[test]
fn two_overlapping_particles_come_apart() {
    let mut store = store_of(&[at_rest(0.0, 0.0), at_rest(0.5, 0.25)]);
    let dt = 1.0f32 / 480.0;
    for _ in 0..100 {
        sub_step(&mut store, &pull((0.0, 0.0)), &free, &cell(4.0), &push_apart(4.0, 0.5), &verlet(dt));
    }
    assert!(distance(store.get(0), store.get(1)) >= 4.0 - 1e-3);
}

#[test]
fn two_particles_at_the_same_place_stay_finite() {
    let mut store = store_of(&[at_rest(1.0, 1.0), at_rest(1.0, 1.0)]);
    tick(
        &mut store,
        SUB_STEPS,
        &pull((0.0, -1000.0)),
        &hold((0.0, 0.0), 300.0, 2.0),
        &cell(4.0),
        &push_apart(4.0, 0.5),
        &verlet(1.0 / 480.0),
    );
    for i in 0..2 {
        let p = store.get(i).position;
        assert!(p.0.is_finite() && p.1.is_finite());
    }
}

#[test]
fn a_lone_particle_meets_no_kernel() {
    let mut store = store_of(&[at_rest(3.0, 3.0)]);
    resolve_collisions(&mut store, &cell(4.0), &|_a: Ball, _b: Ball| -> (Ball, Ball) {
        panic!("a lone particle has nothing to collide with")
    });
    assert_eq!(*store.get(0), at_rest(3.0, 3.0));
    let mut empty: ParticleStore<Ball> = ParticleStore::new();
    resolve_collisions(&mut empty, &cell(4.0), &push_apart(4.0, 0.5));
    assert_eq!(empty.len(), 0);
}

#[test]
fn a_tick_keeps_every_particle_at_its_index() {
    // Each particle carries its index; no kernel touches it.
    let mut store: ParticleStore<(usize, f32)> = ParticleStore::new();
    for i in 0..50 {
        store.insert((i, (i % 7) as f32));
    }
    tick(
        &mut store,
        SUB_STEPS,
        &|p: (usize, f32)| (p.0, p.1 + 0.5),
        &|p: (usize, f32)| p,
        &|p: (usize, f32)| ((p.1 / 4.0).floor() as i32, 0),
        &|a: (usize, f32), b: (usize, f32)| ((a.0, a.1 - 0.25), (b.0, b.1 + 0.25)),
        &|p: (usize, f32)| p,
    );
    assert_eq!(store.len(), 50);
    for i in 0..50 {
        assert_eq!(store.get(i).0, i);
    }
}

#[test]
fn a_pile_of_balls_stays_in_the_bowl() {
    let dt = 1.0f32 / 60.0 / SUB_STEPS as f32;
    let mut spawner = Spawner::new(120);
    let mut store: ParticleStore<Ball> = ParticleStore::new();
    for _frame in 0..40 {
        for slot in 0..spawner.spawn(true) {
            store.insert(at_rest(spawn_x(slot) as f32, 0.0));
        }
        tick(
            &mut store,
            SUB_STEPS,
            &pull((0.0, -1000.0)),
            &hold((0.0, 0.0), 300.0, 2.0),
            &cell(4.0),
            &push_apart(4.0, 0.5),
            &verlet(dt),
        );
    }
    assert_eq!(store.len(), 120);
    assert_eq!(spawner.ball_count(), 120);
    update_each(&mut store, &hold((0.0, 0.0), 300.0, 2.0));
    for ball in store.as_slice() {
        let p = ball.position;
        assert!(p.0.is_finite() && p.1.is_finite());
        assert!((p.0 * p.0 + p.1 * p.1).sqrt() <= 298.0 + 1e-2);
    }
}
