use verlet::spawner::{spawn_x, Spawner, BURST, MAX_BALLS, SPAWN_INTERVAL, SPAWN_SPACING};

#[test]
fn the_constants_of_the_spawner() {
    assert_eq!(BURST, 10);
    assert_eq!(MAX_BALLS, 2000);
    assert_eq!(SPAWN_INTERVAL, 10);
    assert_eq!(SPAWN_SPACING, 7);
}

#[test]
fn a_new_spawner_has_spawned_nothing() {
    let spawner = Spawner::new(MAX_BALLS);
    assert_eq!(spawner.ball_count(), 0);
    assert_eq!(spawner.cap(), 2000);
}

#[test]
fn a_finished_timer_grants_a_full_burst() {
    let mut spawner = Spawner::new(MAX_BALLS);
    assert_eq!(spawner.spawn(true), 10);
    assert_eq!(spawner.ball_count(), 10);
    assert_eq!(spawner.spawn(true), 10);
    assert_eq!(spawner.ball_count(), 20);
}

#[test]
fn a_running_timer_grants_nothing() {
    let mut spawner = Spawner::new(MAX_BALLS);
    assert_eq!(spawner.spawn(false), 0);
    assert_eq!(spawner.ball_count(), 0);
}

#[test]
fn the_population_stops_at_the_cap() {
    let mut spawner = Spawner::new(MAX_BALLS);
    let mut frames = 0;
    while spawner.spawn(true) > 0 {
        frames += 1;
    }
    assert_eq!(frames, 200);
    assert_eq!(spawner.ball_count(), 2000);
    assert_eq!(spawner.spawn(true), 0);
    assert_eq!(spawner.ball_count(), 2000);
}

#[test]
fn the_last_burst_is_cut_to_the_room_that_is_left() {
    let mut spawner = Spawner::new(25);
    assert_eq!(spawner.spawn(true), 10);
    assert_eq!(spawner.spawn(true), 10);
    assert_eq!(spawner.spawn(true), 5);
    assert_eq!(spawner.spawn(true), 0);
    assert_eq!(spawner.ball_count(), 25);
}

#[test]
fn a_cap_of_zero_admits_nothing() {
    let mut spawner = Spawner::new(0);
    assert_eq!(spawner.spawn(true), 0);
    assert_eq!(spawner.ball_count(), 0);
}

#[test]
fn the_particles_of_a_burst_enter_seven_apart() {
    let xs: Vec<i32> = (0..BURST).map(spawn_x).collect();
    assert_eq!(xs, vec![0, 7, 14, 21, 28, 35, 42, 49, 56, 63]);
}

#[test]
fn a_slot_beyond_the_burst_still_has_its_place() {
    assert_eq!(spawn_x(10), 70);
    assert_eq!(spawn_x(1000), 7000);
}
