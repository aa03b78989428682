use verlet::pass::{collide_one_to_many, pairs_in_order};
use verlet::resolver::{collision_pairs, scan_pairs};

fn sorted(mut pairs: Vec<(usize, usize)>) -> Vec<(usize, usize)> {
    pairs.sort();
    pairs
}

fn scattered(count: usize, spread: i32, seed: u64) -> Vec<(i32, i32)> {
    let mut state = seed;
    let mut cells = Vec::new();
    for _ in 0..count {
        state = state.wrapping_mul(6364136223846793005).wrapping_add(1442695040888963407);
        let x = ((state >> 33) % (spread as u64)) as i32;
        state = state.wrapping_mul(6364136223846793005).wrapping_add(1442695040888963407);
        let y = ((state >> 33) % (spread as u64)) as i32;
        cells.push((x - spread / 2, y - spread / 2));
    }
    cells
}

#[test]
fn the_anchor_is_paired_with_each_other_candidate() {
    assert_eq!(collide_one_to_many(&vec![3, 1, 5, 0]), vec![(1, 3), (3, 5), (0, 3)]);
}

#[test]
fn a_pair_holds_the_lower_index_first() {
    assert_eq!(collide_one_to_many(&vec![4, 9]), vec![(4, 9)]);
    assert_eq!(collide_one_to_many(&vec![9, 4]), vec![(4, 9)]);
}

#[test]
fn a_lone_anchor_has_no_pairs() {
    assert_eq!(collide_one_to_many(&vec![7]), vec![]);
    assert_eq!(collide_one_to_many(&vec![]), vec![]);
}

#[test]
fn pass_over_two_cells_in_one_order() {
    let cells = vec![(0, 0), (0, 0), (1, 0)];
    let order = vec![(0, 0), (1, 0)];
    assert_eq!(pairs_in_order(&cells, &order), vec![(0, 1), (0, 2), (1, 2)]);
}

#[test]
fn pass_over_two_cells_in_the_other_order() {
    let cells = vec![(0, 0), (0, 0), (1, 0)];
    let order = vec![(1, 0), (0, 0)];
    assert_eq!(pairs_in_order(&cells, &order), vec![(0, 2), (1, 2), (0, 1)]);
}

#[test]
fn neighbours_are_collected_row_by_row() {
    // One particle in the middle cell, one in each cell around it.
    let cells = vec![(0, 0), (1, 1), (-1, -1), (1, 0), (0, -1), (-1, 1), (0, 1), (1, -1), (-1, 0)];
    let order = vec![(0, 0)];
    assert_eq!(
        pairs_in_order(&cells, &order),
        vec![(0, 2), (0, 4), (0, 7), (0, 8), (0, 3), (0, 5), (0, 6), (0, 1)]
    );
}

#[test]
fn two_particles_of_neighbouring_cells_wait_for_their_own_step() {
    // Particles 1 and 2 are neighbours of cell (0, 0) and of each other.
    let cells = vec![(0, 0), (1, 0), (1, 1)];
    assert_eq!(pairs_in_order(&cells, &vec![(0, 0)]), vec![(0, 1), (0, 2)]);
    assert_eq!(
        pairs_in_order(&cells, &vec![(0, 0), (1, 0), (1, 1)]),
        vec![(0, 1), (0, 2), (1, 2)]
    );
}

#[test]
fn every_local_particle_is_the_anchor_once() {
    let cells = vec![(0, 0), (0, 0), (0, 0), (0, 1)];
    assert_eq!(
        pairs_in_order(&cells, &vec![(0, 0), (0, 1)]),
        vec![(0, 1), (0, 2), (0, 3), (1, 2), (1, 3), (2, 3)]
    );
}

#[test]
fn a_cell_named_twice_or_holding_nothing_adds_nothing() {
    let cells = vec![(0, 0), (0, 0), (1, 0)];
    let order = vec![(5, 5), (0, 0), (0, 0), (1, 0), (0, 0), (-1, 0)];
    assert_eq!(pairs_in_order(&cells, &order), vec![(0, 1), (0, 2), (1, 2)]);
}

#[test]
fn a_cell_that_is_never_current_is_still_collected() {
    let cells = vec![(0, 0), (1, 0), (1, 0)];
    assert_eq!(pairs_in_order(&cells, &vec![(0, 0)]), vec![(0, 1), (0, 2)]);
    assert_eq!(pairs_in_order(&cells, &vec![]), vec![]);
}

#[test]
fn far_particles_are_never_paired() {
    let cells = vec![(0, 0), (2, 0), (0, 2), (-2, -2)];
    assert_eq!(collision_pairs(&cells), vec![]);
    assert_eq!(scan_pairs(&cells), vec![]);
}

#[test]
fn no_particles_no_pairs() {
    assert_eq!(collision_pairs(&vec![]), vec![]);
    assert_eq!(collision_pairs(&vec![(3, 3)]), vec![]);
    assert_eq!(scan_pairs(&vec![]), vec![]);
}

#[test]
fn scan_lists_near_pairs_sorted() {
    let cells = vec![(0, 0), (5, 5), (1, 1), (0, 1), (5, 6)];
    assert_eq!(scan_pairs(&cells), vec![(0, 2), (0, 3), (1, 4), (2, 3)]);
}

#[test]
fn three_particles_in_a_row() {
    // Positions (0,0), (1,0), (2,0) with diameter 2 lie in cells 0, 0 and 1.
    let cells = vec![(0, 0), (0, 0), (1, 0)];
    assert_eq!(sorted(collision_pairs(&cells)), vec![(0, 1), (0, 2), (1, 2)]);
}

#[test]
fn grid_pass_finds_what_the_scan_finds() {
    for seed in 0..40u64 {
        let cells = scattered(60, 9, seed);
        let pairs = collision_pairs(&cells);
        assert_eq!(sorted(pairs), scan_pairs(&cells));
    }
}

#[test]
fn grid_pass_finds_what_the_scan_finds_in_a_crowd() {
    let cells = scattered(400, 5, 77);
    assert_eq!(sorted(collision_pairs(&cells)), scan_pairs(&cells));
}

#[test]
fn grid_pass_finds_what_the_scan_finds_at_the_rim() {
    let lo = i32::MIN;
    let hi = i32::MAX;
    let cells = vec![(lo, lo), (lo + 1, lo), (hi, hi), (hi, hi - 1), (lo, hi), (lo, lo), (hi, lo)];
    assert_eq!(sorted(collision_pairs(&cells)), scan_pairs(&cells));
    assert_eq!(scan_pairs(&cells), vec![(0, 1), (0, 5), (1, 5), (2, 3)]);
}

#[test]
fn no_pair_is_resolved_twice() {
    for seed in 100..120u64 {
        let cells = scattered(80, 6, seed);
        let pairs = sorted(collision_pairs(&cells));
        for w in pairs.windows(2) {
            assert_ne!(w[0], w[1]);
        }
        for (i, j) in pairs {
            assert!(i < j && j < cells.len());
        }
    }
}

#[test]
fn any_order_of_the_cells_covers_the_same_pairs() {
    let cells = scattered(50, 4, 5);
    let mut order: Vec<(i32, i32)> = cells.clone();
    order.sort();
    order.dedup();
    let forward = pairs_in_order(&cells, &order);
    order.reverse();
    let backward = pairs_in_order(&cells, &order);
    assert_eq!(sorted(forward), scan_pairs(&cells));
    assert_eq!(sorted(backward), scan_pairs(&cells));
}

#[test]
fn overlapping_circles_are_found_through_the_grid() {
    // Circles of diameter 4 at scattered positions: the pairs that overlap
    // among the grid's candidates are the pairs that overlap at all.
    let diameter = 4.0f32;
    let mut state = 9u64;
    let mut positions: Vec<(f32, f32)> = Vec::new();
    for _ in 0..300 {
        state = state.wrapping_mul(6364136223846793005).wrapping_add(1442695040888963407);
        let x = ((state >> 40) % 6000) as f32 / 100.0 - 30.0;
        state = state.wrapping_mul(6364136223846793005).wrapping_add(1442695040888963407);
        let y = ((state >> 40) % 6000) as f32 / 100.0 - 30.0;
        positions.push((x, y));
    }
    let overlap = |i: usize, j: usize| {
        let dx = positions[i].0 - positions[j].0;
        let dy = positions[i].1 - positions[j].1;
        dx * dx + dy * dy < diameter * diameter
    };
    let cells: Vec<(i32, i32)> = positions
        .iter()
        .map(|p| ((p.0 / diameter).floor() as i32, (p.1 / diameter).floor() as i32))
        .collect();
    let mut through_grid: Vec<(usize, usize)> =
        collision_pairs(&cells).into_iter().filter(|p| overlap(p.0, p.1)).collect();
    through_grid.sort();
    let mut brute_force = Vec::new();
    for i in 0..positions.len() {
        for j in i + 1..positions.len() {
            if overlap(i, j) {
                brute_force.push((i, j));
            }
        }
    }
    assert!(!brute_force.is_empty());
    assert_eq!(through_grid, brute_force);
}
