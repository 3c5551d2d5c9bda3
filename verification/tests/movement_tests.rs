use trait_ac::grid::Grid;
use trait_ac::claims::bid_source;
use trait_ac::claims::pack_bid;
use trait_ac::claims::place_bid;
use trait_ac::movement::MovementRegistry;
use trait_ac::neighborhood::Neighborhood;
use trait_ac::policy::Movement;
use trait_ac::policy::Movements;
use trait_ac::walk::ResolveState;

fn build_test_grid() -> Grid<f32> {
    let mut grid = Grid::new_with_density(3, 3, 9, 0.0f32, |_, _| true, |_, _, _| 0.0f32).unwrap();
    for r in 0..3 {
        for c in 0..3 {
            for index in 0..9 {
                grid.set_cell_trait(r, c, index, 0.5);
            }
        }
    }
    grid
}

fn full_mask() -> Vec<Vec<u8>> {
    vec![vec![1, 1, 1], vec![1, 1, 1], vec![1, 1, 1]]
}

/// A grid whose agents sit on the given cells; channel 0 of an agent is
/// its starting cell's flat index plus one, channel 1 ten times that.
fn grid_with_agents(width: usize, height: usize, agents: &[(usize, usize)]) -> Grid<f32> {
    let agents: Vec<(usize, usize)> = agents.to_vec();
    Grid::new_with_density(
        width,
        height,
        2,
        0.0f32,
        |row, col| agents.contains(&(row, col)),
        |t, row, col| {
            let tag = (row * width + col + 1) as f32;
            if t == 0 {
                tag
            } else {
                10.0 * tag
            }
        },
    )
    .unwrap()
}

/// The policies that the library brings along; the others stay.
fn evaluate(movement: Movement, row: usize, col: usize, nb: &Neighborhood, grid: &Grid<f32>) -> (isize, isize) {
    Movements::builtin(movement, row, col, nb, grid).unwrap_or((0, 0))
}

fn empty_like(grid: &Grid<f32>) -> Grid<f32> {
    Grid::new_with_density(grid.width, grid.height, grid.num_traits(), 0.0f32, |_, _| false, |_, _, _| 0.0f32).unwrap()
}

#[test]
fn test_static_movement() {
    let grid = build_test_grid();
    let neighborhood_mvt = Neighborhood::new(3, 3, 1, 1, full_mask()).unwrap();
    let mv = Movements::static_movement(1, 1, &neighborhood_mvt, &grid);
    assert_eq!(mv, (0, 0), "Static movement should not move");
}

#[test]
fn test_random_movement_with_full_mask() {
    let grid = build_test_grid();
    let neighborhood_mvt = Neighborhood::new(3, 3, 1, 1, full_mask()).unwrap();
    for _ in 0..10 {
        let mv = Movements::random_movement(1, 1, &neighborhood_mvt, &grid);
        let dr = mv.0 + neighborhood_mvt.center_row as isize;
        let dc = mv.1 + neighborhood_mvt.center_col as isize;
        assert!(dr >= 0 && dr < 3 && dc >= 0 && dc < 3, "Random movement must stay within neighborhood_mvt");
    }
}

#[test]
fn test_movement_registry_static() {
    let grid = build_test_grid();
    let neighborhood_mvt = Neighborhood::new(3, 3, 1, 1, full_mask()).unwrap();
    let mut registry = MovementRegistry::new(3, 3);
    let mut new_cells = empty_like(&grid);
    registry.apply_movement(&evaluate, &neighborhood_mvt, &grid, &mut new_cells);
    // All cells should remain in place
    for r in 0..3 {
        for c in 0..3 {
            assert_eq!(new_cells.is_cell_empty(r, c), 0);
            assert_eq!(registry.intentions[r * 3 + c], r * 3 + c);
            for index in 0..9 {
                assert_eq!(new_cells.get_cell_trait(r, c, index), 0.5);
            }
        }
    }
}

#[test]
fn a_static_full_grid_stays_put_and_nothing_is_contested() {
    let mut grid = Grid::new_with_density(3, 3, 2, 0.0f32, |_, _| true, |t, row, col| (t * 9 + row * 3 + col) as f32)
        .unwrap();
    grid.set_cell_trait(2, 2, 1, 0.75);
    let neighborhood_mvt = Neighborhood::new(3, 3, 1, 1, full_mask()).unwrap();
    let mut registry = MovementRegistry::custom(3, 3, Movement::Static);
    let mut next = empty_like(&grid);
    registry.apply_movement(&evaluate, &neighborhood_mvt, &grid, &mut next);
    assert_eq!(next.is_empty, grid.is_empty);
    assert_eq!(next.traits, grid.traits);
    assert_eq!(next.count_filled_cells(), 9);
    assert_eq!(registry.contested_cells(), 0);
    assert_eq!(registry.claims, vec![0u64; 9]);
    for i in 0..9 {
        assert_eq!(registry.proposals[i], i);
        assert_eq!(registry.intentions[i], i);
        assert_eq!(registry.states[i], ResolveState::Resolved(true));
        assert_eq!(registry.reserved[i], Some(i));
    }
}

#[test]
fn two_agents_that_want_each_others_cell_swap() {
    let grid = grid_with_agents(3, 3, &[(0, 0), (0, 1)]);
    let neighborhood_mvt = Neighborhood::new(3, 3, 1, 1, full_mask()).unwrap();
    let policy = |_movement: Movement, row: usize, col: usize, _nb: &Neighborhood, _grid: &Grid<f32>| -> (isize, isize) {
        match (row, col) {
            (0, 0) => (0, 1),
            (0, 1) => (0, -1),
            _ => (0, 0),
        }
    };
    let mut registry = MovementRegistry::new(3, 3);
    let mut next = empty_like(&grid);
    registry.apply_movement(&policy, &neighborhood_mvt, &grid, &mut next);
    assert_eq!(registry.states[0], ResolveState::Resolved(true));
    assert_eq!(registry.states[1], ResolveState::Resolved(true));
    assert_eq!(registry.reserved[0], Some(1));
    assert_eq!(registry.reserved[1], Some(0));
    assert_eq!(next.is_empty, vec![0u8, 0, 1, 1, 1, 1, 1, 1, 1]);
    assert_eq!(next.get_cell_trait(0, 0, 0), 2.0);
    assert_eq!(next.get_cell_trait(0, 0, 1), 20.0);
    assert_eq!(next.get_cell_trait(0, 1, 0), 1.0);
    assert_eq!(next.get_cell_trait(0, 1, 1), 10.0);
    assert_eq!(next.count_filled_cells(), grid.count_filled_cells());
    assert_eq!(registry.contested_cells(), 0);
}

#[test]
fn a_ring_of_four_rotates_as_a_whole() {
    // The agents on the corners of a two-by-two block each want the next
    // corner, clockwise.
    let grid = grid_with_agents(2, 2, &[(0, 0), (0, 1), (1, 0), (1, 1)]);
    let neighborhood_mvt = Neighborhood::new(3, 3, 1, 1, full_mask()).unwrap();
    let policy = |_movement: Movement, row: usize, col: usize, _nb: &Neighborhood, _grid: &Grid<f32>| -> (isize, isize) {
        match (row, col) {
            (0, 0) => (0, 1),
            (0, 1) => (1, 0),
            (1, 1) => (0, -1),
            _ => (-1, 0),
        }
    };
    let mut registry = MovementRegistry::new(2, 2);
    let mut next = empty_like(&grid);
    registry.apply_movement(&policy, &neighborhood_mvt, &grid, &mut next);
    assert_eq!(next.is_empty, vec![0u8; 4]);
    assert_eq!(next.traits[0], vec![3.0f32, 1.0, 4.0, 2.0]);
    assert_eq!(next.traits[1], vec![30.0f32, 10.0, 40.0, 20.0]);
    for i in 0..4 {
        assert_eq!(registry.states[i], ResolveState::Resolved(true));
    }
}

#[test]
fn a_chain_into_a_vacant_cell_shifts_by_one() {
    let grid = grid_with_agents(5, 1, &[(0, 0), (0, 1), (0, 2)]);
    let neighborhood_mvt = Neighborhood::new(3, 3, 1, 1, full_mask()).unwrap();
    let mut registry = MovementRegistry::new(5, 1);
    let mut next = empty_like(&grid);
    registry.apply_movement(
        &|_movement: Movement, _row: usize, _col: usize, _nb: &Neighborhood, _grid: &Grid<f32>| -> (isize, isize) { (0, 1) },
        &neighborhood_mvt,
        &grid,
        &mut next,
    );
    assert_eq!(next.is_empty, vec![1u8, 0, 0, 0, 1]);
    assert_eq!(next.traits[0], vec![0.0f32, 1.0, 2.0, 3.0, 0.0]);
    assert_eq!(next.traits[1], vec![0.0f32, 10.0, 20.0, 30.0, 0.0]);
    assert_eq!(registry.states[0], ResolveState::Resolved(true));
    assert_eq!(registry.states[1], ResolveState::Resolved(true));
    assert_eq!(registry.states[2], ResolveState::Resolved(true));
    assert_eq!(registry.states[3], ResolveState::Empty);
    assert_eq!(registry.states[4], ResolveState::Empty);
    assert_eq!(next.count_filled_cells(), 3);
}

#[test]
fn a_chain_behind_an_agent_that_stays_does_not_move() {
    let grid = grid_with_agents(5, 1, &[(0, 0), (0, 1), (0, 2)]);
    let neighborhood_mvt = Neighborhood::new(3, 3, 1, 1, full_mask()).unwrap();
    let policy = |_movement: Movement, _row: usize, col: usize, _nb: &Neighborhood, _grid: &Grid<f32>| -> (isize, isize) {
        if col == 2 {
            (0, 0)
        } else {
            (0, 1)
        }
    };
    let mut registry = MovementRegistry::new(5, 1);
    let mut next = empty_like(&grid);
    registry.apply_movement(&policy, &neighborhood_mvt, &grid, &mut next);
    assert_eq!(next.is_empty, grid.is_empty);
    assert_eq!(next.traits, grid.traits);
    assert_eq!(registry.states[0], ResolveState::Resolved(false));
    assert_eq!(registry.states[1], ResolveState::Resolved(false));
    assert_eq!(registry.states[2], ResolveState::Resolved(true));
}

#[test]
fn of_two_agents_that_want_one_cell_exactly_one_gets_it() {
    for _ in 0..50 {
        let grid = grid_with_agents(3, 1, &[(0, 0), (0, 2)]);
        let neighborhood_mvt = Neighborhood::new(3, 3, 1, 1, full_mask()).unwrap();
        let policy = |_movement: Movement, _row: usize, col: usize, _nb: &Neighborhood, _grid: &Grid<f32>| -> (isize, isize) {
            if col == 0 {
                (0, 1)
            } else {
                (0, -1)
            }
        };
        let mut registry = MovementRegistry::new(3, 1);
        let mut next = empty_like(&grid);
        registry.apply_movement(&policy, &neighborhood_mvt, &grid, &mut next);
        assert_eq!(registry.proposals, vec![1usize, 1, 1]);
        let winner = bid_source(registry.claims[1]);
        assert!(winner == 0 || winner == 2);
        let loser = 2 - winner;
        assert_eq!(registry.intentions[winner], 1);
        assert_eq!(registry.intentions[loser], loser);
        assert_eq!(registry.contested_cells(), 1);
        assert_eq!(next.count_filled_cells(), 2);
        assert_eq!(next.is_cell_empty(0, 1), 0);
        assert_eq!(next.is_cell_empty(0, loser), 0);
        assert_eq!(next.is_cell_empty(0, winner), 1);
        assert_eq!(next.get_cell_trait(0, 1, 0), (winner + 1) as f32);
        assert_eq!(next.get_cell_trait(0, loser, 0), (loser + 1) as f32);
        assert_eq!(next.get_cell_trait(0, winner, 0), 0.0);
    }
}

#[test]
fn a_step_that_the_window_does_not_admit_is_a_stay() {
    let grid = grid_with_agents(4, 4, &[(1, 1)]);
    let cross = vec![vec![0u8, 1, 0], vec![1, 1, 1], vec![0, 1, 0]];
    let neighborhood_mvt = Neighborhood::new(3, 3, 1, 1, cross).unwrap();
    for delta in [(1isize, 1isize), (2, 0), (0, -2), (-1, -1), (5, 5)] {
        let mut registry = MovementRegistry::new(4, 4);
        let mut next = empty_like(&grid);
        registry.apply_movement(
            &move |_movement: Movement, _row: usize, _col: usize, _nb: &Neighborhood, _grid: &Grid<f32>| -> (isize, isize) { delta },
            &neighborhood_mvt,
            &grid,
            &mut next,
        );
        assert_eq!(registry.proposals[5], 5);
        assert_eq!(next.is_empty, grid.is_empty);
    }
    let mut registry = MovementRegistry::new(4, 4);
    let mut next = empty_like(&grid);
    registry.apply_movement(
        &|_movement: Movement, _row: usize, _col: usize, _nb: &Neighborhood, _grid: &Grid<f32>| -> (isize, isize) { (-1, 0) },
        &neighborhood_mvt,
        &grid,
        &mut next,
    );
    assert_eq!(registry.proposals[5], 1);
    assert_eq!(next.is_cell_empty(0, 1), 0);
    assert_eq!(next.is_cell_empty(1, 1), 1);
    assert_eq!(next.get_cell_trait(0, 1, 1), 60.0);
}

#[test]
fn a_step_over_the_edge_comes_back_on_the_other_side() {
    let grid = grid_with_agents(3, 3, &[(0, 0)]);
    let neighborhood_mvt = Neighborhood::new(3, 3, 1, 1, full_mask()).unwrap();
    let mut registry = MovementRegistry::new(3, 3);
    let mut next = empty_like(&grid);
    registry.apply_movement(
        &|_movement: Movement, _row: usize, _col: usize, _nb: &Neighborhood, _grid: &Grid<f32>| -> (isize, isize) { (-1, -1) },
        &neighborhood_mvt,
        &grid,
        &mut next,
    );
    assert_eq!(registry.intentions[0], 8);
    assert_eq!(next.is_cell_empty(2, 2), 0);
    assert_eq!(next.is_cell_empty(0, 0), 1);
    assert_eq!(next.get_cell_trait(2, 2, 0), 1.0);
}

#[test]
fn random_walks_keep_every_agent() {
    for density in [0.2f32, 0.5, 0.9, 1.0] {
        let mut grid = Grid::new_with_density(
            12,
            9,
            3,
            0.0f32,
            |row, col| ((row * 31 + col * 17) % 10) as f32 / 10.0 < density,
            |t, row, col| (t * 1000 + row * 12 + col) as f32,
        )
        .unwrap();
        let neighborhood_mvt = Neighborhood::new(3, 3, 1, 1, full_mask()).unwrap();
        let mut registry = MovementRegistry::custom(12, 9, Movement::Random);
        let mut next = empty_like(&grid);
        for _ in 0..20 {
            let before = grid.count_filled_cells();
            let mut tags_before: Vec<i64> = (0..108).filter(|&i| grid.is_empty[i] == 0).map(|i| grid.traits[0][i] as i64).collect();
            registry.apply_movement(&evaluate, &neighborhood_mvt, &grid, &mut next);
            assert_eq!(next.count_filled_cells(), before);
            let mut tags_after: Vec<i64> = (0..108).filter(|&i| next.is_empty[i] == 0).map(|i| next.traits[0][i] as i64).collect();
            tags_before.sort();
            tags_after.sort();
            assert_eq!(tags_before, tags_after);
            for i in 0..108 {
                if next.is_empty[i] == 0 {
                    assert_eq!(next.traits[1][i], next.traits[0][i] + 1000.0);
                    assert_eq!(next.traits[2][i], next.traits[0][i] + 2000.0);
                } else {
                    assert_eq!(next.traits[0][i], 0.0);
                }
                let mut claimants = 0;
                for j in 0..108 {
                    if j != i && registry.intentions[j] == i {
                        claimants += 1;
                    }
                }
                assert!(claimants <= 1);
                if grid.is_empty[i] == 0 && registry.intentions[i] == i {
                    assert_eq!(registry.states[i], ResolveState::Resolved(true));
                    assert_eq!(next.is_empty[i], 0);
                    assert_eq!(next.traits[0][i], grid.traits[0][i]);
                }
            }
            grid.update_grid(&mut next);
        }
    }
}

#[test]
fn only_window_policies_are_built_in() {
    let grid = build_test_grid();
    let neighborhood_mvt = Neighborhood::new(3, 3, 1, 1, full_mask()).unwrap();
    assert_eq!(Movements::builtin(Movement::Static, 1, 1, &neighborhood_mvt, &grid), Some((0, 0)));
    for movement in [Movement::Random, Movement::LevyFlight] {
        let (dr, dc) = Movements::builtin(movement, 1, 1, &neighborhood_mvt, &grid).unwrap();
        assert!(neighborhood_mvt.admits_offset(dr, dc));
    }
    for movement in [Movement::Gradient, Movement::AvoidCrowding, Movement::Chemotaxis, Movement::MultiTrait] {
        assert_eq!(Movements::builtin(movement, 1, 1, &neighborhood_mvt, &grid), None);
    }
}

#[test]
fn levy_flights_stay_in_the_window() {
    let grid = build_test_grid();
    let ring = vec![vec![1u8, 1, 1], vec![1, 0, 1], vec![1, 1, 1]];
    let neighborhood_mvt = Neighborhood::new(3, 3, 1, 1, ring).unwrap();
    for _ in 0..200 {
        let mv = Movements::levy_flight(1, 1, &neighborhood_mvt, &grid);
        assert!(neighborhood_mvt.admits_offset(mv.0, mv.1));
        assert_ne!(mv, (0, 0));
        let mv = Movements::random_movement(0, 2, &neighborhood_mvt, &grid);
        assert!(neighborhood_mvt.admits_offset(mv.0, mv.1));
    }
}

#[test]
fn a_window_with_one_position_leaves_no_choice() {
    let grid = build_test_grid();
    let one = vec![vec![0u8, 0, 0], vec![0, 0, 0], vec![0, 1, 0]];
    let neighborhood_mvt = Neighborhood::new(3, 3, 1, 1, one).unwrap();
    for _ in 0..20 {
        assert_eq!(Movements::random_movement(1, 1, &neighborhood_mvt, &grid), (1, 0));
        assert_eq!(Movements::levy_flight(1, 1, &neighborhood_mvt, &grid), (1, 0));
    }
    // A window put together by hand may have no position at all.
    let none = vec![vec![0u8, 0, 0], vec![0, 0, 0], vec![0, 0, 0]];
    let neighborhood_mvt = Neighborhood { width: 3, height: 3, center_row: 1, center_col: 1, mask: none };
    assert!(neighborhood_mvt.is_well_formed());
    assert_eq!(Movements::random_movement(1, 1, &neighborhood_mvt, &grid), (0, 0));
    assert_eq!(Movements::levy_flight(1, 1, &neighborhood_mvt, &grid), (0, 0));
}

#[test]
fn bids_order_by_priority_and_then_by_source() {
    assert_eq!(pack_bid(0, 0), 0);
    assert_eq!(pack_bid(1, 0), 1u64 << 32);
    assert_eq!(pack_bid(0xFFFF_FFFF, 7), 0xFFFF_FFFF_0000_0007);
    assert_eq!(pack_bid(3, 0xFFFF_FFFF), 0x0000_0003_FFFF_FFFF);
    assert_eq!(bid_source(0x0000_0003_FFFF_FFFF), 0xFFFF_FFFF);
    assert_eq!(bid_source(pack_bid(12345, 678)), 678);
    assert!(pack_bid(2, 1) > pack_bid(1, 1_000_000));
    assert!(pack_bid(5, 9) > pack_bid(5, 8));
    let mut claims = vec![0u64; 4];
    place_bid(&mut claims, 2, 10, 1);
    assert_eq!(claims, vec![0, 0, (10u64 << 32) | 1, 0]);
    place_bid(&mut claims, 2, 9, 3);
    assert_eq!(bid_source(claims[2]), 1);
    place_bid(&mut claims, 2, 10, 3);
    assert_eq!(bid_source(claims[2]), 3);
    place_bid(&mut claims, 2, 10, 0);
    assert_eq!(claims, vec![0, 0, (10u64 << 32) | 3, 0]);
}

#[test]
fn the_registry_is_wiped_and_resized_between_passes() {
    let mut registry = MovementRegistry::custom(2, 2, Movement::Gradient);
    assert_eq!(registry.get_movement_name(), "gradient");
    assert!(registry.is_stored_function(Movement::Gradient));
    assert!(!registry.is_stored_function(Movement::Static));
    assert_eq!(registry.claims.len(), 4);
    assert_eq!(registry.states, vec![ResolveState::Unvisited; 4]);
    registry.claims[1] = 77;
    registry.reserved[2] = Some(1);
    registry.states[3] = ResolveState::Resolved(false);
    registry.prepare(2, 2);
    assert_eq!(registry.claims, vec![0u64; 4]);
    assert_eq!(registry.reserved, vec![None; 4]);
    assert_eq!(registry.states, vec![ResolveState::Unvisited; 4]);
    registry.prepare(3, 2);
    assert_eq!(registry.claims.len(), 6);
    assert_eq!(registry.proposals.len(), 6);
    assert_eq!(registry.intentions.len(), 6);
    assert_eq!(registry.reserved, vec![None; 6]);
    assert_eq!(registry.states, vec![ResolveState::Unvisited; 6]);
    registry.set_movement_function(Movement::LevyFlight);
    assert_eq!(registry.claims.len(), 6);
    assert_eq!(registry.get_movement_name(), "levy flight");
    assert!(registry.is_stored_function(Movement::LevyFlight));
    let fresh = MovementRegistry::new(2, 3);
    assert_eq!(fresh.get_movement_name(), "static");
    assert_eq!(fresh.states, vec![ResolveState::Unvisited; 6]);
}

#[test]
fn the_walk_can_be_driven_cell_by_cell() {
    // Four cells in a row: the agents on 0 and 1 step right, the agent on 2
    // stays, cell 3 is vacant.
    let mut registry = MovementRegistry::new(4, 1);
    registry.intentions = vec![1, 2, 2, 3];
    registry.states[3] = ResolveState::Empty;
    assert!(!registry.resolve_move(0, 0, 4));
    assert_eq!(
        registry.states,
        vec![
            ResolveState::Resolved(false),
            ResolveState::Resolved(false),
            ResolveState::Resolved(true),
            ResolveState::Empty
        ]
    );
    assert!(registry.resolve_move(0, 2, 4));
    assert!(registry.resolve_move(0, 3, 4));
    assert_eq!(registry.reserved[2], Some(2));
    assert_eq!(registry.reserved[3], None);
}

#[test]
fn movement_names_round_trip() {
    let names = Movement::names();
    assert_eq!(
        names,
        vec!["static", "random", "gradient", "avoid crowding", "chemotaxis", "levy flight", "multi trait"]
    );
    for movement in Movement::all() {
        assert_eq!(Movement::from_name(movement.name()), Some(movement));
    }
    assert_eq!(Movement::from_name("levy flight"), Some(Movement::LevyFlight));
    assert_eq!(Movement::from_name("teleport"), None);
    assert_eq!(Movement::from_name(""), None);
    let registry = MovementRegistry::new(1, 1);
    assert_eq!(registry.get_all_names(), names);
    assert_eq!(registry.get_movement_by_name("chemotaxis"), Some(Movement::Chemotaxis));
    assert_eq!(registry.get_movement_by_name("Chemotaxis"), None);
    assert_eq!(registry.get_name_for_movement(Movement::AvoidCrowding), "avoid crowding");
}

/// Whether the agent on cell `i` is held back: following the intents from
/// it leads, through occupied cells, to an agent that stays.
fn held_back(is_empty: &[u8], intentions: &[usize], i: usize) -> bool {
    let mut cur = i;
    for _ in 0..=intentions.len() {
        let target = intentions[cur];
        if target == cur {
            return true;
        }
        if is_empty[target] != 0 {
            return false;
        }
        cur = target;
    }
    false
}

#[test]
fn the_outcome_is_the_one_that_the_intents_call_for() {
    let neighborhood_mvt = Neighborhood::new(3, 3, 1, 1, full_mask()).unwrap();
    for seed in 0..40usize {
        let (width, height) = (3 + seed % 5, 2 + seed % 4);
        let cells = width * height;
        let mut grid = Grid::new_with_density(
            width,
            height,
            1,
            0.0f32,
            |row, col| (row * 7 + col * 13 + seed * 5) % 4 != 0,
            |_t, row, col| (row * width + col + 1) as f32,
        )
        .unwrap();
        let mut next = empty_like(&grid);
        let mut registry = MovementRegistry::custom(width, height, Movement::Random);
        for _ in 0..25 {
            registry.apply_movement(&evaluate, &neighborhood_mvt, &grid, &mut next);
            let mut expected_flags = vec![1u8; cells];
            let mut expected_values = vec![0.0f32; cells];
            for i in 0..cells {
                if grid.is_empty[i] != 0 {
                    assert_eq!(registry.intentions[i], i);
                    assert_eq!(registry.states[i], ResolveState::Empty);
                    continue;
                }
                let blocked = held_back(&grid.is_empty, &registry.intentions, i);
                let stays = registry.intentions[i] == i;
                assert_eq!(registry.states[i], ResolveState::Resolved(stays || !blocked));
                let destination = if blocked { i } else { registry.intentions[i] };
                assert_eq!(expected_flags[destination], 1, "two agents on one cell");
                expected_flags[destination] = 0;
                expected_values[destination] = grid.traits[0][i];
            }
            assert_eq!(next.is_empty, expected_flags);
            assert_eq!(next.traits[0], expected_values);
            grid.update_grid(&mut next);
        }
    }
}

#[test]
fn a_grid_of_one_cell_has_nowhere_to_go() {
    let grid = grid_with_agents(1, 1, &[(0, 0)]);
    let neighborhood_mvt = Neighborhood::new(3, 3, 1, 1, full_mask()).unwrap();
    for delta in [(0isize, 1isize), (1, 1), (-1, 0), (0, 0)] {
        let mut registry = MovementRegistry::new(1, 1);
        let mut next = empty_like(&grid);
        registry.apply_movement(
            &move |_movement: Movement, _row: usize, _col: usize, _nb: &Neighborhood, _grid: &Grid<f32>| -> (isize, isize) {
                delta
            },
            &neighborhood_mvt,
            &grid,
            &mut next,
        );
        assert_eq!(registry.proposals, vec![0usize]);
        assert_eq!(registry.claims, vec![0u64]);
        assert_eq!(next.is_empty, vec![0u8]);
        assert_eq!(next.traits[0], vec![1.0f32]);
        assert_eq!(registry.contested_cells(), 0);
    }
}

#[test]
fn a_window_wider_than_the_grid_wraps_more_than_once() {
    let grid = grid_with_agents(3, 2, &[(0, 0)]);
    let wide = Neighborhood::new(9, 7, 3, 4, vec![vec![1u8; 9]; 7]).unwrap();
    let mut registry = MovementRegistry::new(3, 2);
    let mut next = empty_like(&grid);
    registry.apply_movement(
        &|_movement: Movement, _row: usize, _col: usize, _nb: &Neighborhood, _grid: &Grid<f32>| -> (isize, isize) {
            (3, -4)
        },
        &wide,
        &grid,
        &mut next,
    );
    // Three rows down on two rows is one row down; four columns to the
    // left on three columns is one column to the left.
    assert_eq!(registry.proposals[0], 5);
    assert_eq!(next.is_empty, vec![1u8, 1, 1, 1, 1, 0]);
    let seen = wide.occupied_neighbors(1, 2, &grid, true);
    assert_eq!(seen.len(), 12);
    assert!(seen.iter().all(|neighbor| (neighbor.row, neighbor.col) == (0, 0)));
    assert_eq!((seen[0].dr, seen[0].dc), (-3, -2));
}

#[test]
fn the_last_pass_can_be_asked_for_its_contested_cells() {
    // Four agents around a vacant centre all ask for it; two more ask for
    // the vacant corner, each across an edge of the grid.
    let grid = grid_with_agents(3, 3, &[(0, 1), (1, 0), (1, 2), (2, 1), (0, 2), (2, 0)]);
    let neighborhood_mvt = Neighborhood::new(3, 3, 1, 1, full_mask()).unwrap();
    let policy = |_movement: Movement, row: usize, col: usize, _nb: &Neighborhood, _grid: &Grid<f32>| -> (isize, isize) {
        match (row, col) {
            (0, 1) => (1, 0),
            (1, 0) => (0, 1),
            (1, 2) => (0, -1),
            (2, 1) => (-1, 0),
            (0, 2) => (0, 1),
            _ => (1, 0),
        }
    };
    for _ in 0..30 {
        let mut registry = MovementRegistry::new(3, 3);
        let mut next = empty_like(&grid);
        registry.apply_movement(&policy, &neighborhood_mvt, &grid, &mut next);
        assert_eq!(registry.proposals, vec![0usize, 4, 0, 4, 4, 4, 0, 4, 8]);
        assert_eq!(registry.contested_cells(), 2);
        assert_eq!(next.count_filled_cells(), 6);
        assert_eq!(next.is_cell_empty(1, 1), 0);
        assert_eq!(next.is_cell_empty(0, 0), 0);
        assert_eq!(next.is_cell_empty(2, 2), 1);
        assert_eq!(registry.intentions.iter().enumerate().filter(|&(i, &target)| target == 4 && i != 4).count(), 1);
        assert_eq!(registry.intentions.iter().enumerate().filter(|&(i, &target)| target == 0 && i != 0).count(), 1);
    }
}

#[test]
fn the_moves_of_a_window_are_listed_row_by_row() {
    let cross = Neighborhood::new(3, 3, 1, 1, vec![vec![0u8, 1, 0], vec![1, 1, 1], vec![0, 1, 0]]).unwrap();
    let moves = Movements::valid_moves(&cross);
    assert_eq!(moves, vec![(-1, 0), (0, -1), (0, 0), (0, 1), (1, 0)]);
    for pick in 0..5 {
        assert_eq!(Movements::pick_move(&moves, pick), moves[pick]);
    }
    let corner = Neighborhood::new(2, 3, 2, 0, vec![vec![1u8, 1], vec![0, 0], vec![0, 1]]).unwrap();
    assert_eq!(Movements::valid_moves(&corner), vec![(-2, 0), (-2, 1), (0, 1)]);
    let none = Neighborhood { width: 2, height: 1, center_row: 0, center_col: 1, mask: vec![vec![0u8, 0]] };
    assert_eq!(Movements::valid_moves(&none), Vec::new());
    assert_eq!(Movements::pick_move(&Vec::new(), 0), (0, 0));
    assert_eq!(Movements::pick_move(&Vec::new(), 7), (0, 0));
}

#[test]
fn a_walk_changes_nothing_but_its_chain() {
    // Six cells in a row.  The agent on 0 wants 1, the agent on 1 stays;
    // the agent on 2 wants 3, the agent on 3 wants 4, cell 4 is vacant; the
    // agent on 5 wants cell 4 as well and has been sent home.
    let mut registry = MovementRegistry::new(6, 1);
    registry.intentions = vec![1, 1, 3, 4, 4, 5];
    registry.states[4] = ResolveState::Empty;
    let untouched = registry.states.clone();

    // A stayer is settled at once, and nothing else changes.
    assert!(registry.resolve_move(0, 5, 6));
    let mut states = untouched.clone();
    states[5] = ResolveState::Resolved(true);
    let mut reserved = vec![None; 6];
    reserved[5] = Some(5);
    assert_eq!(registry.states, states);
    assert_eq!(registry.reserved, reserved);

    // A settled cell is answered from the records.
    assert!(registry.resolve_move(0, 5, 6));
    assert_eq!(registry.states, states);
    assert_eq!(registry.reserved, reserved);

    // A mover behind a stayer that has not been looked at: both are
    // settled, and the stayer holds its cell.
    assert!(!registry.resolve_move(0, 0, 6));
    states[0] = ResolveState::Resolved(false);
    states[1] = ResolveState::Resolved(true);
    reserved[1] = Some(1);
    assert_eq!(registry.states, states);
    assert_eq!(registry.reserved, reserved);

    // A chain into a vacant cell, started in the middle and then from its
    // tail: each walk settles its own cells only.
    assert!(registry.resolve_move(0, 3, 6));
    states[3] = ResolveState::Resolved(true);
    reserved[4] = Some(3);
    assert_eq!(registry.states, states);
    assert_eq!(registry.reserved, reserved);
    assert!(registry.resolve_move(0, 2, 6));
    states[2] = ResolveState::Resolved(true);
    reserved[3] = Some(2);
    assert_eq!(registry.states, states);
    assert_eq!(registry.reserved, reserved);
    assert_eq!(registry.intentions, vec![1, 1, 3, 4, 4, 5]);
}

#[test]
fn a_mover_whose_target_is_taken_leaves_the_reservation_alone() {
    let mut registry = MovementRegistry::new(3, 1);
    registry.intentions = vec![1, 1, 2];
    assert!(registry.resolve_move(0, 1, 3));
    let reserved = registry.reserved.clone();
    assert_eq!(reserved, vec![None, Some(1), None]);
    assert!(!registry.resolve_move(0, 0, 3));
    assert_eq!(registry.reserved, reserved);
    assert_eq!(
        registry.states,
        vec![ResolveState::Resolved(false), ResolveState::Resolved(true), ResolveState::Unvisited]
    );
}
