use trait_ac::config::SimulationConfig;
use trait_ac::error::ConfigError;
use trait_ac::grid::Grid;
use trait_ac::movement::MovementRegistry;
use trait_ac::neighborhood::Neighbor;
use trait_ac::neighborhood::Neighborhood;
use trait_ac::policy::Movement;
use trait_ac::rules::Rule;
use trait_ac::rules::Rules;
use trait_ac::rules::RulesRegistry;
use trait_ac::tick::step_simulation;
use trait_ac::tick::Simulation;
use trait_ac::tick::try_step_simulation;

/// The rules by name: the static rule from the library, averaging and the
/// game of life as below, and the value of the right neighbour for every
/// other name.
fn evaluate(rule: Rule, trait_index: usize, row: usize, col: usize, neighborhood: &Neighborhood, grid: &Grid<f32>) -> f32 {
    if let Some(value) = Rules::builtin(rule, trait_index, row, col, neighborhood, grid) {
        return value;
    }
    match rule {
        Rule::Average => average(trait_index, row, col, neighborhood, grid),
        Rule::Conway => conway(trait_index, row, col, neighborhood, grid),
        _ => from_the_right(trait_index, row, col, neighborhood, grid),
    }
}

fn stay(_movement: Movement, _row: usize, _col: usize, _nb: &Neighborhood, _grid: &Grid<f32>) -> (isize, isize) {
    (0, 0)
}

/// The mean of the channel over the agents in the window, the centre
/// included, clamped to the unit interval.
fn average(trait_index: usize, row: usize, col: usize, neighborhood: &Neighborhood, grid: &Grid<f32>) -> f32 {
    let mut sum = 0.0f32;
    let mut count = 0;
    for seen in neighborhood.occupied_neighbors(row, col, grid, true) {
        sum += grid.get_cell_trait(seen.row, seen.col, trait_index);
        count += 1;
    }
    if count == 0 {
        grid.get_cell_trait(row, col, trait_index)
    } else {
        (sum / count as f32).clamp(0.0, 1.0)
    }
}

/// The game of life on one channel, alive above one half.
fn conway(trait_index: usize, row: usize, col: usize, neighborhood: &Neighborhood, grid: &Grid<f32>) -> f32 {
    let mut alive_neighbors = 0;
    for seen in neighborhood.occupied_neighbors(row, col, grid, false) {
        if grid.get_cell_trait(seen.row, seen.col, trait_index) > 0.5 {
            alive_neighbors += 1;
        }
    }
    if Rules::conway_next(grid.get_cell_trait(row, col, trait_index) > 0.5, alive_neighbors) {
        1.0
    } else {
        0.0
    }
}

/// The value of the cell one column to the right.
fn from_the_right(trait_index: usize, row: usize, col: usize, _neighborhood: &Neighborhood, grid: &Grid<f32>) -> f32 {
    grid.get_wrapped_cell_trait(row as isize, col as isize + 1, trait_index)
}

fn full_window() -> Neighborhood {
    Neighborhood::new(3, 3, 1, 1, vec![vec![1u8; 3]; 3]).unwrap()
}

fn pseudo_random_grid(width: usize, height: usize) -> Grid<f32> {
    Grid::new_with_density(width, height, 9, 0.0f32, |_, _| true, |t, row, col| {
        ((t * 37 + row * 11 + col * 7) % 100) as f32 / 100.0
    })
    .unwrap()
}

fn blank_like(grid: &Grid<f32>) -> Grid<f32> {
    Grid::new_with_density(grid.width, grid.height, grid.num_traits(), 0.0f32, |_, _| false, |_, _, _| 0.0f32).unwrap()
}

#[test]
fn test_rules_registry_apply_default() {
    let grid = pseudo_random_grid(3, 3);
    let neighborhood = full_window();
    let rules_registry = RulesRegistry::default();
    let result = rules_registry.apply_rule(&evaluate, 0, 1, 1, &neighborhood, &grid);
    assert!(
        (0.0..=1.0).contains(&result),
        "Default rules registry should return value between 0.0 and 1.0"
    );
}

#[test]
fn test_rules_registry_apply_custom() {
    let grid = pseudo_random_grid(3, 3);
    let neighborhood = full_window();
    let rules_registry = RulesRegistry::custom(vec![
        Rule::Static,
        Rule::Conway,
        Rule::Average,
        Rule::Average,
        Rule::Average,
        Rule::Average,
        Rule::Average,
        Rule::Average,
        Rule::Average,
    ]);
    let result = rules_registry.apply_rule(&evaluate, 1, 1, 1, &neighborhood, &grid);
    assert!(
        result == 0.0 || result == 1.0,
        "Custom rules registry with Conway rule should produce 0.0 or 1.0"
    );
}

#[test]
fn averaging_a_full_window_gives_the_exact_mean() {
    let values = [0.1f32, 0.2, 0.3, 0.4, 0.5, 0.6, 0.7, 0.8, 0.9];
    let grid = Grid::new_with_density(3, 3, 1, 0.0f32, |_, _| true, |_, row, col| values[row * 3 + col]).unwrap();
    let neighborhood = full_window();
    let rules_registry = RulesRegistry::custom(vec![Rule::Average]);
    let mut next = blank_like(&grid);
    rules_registry.apply_rules(&evaluate, &vec![1u8], &neighborhood, &grid, &mut next);
    // On a three-by-three torus every cell sees all nine cells; the window
    // is read row by row, starting one up and one to the left of the cell.
    for row in 0..3usize {
        for col in 0..3usize {
            let mut sum = 0.0f32;
            for dr in [2usize, 0, 1] {
                for dc in [2usize, 0, 1] {
                    sum += values[((row + dr) % 3) * 3 + (col + dc) % 3];
                }
            }
            let mean = sum / 9.0;
            assert_eq!(next.get_cell_trait(row, col, 0), mean);
            assert!((mean - 0.5).abs() < 1e-6);
        }
    }
}

#[test]
fn averaging_clamps_to_the_unit_interval() {
    let high = Grid::new_with_density(3, 3, 1, 0.0f32, |_, _| true, |_, _, _| 1.75f32).unwrap();
    let low = Grid::new_with_density(3, 3, 1, 0.0f32, |_, _| true, |_, _, _| -0.25f32).unwrap();
    let neighborhood = full_window();
    let rules_registry = RulesRegistry::custom(vec![Rule::Average]);
    let mut next = blank_like(&high);
    rules_registry.apply_rules(&evaluate, &vec![1u8], &neighborhood, &high, &mut next);
    assert_eq!(next.traits[0], vec![1.0f32; 9]);
    rules_registry.apply_rules(&evaluate, &vec![1u8], &neighborhood, &low, &mut next);
    assert_eq!(next.traits[0], vec![0.0f32; 9]);
}

#[test]
fn the_update_reads_the_old_grid_only() {
    let grid = Grid::new_with_density(4, 1, 2, 0.0f32, |_, col| col != 3, |t, _, col| (10 * t + col + 1) as f32).unwrap();
    let neighborhood = full_window();
    let rules_registry = RulesRegistry::custom(vec![Rule::Diffusion, Rule::Diffusion]);
    let mut next = blank_like(&grid);
    next.set_flat(1, 2, 99.0);
    rules_registry.apply_rules(&evaluate, &vec![1u8, 0], &neighborhood, &grid, &mut next);
    // Channel 0 is active: every agent gets its right neighbour's old value,
    // the vacant cell keeps its own.  Channel 1 is inactive and copied.
    assert_eq!(next.traits[0], vec![2.0f32, 3.0, 0.0, 0.0]);
    assert_eq!(next.traits[1], vec![11.0f32, 12.0, 13.0, 0.0]);
    assert_eq!(next.is_empty, vec![0u8, 0, 0, 1]);
    assert_eq!(grid.traits[0], vec![1.0f32, 2.0, 3.0, 0.0]);
}

#[test]
fn the_static_rule_keeps_the_value() {
    let grid = pseudo_random_grid(4, 3);
    let neighborhood = full_window();
    for t in 0..9 {
        assert_eq!(Rules::static_rule(t, 2, 1, &neighborhood, &grid), grid.traits[t][9]);
    }
    let mut rules_registry = RulesRegistry::default();
    assert_eq!(rules_registry.rules, vec![Rule::Average; 9]);
    rules_registry.set_rule(4, Rule::Static);
    assert_eq!(rules_registry.get_rule_name(4), "static");
    assert_eq!(rules_registry.get_rule_name(3), "average");
    assert!(rules_registry.is_stored_function(4, Rule::Static));
    assert!(!rules_registry.is_stored_function(3, Rule::Static));
    assert_eq!(rules_registry.apply_rule(&evaluate, 4, 2, 1, &neighborhood, &grid), grid.traits[4][9]);
    assert_ne!(rules_registry.apply_rule(&evaluate, 3, 2, 1, &neighborhood, &grid), grid.traits[3][9]);
    assert_eq!(Rules::builtin(Rule::Static, 4, 2, 1, &neighborhood, &grid), Some(grid.traits[4][9]));
    assert_eq!(Rules::builtin(Rule::Majority, 4, 2, 1, &neighborhood, &grid), None);
}

#[test]
fn a_tick_updates_and_then_moves() {
    let mut grid = Grid::new_with_density(4, 1, 1, 0.0f32, |_, col| col < 2, |_, _, col| (col + 1) as f32).unwrap();
    let mut next = blank_like(&grid);
    let neighborhood = full_window();
    let rules_registry = RulesRegistry::custom(vec![Rule::Diffusion]);
    let mut movement_registry = MovementRegistry::new(4, 1);
    step_simulation(
        &rules_registry,
        &evaluate,
        &vec![1u8],
        &neighborhood,
        &mut movement_registry,
        &|_movement: Movement, _row: usize, _col: usize, _nb: &Neighborhood, _grid: &Grid<f32>| -> (isize, isize) {
            (0, 1)
        },
        &neighborhood,
        &mut grid,
        &mut next,
    );
    // After the update the agents hold 2 and 0; then both step right.
    assert_eq!(next.traits[0], vec![2.0f32, 0.0, 0.0, 0.0]);
    assert_eq!(next.is_empty, vec![0u8, 0, 1, 1]);
    assert_eq!(grid.is_empty, vec![1u8, 0, 0, 1]);
    assert_eq!(grid.traits[0], vec![0.0f32, 2.0, 0.0, 0.0]);
    assert_eq!(grid.count_filled_cells(), 2);
}

#[test]
fn a_tick_with_static_policies_changes_nothing() {
    let mut grid = pseudo_random_grid(3, 3);
    let start_traits = grid.traits.clone();
    let mut next = blank_like(&grid);
    let neighborhood = full_window();
    let rules_registry = RulesRegistry::custom(vec![Rule::Static; 9]);
    let mut movement_registry = MovementRegistry::new(3, 3);
    for _ in 0..3 {
        step_simulation(
            &rules_registry,
            &evaluate,
            &vec![1u8; 9],
            &neighborhood,
            &mut movement_registry,
            &stay,
            &neighborhood,
            &mut grid,
            &mut next,
        );
        assert_eq!(grid.traits, start_traits);
        assert_eq!(grid.count_filled_cells(), 9);
        assert_eq!(movement_registry.contested_cells(), 0);
    }
}

#[test]
fn neighbours_come_row_by_row_without_vacant_cells() {
    let grid = Grid::new_with_density(4, 4, 1, 0.0f32, |row, col| !(row == 0 && col == 1), |_, _, _| 0.5f32).unwrap();
    let plus = Neighborhood::new(3, 3, 1, 1, vec![vec![0u8, 1, 0], vec![1, 1, 1], vec![0, 1, 0]]).unwrap();
    let around = plus.occupied_neighbors(1, 1, &grid, false);
    assert_eq!(
        around,
        vec![
            Neighbor { dr: 0, dc: -1, row: 1, col: 0 },
            Neighbor { dr: 0, dc: 1, row: 1, col: 2 },
            Neighbor { dr: 1, dc: 0, row: 2, col: 1 },
        ]
    );
    let with_center = plus.occupied_neighbors(0, 0, &grid, true);
    assert_eq!(
        with_center,
        vec![
            Neighbor { dr: -1, dc: 0, row: 3, col: 0 },
            Neighbor { dr: 0, dc: -1, row: 0, col: 3 },
            Neighbor { dr: 0, dc: 0, row: 0, col: 0 },
            Neighbor { dr: 1, dc: 0, row: 1, col: 0 },
        ]
    );
    let corner = Neighborhood::new(2, 2, 0, 0, vec![vec![1u8, 1], vec![1, 1]]).unwrap();
    let seen = corner.occupied_neighbors(3, 3, &grid, false);
    assert_eq!(
        seen,
        vec![
            Neighbor { dr: 0, dc: 1, row: 3, col: 0 },
            Neighbor { dr: 1, dc: 0, row: 0, col: 3 },
            Neighbor { dr: 1, dc: 1, row: 0, col: 0 },
        ]
    );
}

#[test]
fn life_and_death_follow_the_neighbour_count() {
    for n in 0..9usize {
        assert_eq!(Rules::conway_next(true, n), n == 2 || n == 3);
        assert_eq!(Rules::conway_next(false, n), n == 3);
    }
}

#[test]
fn the_fullest_bin_is_the_last_of_the_highest() {
    assert_eq!(Rules::majority_bin(&vec![0, 0, 0, 0, 0]), 4);
    assert_eq!(Rules::majority_bin(&vec![3, 1, 3, 2, 0]), 2);
    assert_eq!(Rules::majority_bin(&vec![5, 1, 3, 2, 0]), 0);
    assert_eq!(Rules::majority_bin(&vec![1, 2, 3, 4, 5]), 4);
    assert_eq!(Rules::majority_bin(&vec![7]), 0);
    assert_eq!(Rules::majority_bin(&Vec::new()), 0);
}

#[test]
fn rule_names_round_trip() {
    let names = Rule::names();
    assert_eq!(
        names,
        vec!["static", "average", "conway", "diffusion", "maximum", "minimum", "weighted_average", "majority"]
    );
    for rule in Rule::all() {
        assert_eq!(Rule::from_name(rule.name()), Some(rule));
    }
    assert_eq!(RulesRegistry::get_rule_by_name("weighted_average"), Some(Rule::WeightedAverage));
    assert_eq!(RulesRegistry::get_rule_by_name("weighted average"), None);
    assert_eq!(RulesRegistry::get_name_for_rule(Rule::Majority), "majority");
    assert_eq!(RulesRegistry::get_all_names(), names);
}

fn sound_config() -> SimulationConfig {
    SimulationConfig {
        grid_width: 500,
        grid_height: 400,
        grid_width_min: 3,
        grid_width_max: 5000,
        grid_height_min: 3,
        grid_height_max: 5000,
        num_traits: 9,
        active_mask: vec![1, 1, 0, 0, 0, 0, 0, 0, 0],
        initial_selected_trait: 0,
        range_count: 9,
        rule_count: 9,
        neighborhood_traits_mask: vec![vec![1, 1, 1], vec![1, 1, 1], vec![1, 1, 1]],
        neighborhood_mvt_mask: vec![vec![0, 1, 0], vec![1, 1, 1], vec![0, 1, 0]],
    }
}

#[test]
fn a_sound_configuration_passes() {
    let config = sound_config();
    assert_eq!(config.validate(), Ok(()));
    assert_eq!(config.check_grid(), Ok(()));
    assert_eq!(config.check_num_traits(), Ok(()));
    assert_eq!(config.check_traits(), Ok(()));
    assert_eq!(config.check_masks(), Ok(()));
    let mut longer = sound_config();
    longer.active_mask = vec![1, 0, 0, 0, 0, 0, 0, 0, 1, 0, 0];
    assert_eq!(longer.validate(), Ok(()));
}

#[test]
fn every_configuration_error_has_its_input() {
    let mut c = sound_config();
    c.grid_width = 0;
    c.grid_width_min = 0;
    assert_eq!(c.validate(), Err(ConfigError::ZeroSizedGrid));
    let mut c = sound_config();
    c.grid_height = 0;
    assert_eq!(c.validate(), Err(ConfigError::ZeroSizedGrid));
    let mut c = sound_config();
    c.grid_width = 2;
    assert_eq!(c.validate(), Err(ConfigError::GridWidthOutOfBounds));
    c.grid_width = 5001;
    assert_eq!(c.validate(), Err(ConfigError::GridWidthOutOfBounds));
    let mut c = sound_config();
    c.grid_height = 5001;
    assert_eq!(c.validate(), Err(ConfigError::GridHeightOutOfBounds));
    c.grid_width = 1;
    assert_eq!(c.validate(), Err(ConfigError::GridWidthOutOfBounds));
    let mut c = sound_config();
    c.num_traits = 0;
    assert_eq!(c.validate(), Err(ConfigError::NoTraits));
    let mut c = sound_config();
    c.active_mask = Vec::new();
    assert_eq!(c.validate(), Err(ConfigError::EmptyActiveMask));
    let mut c = sound_config();
    c.active_mask = vec![1, 0, 0, 0, 0, 0, 0, 0, 0, 1];
    assert_eq!(c.validate(), Err(ConfigError::ActiveTraitOutOfBounds));
    let mut c = sound_config();
    c.num_traits = 5;
    c.active_mask = vec![1, 0, 0, 0, 0, 1, 0, 0, 0];
    assert_eq!(c.validate(), Err(ConfigError::ActiveTraitOutOfBounds));
    let mut c = sound_config();
    c.range_count = 0;
    assert_eq!(c.validate(), Err(ConfigError::NoRanges));
    c.rule_count = 0;
    assert_eq!(c.validate(), Err(ConfigError::NoRanges));
    let mut c = sound_config();
    c.rule_count = 0;
    assert_eq!(c.validate(), Err(ConfigError::NoRules));
    let mut c = sound_config();
    c.initial_selected_trait = 9;
    assert_eq!(c.validate(), Err(ConfigError::SelectedTraitOutOfBounds));
    let mut c = sound_config();
    c.range_count = 8;
    assert_eq!(c.validate(), Err(ConfigError::ChannelCountMismatch));
    let mut c = sound_config();
    c.rule_count = 10;
    assert_eq!(c.validate(), Err(ConfigError::ChannelCountMismatch));
    let mut c = sound_config();
    c.active_mask = vec![1, 1, 0];
    assert_eq!(c.validate(), Err(ConfigError::ChannelCountMismatch));
    let mut c = sound_config();
    c.neighborhood_traits_mask = Vec::new();
    assert_eq!(c.validate(), Err(ConfigError::EmptyMask));
    let mut c = sound_config();
    c.neighborhood_mvt_mask = vec![Vec::new(), Vec::new()];
    assert_eq!(c.validate(), Err(ConfigError::EmptyMask));
    let mut c = sound_config();
    c.neighborhood_mvt_mask = vec![vec![0, 0, 0], vec![0, 0, 0], vec![0, 0, 0]];
    assert_eq!(c.validate(), Err(ConfigError::EmptyMask));
    let mut c = sound_config();
    c.neighborhood_traits_mask = vec![vec![0, 0, 0], vec![0, 0, 0]];
    assert_eq!(c.validate(), Err(ConfigError::EmptyMask));
    c.range_count = 8;
    assert_eq!(c.validate(), Err(ConfigError::ChannelCountMismatch));
    let mut c = sound_config();
    c.neighborhood_traits_mask = vec![vec![1, 1, 1], vec![1, 1], vec![1, 1, 1]];
    assert_eq!(c.validate(), Err(ConfigError::MaskShapeMismatch));
    assert_eq!(c.check_masks(), Err(ConfigError::MaskShapeMismatch));
    assert_eq!(ConfigError::NoRules.message(), "rules must not be empty");
    assert_eq!(ConfigError::GridWidthOutOfBounds.message(), "grid_width is out of bounds");
    assert_eq!(ConfigError::SelectedTraitOutOfBounds.message(), "initial_selected_trait is out of bounds");
}

#[test]
fn a_tick_is_refused_when_its_inputs_do_not_fit() {
    let neighborhood = full_window();
    let rules_registry = RulesRegistry::custom(vec![Rule::Static; 9]);
    let mask = vec![1u8; 9];
    let mut movement_registry = MovementRegistry::new(3, 3);
    let mut run = |grid: &mut Grid<f32>, next: &mut Grid<f32>, rules: &RulesRegistry, mask: &Vec<u8>, window: &Neighborhood| {
        try_step_simulation(rules, &evaluate, mask, window, &mut movement_registry, &stay, window, grid, next)
    };
    let mut grid = pseudo_random_grid(3, 3);
    let mut next = blank_like(&grid);
    assert_eq!(run(&mut grid, &mut next, &rules_registry, &mask, &neighborhood), Ok(()));

    let mut short = pseudo_random_grid(3, 3);
    short.traits[4].pop();
    assert_eq!(run(&mut short, &mut next, &rules_registry, &mask, &neighborhood), Err(ConfigError::MalformedGrid));
    assert_eq!(short.traits[4].len(), 8);

    let mut wide = pseudo_random_grid(4, 3);
    assert_eq!(run(&mut wide, &mut next, &rules_registry, &mask, &neighborhood), Err(ConfigError::BufferShapeMismatch));

    let mut crooked = full_window();
    crooked.mask[0].pop();
    assert_eq!(run(&mut grid, &mut next, &rules_registry, &mask, &crooked), Err(ConfigError::MalformedWindow));

    let few_rules = RulesRegistry::custom(vec![Rule::Static; 8]);
    assert_eq!(run(&mut grid, &mut next, &few_rules, &mask, &neighborhood), Err(ConfigError::ChannelCountMismatch));
    let long_mask = vec![1u8; 10];
    assert_eq!(run(&mut grid, &mut next, &rules_registry, &long_mask, &neighborhood), Err(ConfigError::ChannelCountMismatch));

    let before = grid.traits.clone();
    assert_eq!(run(&mut grid, &mut next, &rules_registry, &mask, &neighborhood), Ok(()));
    assert_eq!(grid.traits, before);
    assert_eq!(ConfigError::MalformedGrid.message(), "grid arrays do not match the grid's size");
    assert_eq!(ConfigError::BufferShapeMismatch.message(), "the two grid buffers differ in shape");
    assert_eq!(ConfigError::MalformedWindow.message(), "neighborhood mask, size and center do not fit together");
}

#[test]
fn a_pass_is_refused_when_its_inputs_do_not_fit() {
    let neighborhood = full_window();
    let grid = pseudo_random_grid(3, 3);
    let mut next = blank_like(&grid);
    let mut registry = MovementRegistry::new(3, 3);
    assert_eq!(registry.try_apply_movement(&stay, &neighborhood, &grid, &mut next), Ok(()));
    assert_eq!(next.traits, grid.traits);
    let mut other = pseudo_random_grid(3, 4);
    assert_eq!(
        registry.try_apply_movement(&stay, &neighborhood, &grid, &mut other),
        Err(ConfigError::BufferShapeMismatch)
    );
    other.is_empty.pop();
    assert_eq!(registry.try_apply_movement(&stay, &neighborhood, &grid, &mut other), Err(ConfigError::MalformedGrid));
    let mut off_center = full_window();
    off_center.center_col = 3;
    assert_eq!(
        registry.try_apply_movement(&stay, &off_center, &grid, &mut next),
        Err(ConfigError::MalformedWindow)
    );
    assert_eq!(MovementRegistry::check_pass(&neighborhood, &grid, &next), Ok(()));
}

#[test]
fn a_run_counts_its_ticks_and_keeps_its_agents() {
    let grid = Grid::new_with_density(5, 4, 2, 0.0f32, |row, col| (row + 2 * col) % 3 != 0, |t, row, col| {
        (t * 100 + row * 5 + col) as f32 / 200.0
    })
    .unwrap();
    let agents = grid.count_filled_cells();
    let next = blank_like(&grid);
    let mut run = Simulation::new(
        grid,
        next,
        RulesRegistry::custom(vec![Rule::Average, Rule::Static]),
        Movement::Random,
        vec![1u8, 0],
        full_window(),
        full_window(),
    )
    .unwrap();
    assert_eq!(run.timestep, 0);
    assert_eq!(run.movement_registry.get_movement_name(), "random");
    let wander = |movement: Movement, row: usize, col: usize, nb: &Neighborhood, grid: &Grid<f32>| -> (isize, isize) {
        trait_ac::policy::Movements::builtin(movement, row, col, nb, grid).unwrap_or((0, 0))
    };
    for tick in 1..=12usize {
        run.step_simulation(&evaluate, &wander);
        assert_eq!(run.timestep, tick);
        assert_eq!(run.grid.count_filled_cells(), agents);
        assert_eq!((run.grid.width, run.grid.height), (5, 4));
        assert_eq!(run.next_grid.count_filled_cells(), agents);
    }
}

#[test]
fn a_run_is_not_put_together_from_parts_that_do_not_fit() {
    let parts = || (pseudo_random_grid(3, 3), blank_like(&pseudo_random_grid(3, 3)));
    let (grid, next) = parts();
    assert!(Simulation::new(
        grid,
        next,
        RulesRegistry::default(),
        Movement::Static,
        vec![1u8; 9],
        full_window(),
        full_window()
    )
    .is_ok());
    let (grid, _) = parts();
    let other = blank_like(&pseudo_random_grid(4, 3));
    assert!(matches!(
        Simulation::new(grid, other, RulesRegistry::default(), Movement::Static, vec![1u8; 9], full_window(), full_window()),
        Err(ConfigError::BufferShapeMismatch)
    ));
    let (grid, next) = parts();
    assert!(matches!(
        Simulation::new(
            grid,
            next,
            RulesRegistry::custom(vec![Rule::Static; 3]),
            Movement::Static,
            vec![1u8; 9],
            full_window(),
            full_window()
        ),
        Err(ConfigError::ChannelCountMismatch)
    ));
    let (grid, next) = parts();
    let mut crooked = full_window();
    crooked.center_row = 9;
    assert!(matches!(
        Simulation::new(grid, next, RulesRegistry::default(), Movement::Static, vec![1u8; 9], crooked, full_window()),
        Err(ConfigError::MalformedWindow)
    ));
    let (mut grid, next) = parts();
    grid.is_empty.push(0);
    assert!(matches!(
        Simulation::new(grid, next, RulesRegistry::default(), Movement::Static, vec![1u8; 9], full_window(), full_window()),
        Err(ConfigError::MalformedGrid)
    ));
}
