use rand::Rng;
use trait_ac::error::ConfigError;
use trait_ac::grid::Grid;
use trait_ac::neighborhood::has_set_entry;
use trait_ac::neighborhood::is_rectangular;
use trait_ac::neighborhood::Neighborhood;

fn random_grid(width: usize, height: usize, density: f32) -> Grid<f32> {
    let density = density.clamp(0.0, 1.0);
    Grid::new_with_density(
        width,
        height,
        9,
        0.0f32,
        |_row, _col| rand::thread_rng().gen_range(0.0f32..=1.0) < density,
        |_t, _row, _col| rand::thread_rng().gen_range(0.0f32..=1.0),
    )
    .unwrap()
}

fn full_random_grid(width: usize, height: usize) -> Grid<f32> {
    Grid::new(width, height, 9, 0.0f32, |_t, _row, _col| rand::thread_rng().gen_range(0.0f32..=1.0)).unwrap()
}

fn fill_percentage(grid: &Grid<f32>) -> f32 {
    let total = grid.width * grid.height;
    if total == 0 {
        0.0
    } else {
        grid.count_filled_cells() as f32 / total as f32
    }
}

#[test]
fn grid_test_grid_creation() {
    let grid = full_random_grid(5, 5);
    assert_eq!(grid.width, 5);
    assert_eq!(grid.height, 5);
    assert_eq!(grid.traits[0].len(), 5 * 5);
    assert_eq!(grid.num_traits(), 9);
    assert_eq!(grid.is_empty.len(), 25);
}

#[test]
fn grid_test_wrapping() {
    let grid = full_random_grid(5, 5);
    let pos = grid.get_position(-1, -1);
    assert_eq!(pos, (4, 4));
}

#[test]
fn test_grid_with_density() {
    let grid = random_grid(1000, 1000, 0.5);
    let fill_percentage = fill_percentage(&grid);
    assert!(fill_percentage >= 0.45 && fill_percentage <= 0.55);
}

#[test]
fn test_fully_empty_grid() {
    let grid = random_grid(5, 5, 0.0);
    assert_eq!(grid.count_filled_cells(), 0);
    assert_eq!(fill_percentage(&grid), 0.0);
}

#[test]
fn test_fully_filled_grid() {
    let grid = random_grid(5, 5, 1.0);
    assert_eq!(grid.count_filled_cells(), 25);
    assert_eq!(fill_percentage(&grid), 1.0);
}

#[test]
fn test_neighborhood_creation() {
    let mask = vec![vec![1u8, 1, 1], vec![1, 1, 1], vec![1, 1, 1]];
    let neighborhood = Neighborhood::new(3, 3, 1, 1, mask).unwrap();
    assert_eq!(neighborhood.width, 3);
    assert_eq!(neighborhood.height, 3);
    assert_eq!(neighborhood.center_row, 1);
    assert_eq!(neighborhood.center_col, 1);
}

#[test]
fn wrap_brings_both_edges_back_for_every_length() {
    let grid = random_grid(3, 2, 1.0);
    for n in 1usize..40 {
        assert_eq!(grid.wrap(-1, n), n - 1);
        assert_eq!(grid.wrap(n as isize, n), 0);
        assert_eq!(grid.wrap(0, n), 0);
        assert_eq!(grid.wrap(-(n as isize), n), 0);
        assert_eq!(grid.wrap(2 * n as isize + 1, n), 1 % n);
    }
    assert_eq!(grid.wrap(-7, 5), 3);
    assert_eq!(grid.wrap(-13, 5), 2);
    assert_eq!(grid.wrap(12, 5), 2);
    assert_eq!(grid.wrap(isize::MIN, 7), (isize::MIN).rem_euclid(7) as usize);
    assert_eq!(grid.wrap(isize::MAX, 7), (isize::MAX).rem_euclid(7) as usize);
    assert_eq!(grid.wrap(-1, usize::MAX), usize::MAX - 1);
}

#[test]
fn positions_wrap_on_both_axes() {
    let grid = random_grid(4, 3, 1.0);
    assert_eq!(grid.get_position(3, 4), (0, 0));
    assert_eq!(grid.get_position(-4, -5), (2, 3));
    assert_eq!(grid.offset_position(2, 3, 1, 1), (0, 0));
    assert_eq!(grid.offset_position(0, 0, -1, -1), (2, 3));
    assert_eq!(grid.offset_position(1, 2, -7, 9), (0, 3));
    assert_eq!(grid.idx(2, 3), 11);
    assert_eq!(grid.coords(11), (2, 3));
    assert_eq!(grid.coords(4), (1, 0));
}

#[test]
fn cells_are_read_and_written_by_row_and_column() {
    let mut grid = random_grid(4, 3, 0.0);
    assert_eq!(grid.is_cell_empty(1, 2), 1);
    assert_eq!(grid.get_cell_trait(1, 2, 4), 0.0);
    grid.set_cell_trait(1, 2, 4, 0.25);
    grid.set_empty(1, 2, false);
    assert_eq!(grid.is_cell_empty(1, 2), 0);
    assert_eq!(grid.get_cell_trait(1, 2, 4), 0.25);
    assert_eq!(grid.traits[4][6], 0.25);
    assert_eq!(grid.get_wrapped_cell_trait(-2, -2, 4), 0.25);
    assert_eq!(grid.get_wrapped_cell_trait(4, 6, 4), 0.25);
    assert_eq!(grid.is_wrapped_empty(-2, 2), 0);
    assert_eq!(grid.is_wrapped_empty(-2, 3), 1);
    assert_eq!(grid.count_filled_cells(), 1);
    grid.set_flat(0, 11, 0.5);
    assert_eq!(grid.get_cell_trait(2, 3, 0), 0.5);
    grid.set_empty(1, 2, true);
    assert_eq!(grid.count_filled_cells(), 0);
    let channel = grid.get_cell_trait_array(4);
    assert_eq!(channel.len(), 12);
    assert_eq!(channel[6], 0.25);
    assert_eq!(channel[5], 0.0);
}

#[test]
fn construction_follows_the_two_samplers() {
    let grid = Grid::new_with_density(
        3,
        2,
        2,
        -1.0f32,
        |row, col| (row + col) % 2 == 0,
        |t, row, col| (100 * t + 10 * row + col) as f32,
    )
    .unwrap();
    assert_eq!(grid.is_empty, vec![0u8, 1, 0, 1, 0, 1]);
    assert_eq!(grid.traits[0], vec![0.0f32, -1.0, 2.0, -1.0, 11.0, -1.0]);
    assert_eq!(grid.traits[1], vec![100.0f32, -1.0, 102.0, -1.0, 111.0, -1.0]);
    assert_eq!(grid.blank, -1.0);
    assert_eq!(grid.count_filled_cells(), 3);
}

#[test]
fn a_full_grid_has_an_agent_on_every_cell() {
    let grid = Grid::new(3, 2, 2, 9.0f32, |t, row, col| (100 * t + 10 * row + col) as f32).unwrap();
    assert_eq!(grid.is_empty, vec![0u8; 6]);
    assert_eq!(grid.traits[0], vec![0.0f32, 1.0, 2.0, 10.0, 11.0, 12.0]);
    assert_eq!(grid.traits[1], vec![100.0f32, 101.0, 102.0, 110.0, 111.0, 112.0]);
    assert_eq!(grid.blank, 9.0);
    assert!(matches!(Grid::new(0, 2, 2, 0.0f32, |_, _, _| 0.5f32), Err(ConfigError::ZeroSizedGrid)));
    assert!(matches!(Grid::new(2, usize::MAX, 2, 0.0f32, |_, _, _| 0.5f32), Err(ConfigError::GridTooLarge)));
    for _ in 0..20 {
        let random = full_random_grid(4, 4);
        assert_eq!(random.count_filled_cells(), 16);
        for t in 0..9 {
            for i in 0..16 {
                assert!((0.0..=1.0).contains(&random.traits[t][i]));
            }
        }
    }
}

#[test]
fn well_formedness_can_be_tested() {
    let mut grid = random_grid(4, 3, 0.5);
    assert!(grid.is_well_formed());
    grid.traits[2].pop();
    assert!(!grid.is_well_formed());
    grid.traits[2].push(0.0);
    assert!(grid.is_well_formed());
    grid.is_empty.push(1);
    assert!(!grid.is_well_formed());
    grid.is_empty.pop();
    grid.width = 0;
    assert!(!grid.is_well_formed());
    grid.width = 6;
    grid.height = 2;
    assert!(grid.is_well_formed());
    grid.width = usize::MAX;
    assert!(!grid.is_well_formed());
    let mut window = Neighborhood::new(3, 2, 1, 2, vec![vec![1u8, 0, 1], vec![0, 1, 0]]).unwrap();
    assert!(window.is_well_formed());
    window.center_row = 2;
    assert!(!window.is_well_formed());
    window.center_row = 0;
    window.mask[1].push(1);
    assert!(!window.is_well_formed());
    window.mask[1].pop();
    window.mask.push(vec![1, 1, 1]);
    assert!(!window.is_well_formed());
    window.height = 3;
    assert!(window.is_well_formed());
    window.width = 0;
    assert!(!window.is_well_formed());
}

#[test]
fn degenerate_grids_are_turned_down() {
    let zero_wide = Grid::new_with_density(0, 4, 9, 0.0f32, |_, _| true, |_, _, _| 0.5f32);
    assert!(matches!(zero_wide, Err(ConfigError::ZeroSizedGrid)));
    let zero_high = Grid::new_with_density(4, 0, 9, 0.0f32, |_, _| true, |_, _, _| 0.5f32);
    assert!(matches!(zero_high, Err(ConfigError::ZeroSizedGrid)));
    let huge = Grid::new_with_density(usize::MAX, 2, 9, 0.0f32, |_, _| true, |_, _, _| 0.5f32);
    assert!(matches!(huge, Err(ConfigError::GridTooLarge)));
    // More cells than the 32 bits of a bid can name.
    let many = Grid::new_with_density(65_536, 65_537, 9, 0.0f32, |_, _| true, |_, _, _| 0.5f32);
    assert!(matches!(many, Err(ConfigError::GridTooLarge)));
}

#[test]
fn randomize_redraws_agents_and_spares_vacant_cells() {
    let mut grid = Grid::new_with_density(2, 2, 3, 0.0f32, |row, _col| row == 0, |_, _, _| 0.5f32).unwrap();
    grid.randomize(|t, row, col| (t + row + col) as f32 + 0.125);
    assert_eq!(grid.is_empty, vec![0u8, 0, 1, 1]);
    assert_eq!(grid.traits[0], vec![0.125f32, 1.125, 0.0, 0.0]);
    assert_eq!(grid.traits[2], vec![2.125f32, 3.125, 0.0, 0.0]);
}

#[test]
fn buffers_are_exchanged_not_copied() {
    let mut a = Grid::new_with_density(2, 2, 1, 0.0f32, |_, _| true, |_, _, _| 0.25f32).unwrap();
    let mut b = Grid::new_with_density(2, 2, 1, 0.0f32, |_, _| false, |_, _, _| 0.75f32).unwrap();
    a.update_grid(&mut b);
    assert_eq!(a.count_filled_cells(), 0);
    assert_eq!(b.count_filled_cells(), 4);
    assert_eq!(a.traits[0], vec![0.0f32; 4]);
    assert_eq!(b.traits[0], vec![0.25f32; 4]);
}

#[test]
fn windows_are_validated_in_order() {
    let full = || vec![vec![1u8, 1, 1], vec![1, 1, 1], vec![1, 1, 1]];
    assert!(matches!(Neighborhood::new(0, 3, 0, 0, full()), Err(ConfigError::EmptyMask)));
    assert!(matches!(Neighborhood::new(3, 0, 0, 0, Vec::new()), Err(ConfigError::EmptyMask)));
    assert!(matches!(Neighborhood::new(usize::MAX, 3, 0, 0, full()), Err(ConfigError::WindowTooLarge)));
    assert!(matches!(Neighborhood::new(3, 2, 1, 1, full()), Err(ConfigError::MaskShapeMismatch)));
    assert!(matches!(Neighborhood::new(2, 3, 1, 1, full()), Err(ConfigError::MaskShapeMismatch)));
    let ragged = vec![vec![1u8, 1, 1], vec![1, 1], vec![1, 1, 1]];
    assert!(matches!(Neighborhood::new(3, 3, 1, 1, ragged), Err(ConfigError::MaskShapeMismatch)));
    let zeros = || vec![vec![0u8; 3]; 3];
    assert!(matches!(Neighborhood::new(3, 3, 1, 1, zeros()), Err(ConfigError::EmptyMask)));
    assert!(matches!(Neighborhood::new(3, 3, 5, 5, zeros()), Err(ConfigError::EmptyMask)));
    assert!(matches!(Neighborhood::new(3, 2, 1, 1, zeros()), Err(ConfigError::MaskShapeMismatch)));
    let one = vec![vec![0u8, 0, 0], vec![0, 0, 0], vec![0, 0, 2]];
    assert!(Neighborhood::new(3, 3, 1, 1, one).is_ok());
    assert!(matches!(Neighborhood::new(3, 3, 3, 1, full()), Err(ConfigError::CenterOutOfWindow)));
    assert!(matches!(Neighborhood::new(3, 3, 1, 3, full()), Err(ConfigError::CenterOutOfWindow)));
    assert!(Neighborhood::new(3, 3, 2, 0, full()).is_ok());
}

#[test]
fn window_positions_map_to_wrapped_cells() {
    let grid = random_grid(5, 4, 1.0);
    let mask = vec![vec![1u8, 0, 1], vec![0, 1, 0], vec![1, 1, 1]];
    let window = Neighborhood::new(3, 3, 1, 1, mask).unwrap();
    assert_eq!(window.get_grid_coords(1, 1, 2, 3, &grid), (2, 3));
    assert_eq!(window.get_grid_coords(0, 0, 0, 0, &grid), (3, 4));
    assert_eq!(window.get_grid_coords(2, 2, 3, 4, &grid), (0, 0));
    assert_eq!(window.get_grid_coords(0, 2, 1, 1, &grid), (0, 2));
    assert_eq!(window.is_valid(0, 0), 1);
    assert_eq!(window.is_valid(0, 1), 0);
    assert_eq!(window.is_valid(2, 1), 1);
    assert!(window.admits_offset(0, 0));
    assert!(window.admits_offset(-1, -1));
    assert!(!window.admits_offset(-1, 0));
    assert!(!window.admits_offset(0, 1));
    assert!(window.admits_offset(1, 1));
    assert!(!window.admits_offset(2, 0));
    assert!(!window.admits_offset(0, -2));
    assert!(!window.admits_offset(isize::MIN, 0));
    assert!(!window.admits_offset(0, isize::MAX));
}

#[test]
fn errors_carry_their_text() {
    assert_eq!(ConfigError::ZeroSizedGrid.message(), "grid width and height must be > 0");
    assert_eq!(ConfigError::EmptyMask.message(), "neighborhood mask must not be empty");
    assert_eq!(ConfigError::MaskShapeMismatch.message(), "neighborhood mask does not match its window");
    assert_eq!(ConfigError::GridTooLarge.message(), "grid has too many cells");
}

#[test]
fn a_mask_is_empty_when_no_entry_is_set() {
    assert!(!has_set_entry(&Vec::new()));
    assert!(!has_set_entry(&vec![Vec::new(), Vec::new()]));
    assert!(!has_set_entry(&vec![vec![0u8, 0], vec![0, 0]]));
    assert!(has_set_entry(&vec![vec![0u8, 0], vec![0, 1]]));
    assert!(has_set_entry(&vec![vec![7u8]]));
    assert!(has_set_entry(&vec![Vec::new(), vec![0u8, 0, 3]]));
    assert!(is_rectangular(&Vec::new()));
    assert!(is_rectangular(&vec![vec![0u8, 0], vec![0, 1]]));
    assert!(!is_rectangular(&vec![vec![0u8, 0], vec![0]]));
    assert!(!is_rectangular(&vec![Vec::new(), vec![0u8]]));
}
