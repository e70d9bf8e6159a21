use swarm_sim::config::{Config, ConfigurationError, MAX_PLAYERS, SPACING};
use swarm_sim::layout::{block_layout, cursor_start, CURSOR_OFFSET};
use swarm_sim::grid::Point;

fn default_world() -> Config {
    Config {
        world_width: 1600,
        world_height: 896,
        cell_size: 8,
        player_count: 8,
        particles_per_player: 960,
    }
}

#[test]
fn the_default_world_is_valid() {
    assert_eq!(default_world().validate(), Ok(()));
}

#[test]
fn constants_of_the_layout() {
    assert_eq!(MAX_PLAYERS, 8);
    assert_eq!(SPACING, 10);
    assert_eq!(CURSOR_OFFSET, 200);
}

#[test]
fn zero_players_are_refused() {
    let c = Config { player_count: 0, ..default_world() };
    assert_eq!(c.validate(), Err(ConfigurationError::NoPlayers));
}

#[test]
fn nine_players_are_refused() {
    let c = Config { player_count: 9, ..default_world() };
    assert_eq!(c.validate(), Err(ConfigurationError::TooManyPlayers));
}

#[test]
fn zero_particles_are_refused() {
    let c = Config { particles_per_player: 0, ..default_world() };
    assert_eq!(c.validate(), Err(ConfigurationError::NoParticles));
}

#[test]
fn a_world_without_extent_is_refused() {
    let c = Config { world_width: 0, ..default_world() };
    assert_eq!(c.validate(), Err(ConfigurationError::NonPositiveWorld));
    let c = Config { world_height: -896, ..default_world() };
    assert_eq!(c.validate(), Err(ConfigurationError::NonPositiveWorld));
}

#[test]
fn a_cell_that_does_not_divide_the_world_is_refused() {
    let c = Config { world_width: 100, world_height: 100, particles_per_player: 1, ..default_world() };
    assert_eq!(c.validate(), Err(ConfigurationError::CellSizeMismatch));
    let c = Config { world_height: 900, ..default_world() };
    assert_eq!(c.validate(), Err(ConfigurationError::CellSizeMismatch));
    let c = Config { cell_size: 0, ..default_world() };
    assert_eq!(c.validate(), Err(ConfigurationError::CellSizeMismatch));
    let c = Config { cell_size: -8, ..default_world() };
    assert_eq!(c.validate(), Err(ConfigurationError::CellSizeMismatch));
}

#[test]
fn too_many_cells_are_refused() {
    let c = Config {
        world_width: 1 << 20,
        world_height: 1 << 20,
        cell_size: 1,
        player_count: 1,
        particles_per_player: 1,
    };
    assert_eq!(c.validate(), Err(ConfigurationError::TooManyCells));
}

#[test]
fn more_particles_than_places_are_refused() {
    let c = Config { particles_per_player: 961, ..default_world() };
    assert_eq!(c.validate(), Err(ConfigurationError::TooManyParticles));
    let c = Config { world_width: 4, world_height: 4, cell_size: 4, player_count: 1, particles_per_player: 1 };
    assert_eq!(c.validate(), Err(ConfigurationError::TooManyParticles));
}

#[test]
fn the_first_fault_is_named() {
    let c = Config {
        world_width: 0,
        world_height: 0,
        cell_size: 0,
        player_count: 0,
        particles_per_player: 0,
    };
    assert_eq!(c.validate(), Err(ConfigurationError::NoPlayers));
    let c = Config { player_count: 1, ..c };
    assert_eq!(c.validate(), Err(ConfigurationError::NoParticles));
    let c = Config { particles_per_player: 1, ..c };
    assert_eq!(c.validate(), Err(ConfigurationError::NonPositiveWorld));
}

#[test]
fn layout_has_thirty_two_columns_of_thirty_rows() {
    let c = default_world();
    assert_eq!(c.layout_columns(), 32);
    assert_eq!(c.layout_rows(), 30);
}

#[test]
fn layout_fills_a_block_column_by_column() {
    let c = default_world();
    let block = block_layout(&c, 0);
    assert_eq!(block.len(), 960);
    assert_eq!(block[0], Point { x: 0, y: 0 });
    assert_eq!(block[1], Point { x: 0, y: 10 });
    assert_eq!(block[29], Point { x: 0, y: 290 });
    assert_eq!(block[30], Point { x: 10, y: 0 });
    assert_eq!(block[31], Point { x: 10, y: 10 });
    assert_eq!(block[959], Point { x: 310, y: 290 });
}

#[test]
fn layout_puts_each_player_into_its_block() {
    let c = default_world();
    assert_eq!(block_layout(&c, 1)[0], Point { x: 400, y: 0 });
    assert_eq!(block_layout(&c, 3)[31], Point { x: 1210, y: 10 });
    assert_eq!(block_layout(&c, 4)[0], Point { x: 0, y: 448 });
    assert_eq!(block_layout(&c, 7)[959], Point { x: 1510, y: 738 });
}

#[test]
fn cursors_start_beside_the_first_particle() {
    let c = default_world();
    assert_eq!(cursor_start(&c, 0), (200, 200));
    assert_eq!(cursor_start(&c, 1), (600, 200));
    assert_eq!(cursor_start(&c, 6), (1000, 648));
}
