use game_of_life::engine::{compute_adjacent_positions, count_adjacent_cells, GameEngine};
use game_of_life::position::Position;

#[test]
fn engine_count_neighbours() {
    let adjacent_positions = vec![Position::new(1, 0), Position::new(0, -1)];
    let cell_positions = vec![
        Position::new(1, 0),
        Position::new(0, -1),
        Position::new(1, 2),
    ];
    assert_eq!(
        count_adjacent_cells(&adjacent_positions, &cell_positions),
        2
    )
}

#[test]
fn engine_cell_dies_if_less_than_2_neighbours() {
    let position = Position::new(0, 0);
    let cell_positions = vec![Position::new(1, 0)];
    assert!(!GameEngine::new().survives(&position, &cell_positions))
}

#[test]
fn engine_cell_dies_if_more_than_3_neighbours() {
    let position = Position::new(0, 0);
    let cell_positions = vec![
        Position::new(-1, 0),
        Position::new(1, 1),
        Position::new(0, -1),
        Position::new(-1, -1),
    ];
    assert!(!GameEngine::new().survives(&position, &cell_positions))
}

#[test]
fn engine_cell_lives_if_2_neighbours() {
    let position = Position::new(0, 0);
    let cell_positions = vec![Position::new(-1, 0), Position::new(1, 0)];
    assert!(GameEngine::new().survives(&position, &cell_positions))
}

#[test]
fn engine_cell_lives_if_3_neighbours() {
    let position = Position::new(0, 0);
    let cell_positions = vec![
        Position::new(-1, 0),
        Position::new(1, 0),
        Position::new(1, 1),
    ];
    assert!(GameEngine::new().survives(&position, &cell_positions))
}

#[test]
fn returns_adjacent_positions() {
    let position = Position::new(1, 1);
    let expected = vec![
        Position::new(0, 0),
        Position::new(0, 1),
        Position::new(0, 2),
        Position::new(1, 0),
        Position::new(1, 2),
        Position::new(2, 0),
        Position::new(2, 1),
        Position::new(2, 2),
    ];
    assert_eq!(compute_adjacent_positions(&position), expected)
}

#[test]
fn engine_no_cells_resurrect_if_less_than_3_cells_share_a_common_neighbour() {
    let cells = vec![Position::new(0, 0), Position::new(1, 0)];
    assert!(GameEngine::new().resurrect_cells(&cells).is_empty())
}

#[test]
fn engine_cells_resurrect_if_3_cells_share_a_common_neighbour() {
    let cells = vec![
        Position::new(0, 0),
        Position::new(1, 0),
        Position::new(0, 1),
    ];
    assert_eq!(
        GameEngine::new().resurrect_cells(&cells),
        vec![Position::new(1, 1)]
    )
}

#[test]
fn engine_no_cells_resurrect_if_more_than_3_cells_share_a_common_neighbour() {
    let cells = vec![
        Position::new(0, 0),
        Position::new(1, 0),
        Position::new(0, 1),
        Position::new(1, 2),
    ];
    assert!(GameEngine::new().resurrect_cells(&cells).is_empty())
}

#[test]
fn engine_runs_generation() {
    let cells = vec![
        Position::new(-1, 0),
        Position::new(0, 0),
        Position::new(1, 0),
    ];
    let mut actual = GameEngine::new().run_generation(&cells);
    actual.sort();
    let mut expected = vec![
        Position::new(0, -1),
        Position::new(0, 0),
        Position::new(0, 1),
    ];
    expected.sort();
    assert_eq!(actual, expected)
}
