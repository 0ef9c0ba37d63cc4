use game_of_life::cell::Cell;
use game_of_life::engine::{compute_adjacent_positions, count_live_neighbours, GameEngine};
use game_of_life::game;
use game_of_life::position::Position;
use game_of_life::state::{Action, State};

fn sorted(mut v: Vec<Position>) -> Vec<Position> {
    v.sort();
    v
}

#[test]
fn adjacency_has_eight_distinct_members_excluding_centre() {
    for &(x, y) in &[(0i32, 0i32), (-5, 7), (1000, -1000)] {
        let p = Position::new(x, y);
        let adjacent = compute_adjacent_positions(&p);
        assert_eq!(adjacent.len(), 8);
        assert!(!adjacent.contains(&p));
        let mut unique = adjacent.clone();
        unique.sort();
        unique.dedup();
        assert_eq!(unique.len(), 8);
    }
}

#[test]
fn advance_of_empty_is_empty() {
    let none: Vec<Position> = Vec::new();
    assert!(GameEngine::new().run_generation(&none).is_empty());
    let no_cells: Vec<Cell> = Vec::new();
    assert!(game::run_generation(&no_cells).is_empty());
}

#[test]
fn lone_pair_dies_out() {
    let cells = vec![Position::new(0, 0), Position::new(1, 0)];
    assert!(GameEngine::new().run_generation(&cells).is_empty());
}

#[test]
fn cell_with_four_neighbours_dies() {
    let cells = vec![
        Position::new(0, 0),
        Position::new(-1, 0),
        Position::new(1, 1),
        Position::new(0, -1),
        Position::new(-1, -1),
    ];
    let next = GameEngine::new().run_generation(&cells);
    assert!(!next.contains(&Position::new(0, 0)));
}

#[test]
fn cell_with_two_neighbours_survives() {
    let cells = vec![
        Position::new(-1, 0),
        Position::new(0, 0),
        Position::new(1, 0),
    ];
    let next = GameEngine::new().run_generation(&cells);
    assert!(next.contains(&Position::new(0, 0)));
}

#[test]
fn three_cells_resurrect_shared_neighbour() {
    let cells = vec![
        Position::new(0, 0),
        Position::new(1, 0),
        Position::new(0, 1),
    ];
    let next = GameEngine::new().run_generation(&cells);
    assert!(next.contains(&Position::new(1, 1)));
    let block = vec![
        Position::new(0, 0),
        Position::new(0, 1),
        Position::new(1, 0),
        Position::new(1, 1),
    ];
    assert_eq!(sorted(next), sorted(block));
}

#[test]
fn four_way_shared_neighbour_stays_dead() {
    let cells = vec![
        Position::new(0, 0),
        Position::new(1, 0),
        Position::new(0, 1),
        Position::new(1, 2),
    ];
    let next = GameEngine::new().run_generation(&cells);
    assert!(!next.contains(&Position::new(1, 1)));
}

#[test]
fn block_is_still_life() {
    let block = vec![
        Position::new(0, 0),
        Position::new(0, 1),
        Position::new(1, 0),
        Position::new(1, 1),
    ];
    let next = GameEngine::new().run_generation(&block);
    assert_eq!(sorted(next), sorted(block.clone()));
    let block_cells = vec![
        Cell::new(0, 0),
        Cell::new(0, 1),
        Cell::new(1, 0),
        Cell::new(1, 1),
    ];
    let mut next_cells = game::run_generation(&block_cells);
    next_cells.sort();
    assert_eq!(next_cells, block_cells);
}

#[test]
fn advance_is_deterministic_across_orderings() {
    let one_order = vec![
        Position::new(-1, 0),
        Position::new(0, 0),
        Position::new(1, 0),
        Position::new(1, 1),
    ];
    let other_order = vec![
        Position::new(1, 1),
        Position::new(1, 0),
        Position::new(-1, 0),
        Position::new(0, 0),
    ];
    let mut engine = GameEngine::new();
    let first = engine.run_generation(&one_order);
    let second = engine.run_generation(&one_order);
    let reordered = GameEngine::new().run_generation(&other_order);
    assert_eq!(sorted(first.clone()), sorted(second));
    assert_eq!(sorted(first), sorted(reordered));
}

#[test]
fn births_reach_the_edge_of_the_coordinate_range() {
    let edge = i32::MAX - 1;
    let column = vec![
        Position::new(edge, -1),
        Position::new(edge, 0),
        Position::new(edge, 1),
    ];
    let next = GameEngine::new().run_generation(&column);
    let expected = vec![
        Position::new(edge - 1, 0),
        Position::new(edge, 0),
        Position::new(i32::MAX, 0),
    ];
    assert_eq!(sorted(next), sorted(expected));
}

#[test]
fn counts_live_neighbours_of_a_dead_position() {
    let cells = vec![
        Position::new(0, 0),
        Position::new(1, 0),
        Position::new(0, 1),
        Position::new(5, 5),
    ];
    assert_eq!(count_live_neighbours(&cells, &Position::new(1, 1)), 3);
    assert_eq!(count_live_neighbours(&cells, &Position::new(9, 9)), 0);
}

#[test]
fn state_positions_returns_held_positions() {
    let state = State::new(vec![Cell::new(2, 3), Cell::new(4, 5)]);
    assert_eq!(
        state.positions(),
        vec![Position::new(2, 3), Position::new(4, 5)]
    );
}

#[test]
fn state_reduce_advances_generation() {
    let blinker = State::new(vec![Cell::new(-1, 0), Cell::new(0, 0), Cell::new(1, 0)]);
    let next = blinker.reduce(Action::Update);
    let expected = vec![
        Position::new(0, -1),
        Position::new(0, 0),
        Position::new(0, 1),
    ];
    assert_eq!(sorted(next.positions()), sorted(expected));
}
