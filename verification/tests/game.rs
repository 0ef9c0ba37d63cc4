use game_of_life::cell::Cell;
use game_of_life::game::{resurrect_cells, run_generation};
use game_of_life::position::Position;

#[test]
fn returns_neighbouring_positions() {
    let position = Position::new(1, 1);
    let expected = vec![
        Position::new(0, 0),
        Position::new(0, 1),
        Position::new(0, 2),
        Position::new(1, 0),
        Position::new(1, 2),
        Position::new(2, 0),
        Position::new(2, 1),
        Position::new(2, 2),
    ];
    assert_eq!(position.adjacent(), expected)
}

#[test]
fn mod_no_cells_resurrect_if_less_than_3_cells_share_a_common_neighbour() {
    let cells = vec![Cell::new(0, 0), Cell::new(1, 0)];
    assert!(resurrect_cells(&cells).is_empty())
}

#[test]
fn mod_cells_resurrect_if_3_cells_share_a_common_neighbour() {
    let cells = vec![Cell::new(0, 0), Cell::new(1, 0), Cell::new(0, 1)];
    assert_eq!(resurrect_cells(&cells), vec![Cell::new(1, 1)])
}

#[test]
fn mod_no_cells_resurrect_if_more_than_3_cells_share_a_common_neighbour() {
    let cells = vec![
        Cell::new(0, 0),
        Cell::new(1, 0),
        Cell::new(0, 1),
        Cell::new(1, 2),
    ];
    assert!(resurrect_cells(&cells).is_empty())
}

#[test]
fn mod_runs_generation() {
    let cells = vec![Cell::new(-1, 0), Cell::new(0, 0), Cell::new(1, 0)];
    let mut actual = run_generation(&cells);
    actual.sort();
    let mut expected = vec![Cell::new(0, -1), Cell::new(0, 0), Cell::new(0, 1)];
    expected.sort();
    assert_eq!(actual, expected)
}
