use game_of_life::cell::Cell;

#[test]
fn identifies_neighbour() {
    let cell = Cell::new(0, 0);
    assert!(cell.is_neighbour(&Cell::new(0, 1)))
}

#[test]
fn identifies_not_neighbour() {
    let cell = Cell::new(0, 0);
    assert!(!cell.is_neighbour(&Cell::new(2, 0)))
}

#[test]
fn cell_count_neighbours() {
    let cell = Cell::new(0, 0);
    let cells = vec![Cell::new(1, 0), Cell::new(0, -1), Cell::new(1, 2)];
    assert_eq!(cell.count_neighours(&cells), 2)
}

#[test]
fn cell_cell_dies_if_less_than_2_neighbours() {
    let cell = Cell::new(0, 0);
    let cells = vec![Cell::new(1, 0)];
    assert!(!cell.survives(&cells))
}

#[test]
fn cell_cell_dies_if_more_than_3_neighbours() {
    let cell = Cell::new(0, 0);
    let cells = vec![
        Cell::new(-1, 0),
        Cell::new(1, 1),
        Cell::new(0, -1),
        Cell::new(-1, -1),
    ];
    assert!(!cell.survives(&cells))
}

#[test]
fn cell_cell_lives_if_2_neighbours() {
    let cell = Cell::new(0, 0);
    let cells = vec![Cell::new(-1, 0), Cell::new(1, 0)];
    assert!(cell.survives(&cells))
}

#[test]
fn cell_cell_lives_if_3_neighbours() {
    let cell = Cell::new(0, 0);
    let cells = vec![Cell::new(-1, 0), Cell::new(1, 0), Cell::new(1, 1)];
    assert!(cell.survives(&cells))
}
