use rust_life::automaton::Automaton;
use rust_life::board::{Board, Cell};
use rust_life::point::Point;
use std::collections::HashSet;
use std::iter::FromIterator;

#[test]
fn board_should_initially_have_no_living_cells() {
    let board = Board::new();
    assert_eq!(board.num_living(), 0);
}

#[test]
fn setting_cell() {
    let mut board = Board::new();
    let p = Point { x: 1, y: 1 };
    assert_eq!(board.get_cell(p), Cell::Dead);
    board.set_cell(p, Cell::Alive);
    assert_eq!(board.get_cell(p), Cell::Alive);
}

#[test]
fn get_neighbours() {
    let board = Board::new();
    let p = Point::new(1, 3);
    let neighbours = board.get_neighbours(p);
    assert_eq!(neighbours.len(), 8);
    assert!(neighbours.contains(Point::new(1, 4)));
}

#[test]
fn get_living_neighbours() {
    let mut board = Board::new();
    let p = Point::new(1, 3);
    let living: HashSet<Point> = HashSet::from_iter(vec![Point::new(0, 4), Point::new(2, 2)]);

    for point in living.iter() {
        board.set_cell(*point, Cell::Alive);
    }

    assert_eq!(HashSet::from_iter(board.get_living_neighbours(p).points()), living);
}

#[test]
fn get_living_neighbours_should_be_zero_for_no_neighbours() {
    let mut board = Board::new();
    let p = Point::new(1, 0);
    board.set_cell(p, Cell::Alive);
    assert_eq!(board.get_living_neighbours(p).len(), 0);
}

#[test]
fn to_be_checked_includes_dead_neighbours() {
    let mut board = Board::new();
    board.add_cells(vec![Point::new(2, 0), Point::new(3, 0)]);
    let expected: HashSet<Point> = HashSet::from_iter(vec![
        Point::new(1, 1), Point::new(2, 1), Point::new(3, 1), Point::new(4, 1),
        Point::new(1, 0), Point::new(2, 0), Point::new(3, 0), Point::new(4, 0),
        Point::new(1, -1), Point::new(2, -1), Point::new(3, -1), Point::new(4, -1),
    ]);

    let points: HashSet<Point> = HashSet::from_iter(board.to_be_checked().points());

    assert_eq!(points, expected);
}

#[test]
fn test_blinker() {
    let mut automaton = Automaton::new();
    automaton.get_board_mut().add_cells(vec![Point::new(1, 2), Point::new(2, 2), Point::new(3, 2)]);
    println!("{}", automaton.get_board().living_cells().len());
    automaton.step_next_generation();
    println!("{}", automaton.get_board().living_cells().len());

    let expected: HashSet<Point> =
        HashSet::from_iter(vec![Point::new(2, 3), Point::new(2, 2), Point::new(2, 1)]);

    assert_eq!(HashSet::from_iter(automaton.get_board().living_cells().points()), expected);
}

#[test]
fn test_lone_cell_should_die_next_generation() {
    let mut automaton = Automaton::new();
    automaton.get_board_mut().set_cell(Point::new(2, 2), Cell::Alive);
    automaton.step_next_generation();
    assert_eq!(automaton.get_board().get_cell(Point::new(2, 2)), Cell::Dead);
}
