use rust_life::automaton::{next_state, Automaton};
use rust_life::board::{Board, Cell};
use rust_life::point::Point;
use std::collections::HashSet;

#[test]
fn neighbours_are_eight_distinct_points_at_distance_one() {
    let board = Board::new();
    let p = Point::new(-5, 7);
    let around = board.get_neighbours(p).points();
    assert_eq!(around.len(), 8);
    let distinct: HashSet<Point> = around.iter().cloned().collect();
    assert_eq!(distinct.len(), 8);
    for q in around {
        assert_ne!(q, p);
        let dx = (q.x - p.x).abs();
        let dy = (q.y - p.y).abs();
        assert_eq!(dx.max(dy), 1);
    }
}

#[test]
fn neighbours_next_to_the_edge_of_the_grid() {
    let board = Board::new();
    let p = Point::new(i32::MAX - 1, i32::MIN + 1);
    let around = board.get_neighbours(p);
    assert_eq!(around.len(), 8);
    assert!(around.contains(Point::new(i32::MAX, i32::MIN)));
    assert!(around.contains(Point::new(i32::MAX - 2, i32::MIN + 2)));
    assert!(!around.contains(p));
}

#[test]
fn set_then_get_returns_what_was_set() {
    let mut board = Board::new();
    let p = Point::new(4, -9);
    board.set_cell(p, Cell::Alive);
    assert_eq!(board.get_cell(p), Cell::Alive);
    board.set_cell(p, Cell::Alive);
    assert_eq!(board.get_cell(p), Cell::Alive);
    assert_eq!(board.num_living(), 1);
    board.set_cell(p, Cell::Dead);
    assert_eq!(board.get_cell(p), Cell::Dead);
    board.set_cell(p, Cell::Dead);
    assert_eq!(board.get_cell(p), Cell::Dead);
    assert_eq!(board.num_living(), 0);
}

#[test]
fn setting_an_absent_cell_dead_changes_nothing() {
    let mut board = Board::new();
    board.set_cell(Point::new(1, 1), Cell::Alive);
    board.set_cell(Point::new(2, 2), Cell::Dead);
    assert_eq!(board.num_living(), 1);
    assert_eq!(board.get_cell(Point::new(1, 1)), Cell::Alive);
    assert_eq!(board.get_cell(Point::new(2, 2)), Cell::Dead);
}

#[test]
fn flipping_twice_restores_the_cell() {
    let mut board = Board::new();
    let alive = Point::new(0, 0);
    let dead = Point::new(0, 1);
    board.set_cell(alive, Cell::Alive);

    board.flip_cell(alive);
    assert_eq!(board.get_cell(alive), Cell::Dead);
    board.flip_cell(alive);
    assert_eq!(board.get_cell(alive), Cell::Alive);

    board.flip_cell(dead);
    assert_eq!(board.get_cell(dead), Cell::Alive);
    assert_eq!(board.num_living(), 2);
    board.flip_cell(dead);
    assert_eq!(board.get_cell(dead), Cell::Dead);
    assert_eq!(board.num_living(), 1);
}

#[test]
fn add_cells_does_not_depend_on_order_or_repetition() {
    let mut forward = Board::new();
    forward.add_cells(vec![Point::new(1, 1), Point::new(2, 2), Point::new(3, 3)]);
    let mut backward = Board::new();
    backward.add_cells(vec![Point::new(3, 3), Point::new(2, 2), Point::new(1, 1), Point::new(2, 2)]);
    assert_eq!(forward.num_living(), 3);
    assert_eq!(backward.num_living(), 3);
    let a: HashSet<Point> = forward.living_cells().points().into_iter().collect();
    let b: HashSet<Point> = backward.living_cells().points().into_iter().collect();
    assert_eq!(a, b);
}

#[test]
fn add_cells_keeps_the_cells_that_were_alive() {
    let mut board = Board::new();
    board.set_cell(Point::new(9, 9), Cell::Alive);
    board.add_cells(vec![Point::new(0, 0)]);
    board.add_cells(vec![]);
    assert_eq!(board.num_living(), 2);
    assert_eq!(board.get_cell(Point::new(9, 9)), Cell::Alive);
    assert_eq!(board.get_cell(Point::new(0, 0)), Cell::Alive);
}

#[test]
fn living_neighbours_count_all_eight() {
    let mut board = Board::new();
    let p = Point::new(0, 0);
    for dy in -1..=1 {
        for dx in -1..=1 {
            board.set_cell(Point::new(dx, dy), Cell::Alive);
        }
    }
    board.set_cell(Point::new(2, 0), Cell::Alive);
    let alive = board.get_living_neighbours(p);
    assert_eq!(alive.len(), 8);
    assert!(!alive.contains(p));
    assert!(!alive.contains(Point::new(2, 0)));
}

#[test]
fn living_neighbours_at_the_corner_of_the_grid() {
    let mut board = Board::new();
    let corner = Point::new(i32::MAX, i32::MAX);
    board.set_cell(corner, Cell::Alive);
    board.set_cell(Point::new(i32::MAX - 1, i32::MAX), Cell::Alive);
    board.set_cell(Point::new(i32::MIN, i32::MIN), Cell::Alive);
    let alive = board.get_living_neighbours(corner);
    assert_eq!(alive.len(), 1);
    assert!(alive.contains(Point::new(i32::MAX - 1, i32::MAX)));
}

#[test]
fn clear_of_edge_tells_inner_boards_from_boards_on_the_edge() {
    let mut board = Board::new();
    assert!(board.is_clear_of_edge());
    board.set_cell(Point::new(i32::MAX - 1, i32::MIN + 1), Cell::Alive);
    assert!(board.is_clear_of_edge());
    board.set_cell(Point::new(0, i32::MAX), Cell::Alive);
    assert!(!board.is_clear_of_edge());
    board.set_cell(Point::new(0, i32::MAX), Cell::Dead);
    board.set_cell(Point::new(i32::MIN, 0), Cell::Alive);
    assert!(!board.is_clear_of_edge());
}

#[test]
fn candidates_of_two_distant_cells_are_both_neighbourhoods() {
    let mut board = Board::new();
    let a = Point::new(0, 0);
    let b = Point::new(10, 10);
    board.add_cells(vec![a, b]);
    let points = board.to_be_checked();
    assert_eq!(points.len(), 18);
    let mut expected: HashSet<Point> = HashSet::new();
    for p in [a, b] {
        expected.insert(p);
        for q in board.get_neighbours(p).points() {
            expected.insert(q);
        }
    }
    let found: HashSet<Point> = points.points().into_iter().collect();
    assert_eq!(found, expected);
}

#[test]
fn candidates_of_the_empty_board_are_none() {
    let board = Board::new();
    assert_eq!(board.to_be_checked().len(), 0);
}

#[test]
fn the_rule_for_a_live_cell() {
    assert_eq!(next_state(Cell::Alive, 0), Cell::Dead);
    assert_eq!(next_state(Cell::Alive, 1), Cell::Dead);
    assert_eq!(next_state(Cell::Alive, 2), Cell::Alive);
    assert_eq!(next_state(Cell::Alive, 3), Cell::Alive);
    assert_eq!(next_state(Cell::Alive, 4), Cell::Dead);
    assert_eq!(next_state(Cell::Alive, 8), Cell::Dead);
}

#[test]
fn the_rule_for_a_dead_cell() {
    assert_eq!(next_state(Cell::Dead, 0), Cell::Dead);
    assert_eq!(next_state(Cell::Dead, 2), Cell::Dead);
    assert_eq!(next_state(Cell::Dead, 3), Cell::Alive);
    assert_eq!(next_state(Cell::Dead, 4), Cell::Dead);
    assert_eq!(next_state(Cell::Dead, 8), Cell::Dead);
}

#[test]
fn the_empty_board_stays_empty() {
    let mut automaton = Automaton::new();
    assert_eq!(automaton.get_board().num_living(), 0);
    automaton.step_next_generation();
    assert_eq!(automaton.get_board().num_living(), 0);
}

#[test]
fn a_lone_cell_leaves_an_empty_board() {
    let mut automaton = Automaton::new();
    automaton.get_board_mut().set_cell(Point::new(-3, 8), Cell::Alive);
    automaton.step_next_generation();
    assert_eq!(automaton.get_board().num_living(), 0);
}

#[test]
fn the_blinker_comes_back_after_two_steps() {
    let horizontal = vec![Point::new(1, 2), Point::new(2, 2), Point::new(3, 2)];
    let mut automaton = Automaton::new();
    automaton.get_board_mut().add_cells(horizontal.clone());

    automaton.step_next_generation();
    let vertical: HashSet<Point> =
        vec![Point::new(2, 1), Point::new(2, 2), Point::new(2, 3)].into_iter().collect();
    let after_one: HashSet<Point> =
        automaton.get_board().living_cells().points().into_iter().collect();
    assert_eq!(after_one, vertical);

    automaton.step_next_generation();
    let after_two: HashSet<Point> =
        automaton.get_board().living_cells().points().into_iter().collect();
    assert_eq!(after_two, horizontal.into_iter().collect::<HashSet<Point>>());
}

#[test]
fn the_block_is_still() {
    let block = vec![Point::new(0, 0), Point::new(1, 0), Point::new(0, 1), Point::new(1, 1)];
    let mut automaton = Automaton::new();
    automaton.get_board_mut().add_cells(block.clone());
    automaton.step_next_generation();
    let after: HashSet<Point> = automaton.get_board().living_cells().points().into_iter().collect();
    assert_eq!(after, block.into_iter().collect::<HashSet<Point>>());
}

#[test]
fn a_crowded_cell_dies_and_its_corners_survive() {
    // A plus sign: the centre has four live neighbours, each arm has one
    // neighbour that is an arm's length away and the centre.
    let plus = vec![
        Point::new(0, 0),
        Point::new(1, 0),
        Point::new(-1, 0),
        Point::new(0, 1),
        Point::new(0, -1),
    ];
    let mut automaton = Automaton::new();
    automaton.get_board_mut().add_cells(plus);
    automaton.step_next_generation();
    let after: HashSet<Point> = automaton.get_board().living_cells().points().into_iter().collect();
    let expected: HashSet<Point> = vec![
        Point::new(-1, -1), Point::new(0, -1), Point::new(1, -1),
        Point::new(-1, 0), Point::new(1, 0),
        Point::new(-1, 1), Point::new(0, 1), Point::new(1, 1),
    ]
    .into_iter()
    .collect();
    assert_eq!(after, expected);
}

#[test]
fn the_glider_moves_one_cell_diagonally_in_four_steps() {
    let glider = vec![
        Point::new(1, 0),
        Point::new(2, 1),
        Point::new(0, 2),
        Point::new(1, 2),
        Point::new(2, 2),
    ];
    let mut automaton = Automaton::new();
    automaton.get_board_mut().add_cells(glider.clone());
    for _ in 0..4 {
        automaton.step_next_generation();
    }
    let after: HashSet<Point> = automaton.get_board().living_cells().points().into_iter().collect();
    let expected: HashSet<Point> = glider.into_iter().map(|p| Point::new(p.x + 1, p.y + 1)).collect();
    assert_eq!(after, expected);
}

#[test]
fn set_board_replaces_the_board() {
    let mut board = Board::new();
    board.set_cell(Point::new(5, 5), Cell::Alive);
    let mut automaton = Automaton::new();
    automaton.get_board_mut().set_cell(Point::new(1, 1), Cell::Alive);
    automaton.set_board(board);
    assert_eq!(automaton.get_board().num_living(), 1);
    assert_eq!(automaton.get_board().get_cell(Point::new(5, 5)), Cell::Alive);
    assert_eq!(automaton.get_board().get_cell(Point::new(1, 1)), Cell::Dead);
}

#[test]
fn a_step_works_right_next_to_the_edge() {
    // A blinker whose cells are one cell away from the right edge of the grid.
    let x = i32::MAX - 1;
    let mut automaton = Automaton::new();
    automaton.get_board_mut().add_cells(vec![Point::new(x, -1), Point::new(x, 0), Point::new(x, 1)]);
    assert!(automaton.get_board().is_clear_of_edge());
    automaton.step_next_generation();
    let after: HashSet<Point> = automaton.get_board().living_cells().points().into_iter().collect();
    let expected: HashSet<Point> =
        vec![Point::new(x - 1, 0), Point::new(x, 0), Point::new(x + 1, 0)].into_iter().collect();
    assert_eq!(after, expected);
    assert!(!automaton.get_board().is_clear_of_edge());
}
