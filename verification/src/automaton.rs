//! The automaton: it owns a board and moves it from one generation to the next.

use crate::board::{all_off_edge, Board, Cell};
use crate::point::{cells_of, lemma_cells_of_ends, lemma_cells_of_next};
use crate::point_set::PointSet;
use crate::rules::{
    changing, lemma_next_generation_by_flips, lemma_only_candidates_change, lives_on,
    next_generation, with_flips,
};
use vstd::prelude::*;

verus! {

/// The rule of the game for one cell: its next state, from its state and the
/// number of live cells around it.
pub fn next_state(cell: Cell, neighbours: usize) -> (next: Cell)
    ensures
        next == Cell::Alive <==> lives_on(cell == Cell::Alive, neighbours as nat),
{
    match cell {
        Cell::Alive => if neighbours == 2 || neighbours == 3 {
            Cell::Alive
        } else {
            Cell::Dead
        },
        Cell::Dead => if neighbours == 3 {
            Cell::Alive
        } else {
            Cell::Dead
        },
    }
}

/// The game: one board, which each step replaces by its next generation.
pub struct Automaton {
    board: Board,
}

impl View for Automaton {
    type V = Set<(int, int)>;

    /// The live cells of the automaton's board.
    closed spec fn view(&self) -> Set<(int, int)> {
        self.board@
    }
}

impl Automaton {
    /// An automaton with an empty board.
    pub fn new() -> (automaton: Automaton)
        ensures
            automaton@ == Set::<(int, int)>::empty(),
    {
        Automaton { board: Board::new() }
    }

    /// Replaces the board.
    pub fn set_board(&mut self, board: Board)
        ensures
            final(self)@ == board@,
    {
        self.board = board;
    }

    /// The board, to read it.
    pub fn get_board(&self) -> (board: &Board)
        ensures
            board@ == self@,
    {
        &self.board
    }

    /// The board, to change it in place.
    pub fn get_board_mut(&mut self) -> (board: &mut Board)
        ensures
            board@ == old(self)@,
            final(self)@ == final(board)@,
    {
        &mut self.board
    }

    /// Moves the board to the next generation. Every cell is judged by the
    /// board as it was before the step.
    pub fn step_next_generation(&mut self)
        requires
            all_off_edge(old(self)@),
        ensures
            final(self)@ == next_generation(old(self)@),
    {
        let ghost before = self@;
        let to_be_checked = self.board.to_be_checked().points();
        let mut to_be_flipped = PointSet::new();
        let n = to_be_checked.len();
        let mut i: usize = 0;
        proof {
            lemma_cells_of_ends(to_be_checked@);
            assert(to_be_flipped@ =~= changing(before).intersect(cells_of(to_be_checked@.take(0))));
        }
        while i < n
            invariant
                n == to_be_checked.len(),
                i <= n,
                self@ == before,
                to_be_flipped@ == changing(before).intersect(cells_of(to_be_checked@.take(i as int))),
            decreases n - i,
        {
            let point = to_be_checked[i];
            let status = self.board.get_cell(point);
            let num_neighbours = self.board.get_living_neighbours(point).len();
            if next_state(status, num_neighbours) != status {
                to_be_flipped.insert(point);
            }
            proof {
                lemma_cells_of_next(to_be_checked@, i as int);
                assert(to_be_flipped@ =~= changing(before).intersect(
                    cells_of(to_be_checked@.take(i + 1)),
                ));
            }
            i = i + 1;
        }
        let flips = to_be_flipped.points();
        let m = flips.len();
        let mut k: usize = 0;
        proof {
            lemma_cells_of_ends(flips@);
            assert(self@ =~= with_flips(before, cells_of(flips@.take(0))));
        }
        while k < m
            invariant
                m == flips.len(),
                k <= m,
                flips@.no_duplicates(),
                self@ == with_flips(before, cells_of(flips@.take(k as int))),
            decreases m - k,
        {
            self.board.flip_cell(flips[k]);
            proof {
                lemma_cells_of_next(flips@, k as int);
                let earlier = cells_of(flips@.take(k as int));
                if earlier.contains(flips[k as int]@) {
                    let j = choose|j: int|
                        0 <= j < k && #[trigger] flips@.take(k as int)[j]@ == flips[k as int]@;
                    assert(flips[j] == flips[k as int]);
                }
                assert(self@ =~= with_flips(before, earlier.insert(flips[k as int]@)));
            }
            k = k + 1;
        }
        proof {
            lemma_cells_of_ends(flips@);
            lemma_only_candidates_change(before);
            assert(cells_of(flips@) =~= changing(before));
            lemma_next_generation_by_flips(before);
        }
    }
}

} // verus!
