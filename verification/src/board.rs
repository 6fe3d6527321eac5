//! The board: the set of live cells, and the queries the generation step needs.

use crate::point::{cells_of, chebyshev, in_grid, lemma_cells_of_ends, lemma_cells_of_next, Point};
use crate::point_set::PointSet;
use crate::rules::{
    candidates, lemma_candidates_insert, lemma_neighbourhood, live_neighbours, neighbourhood,
};
use vstd::prelude::*;

verus! {

/// The state of one cell.
#[derive(Debug, Hash, Eq, PartialEq, Copy, Clone, Structural)]
pub enum Cell {
    Dead,
    Alive,
}

/// The state of cell `c` on a board whose live cells are `cells`.
pub open spec fn cell_at(cells: Set<(int, int)>, c: (int, int)) -> Cell {
    if cells.contains(c) {
        Cell::Alive
    } else {
        Cell::Dead
    }
}

/// The live cells after cell `c` has been given the state `cell`.
pub open spec fn with_cell(cells: Set<(int, int)>, c: (int, int), cell: Cell) -> Set<(int, int)> {
    match cell {
        Cell::Alive => cells.insert(c),
        Cell::Dead => cells.remove(c),
    }
}

/// The live cells after the state of cell `c` has been reversed.
pub open spec fn with_flipped(cells: Set<(int, int)>, c: (int, int)) -> Set<(int, int)> {
    match cell_at(cells, c) {
        Cell::Alive => with_cell(cells, c, Cell::Dead),
        Cell::Dead => with_cell(cells, c, Cell::Alive),
    }
}

/// The live cells after each point of `ps` has been set alive.
pub open spec fn with_all_alive(cells: Set<(int, int)>, ps: Seq<Point>) -> Set<(int, int)> {
    cells.union(cells_of(ps))
}

/// A cell has the state it was last given, and giving it the same state again
/// changes nothing.
pub proof fn lemma_set_then_get(cells: Set<(int, int)>, c: (int, int), cell: Cell)
    ensures
        cell_at(with_cell(cells, c, cell), c) == cell,
        with_cell(with_cell(cells, c, cell), c, cell) == with_cell(cells, c, cell),
{
    assert(with_cell(with_cell(cells, c, cell), c, cell) =~= with_cell(cells, c, cell));
}

/// Flipping a cell twice restores the board.
pub proof fn lemma_flip_twice(cells: Set<(int, int)>, c: (int, int))
    ensures
        with_flipped(with_flipped(cells, c), c) == cells,
{
    assert(with_flipped(with_flipped(cells, c), c) =~= cells);
}

/// A cell that has all eight neighbours in the grid.
pub open spec fn off_edge(c: (int, int)) -> bool {
    &&& i32::MIN < c.0 < i32::MAX
    &&& i32::MIN < c.1 < i32::MAX
}

/// Whether none of `cells` lies on the edge of the grid.
pub open spec fn all_off_edge(cells: Set<(int, int)>) -> bool {
    forall|c: (int, int)| cells.contains(c) ==> off_edge(c)
}

/// A sparse board: it holds the live cells, and every other cell is dead.
#[derive(Debug)]
pub struct Board {
    living_cells: PointSet,
}

impl View for Board {
    type V = Set<(int, int)>;

    /// The live cells.
    closed spec fn view(&self) -> Set<(int, int)> {
        self.living_cells@
    }
}

impl Board {
    /// A board's live cells are finitely many, all in the grid.
    pub proof fn lemma_bounded(&self)
        ensures
            self@.finite(),
            forall|c: (int, int)| self@.contains(c) ==> in_grid(c),
    {
        self.living_cells.lemma_bounded();
    }

    /// A board with no live cell.
    pub fn new() -> (board: Board)
        ensures
            board@ == Set::<(int, int)>::empty(),
    {
        Board { living_cells: PointSet::new() }
    }

    /// The set of live cells.
    pub fn living_cells(&self) -> (cells: &PointSet)
        ensures
            cells@ == self@,
    {
        &self.living_cells
    }

    /// The state of the cell at `p`.
    pub fn get_cell(&self, p: Point) -> (cell: Cell)
        ensures
            cell == cell_at(self@, p@),
    {
        if self.living_cells.contains(p) {
            Cell::Alive
        } else {
            Cell::Dead
        }
    }

    /// Gives the cell at `p` the state `cell`.
    pub fn set_cell(&mut self, p: Point, cell: Cell)
        ensures
            final(self)@ == with_cell(old(self)@, p@, cell),
    {
        match cell {
            Cell::Alive => {
                self.living_cells.insert(p);
            },
            Cell::Dead => {
                self.living_cells.remove(p);
            },
        }
    }

    /// Sets every point of `ps` alive.
    pub fn add_cells(&mut self, ps: Vec<Point>)
        ensures
            final(self)@ == with_all_alive(old(self)@, ps@),
    {
        let n = ps.len();
        let mut i: usize = 0;
        proof {
            lemma_cells_of_ends(ps@);
            assert(self@ =~= with_all_alive(old(self)@, ps@.take(0)));
        }
        while i < n
            invariant
                n == ps.len(),
                i <= n,
                self@ == with_all_alive(old(self)@, ps@.take(i as int)),
            decreases n - i,
        {
            self.set_cell(ps[i], Cell::Alive);
            proof {
                lemma_cells_of_next(ps@, i as int);
                assert(self@ =~= with_all_alive(old(self)@, ps@.take(i + 1)));
            }
            i = i + 1;
        }
        proof {
            lemma_cells_of_ends(ps@);
        }
    }

    /// Reverses the state of the cell at `p`.
    pub fn flip_cell(&mut self, p: Point)
        ensures
            final(self)@ == with_flipped(old(self)@, p@),
    {
        match self.get_cell(p) {
            Cell::Alive => self.set_cell(p, Cell::Dead),
            Cell::Dead => self.set_cell(p, Cell::Alive),
        }
    }

    /// The number of live cells.
    pub fn num_living(&self) -> (n: usize)
        ensures
            n == self@.len(),
    {
        self.living_cells.len()
    }

    /// Whether no live cell lies on the edge of the grid, so that every cell
    /// around a live cell is in the grid too.
    pub open spec fn clear_of_edge(&self) -> bool {
        all_off_edge(self@)
    }

    /// Checks that no live cell lies on the edge of the grid.
    pub fn is_clear_of_edge(&self) -> (clear: bool)
        ensures
            clear == self.clear_of_edge(),
    {
        let live = self.living_cells.points();
        let n = live.len();
        let mut i: usize = 0;
        proof {
            lemma_cells_of_ends(live@);
        }
        while i < n
            invariant
                n == live.len(),
                i <= n,
                cells_of(live@) == self@,
                all_off_edge(cells_of(live@.take(i as int))),
            decreases n - i,
        {
            let p = live[i];
            if p.x == i32::MIN || p.x == i32::MAX || p.y == i32::MIN || p.y == i32::MAX {
                assert(self@.contains(live[i as int]@) && !off_edge(live[i as int]@));
                return false;
            }
            proof {
                lemma_cells_of_next(live@, i as int);
            }
            i = i + 1;
        }
        true
    }

    /// The eight points around `p`.
    pub fn get_neighbours(&self, p: Point) -> (around: PointSet)
        requires
            off_edge(p@),
        ensures
            around@ == neighbourhood(p@),
            around@.len() == 8,
            !around@.contains(p@),
            forall|d: (int, int)| around@.contains(d) ==> chebyshev(p@, d) == 1,
    {
        let mut around = PointSet::new();
        around.insert(p + Point::new(-1, -1));
        around.insert(p + Point::new(0, -1));
        around.insert(p + Point::new(1, -1));
        around.insert(p + Point::new(-1, 0));
        around.insert(p + Point::new(1, 0));
        around.insert(p + Point::new(-1, 1));
        around.insert(p + Point::new(0, 1));
        around.insert(p + Point::new(1, 1));
        proof {
            lemma_neighbourhood(p@);
            assert(around@ =~= neighbourhood(p@));
        }
        around
    }

    /// The live points among the eight around `p`.
    pub fn get_living_neighbours(&self, p: Point) -> (alive: PointSet)
        ensures
            alive@ == live_neighbours(self@, p@),
            alive@.len() <= 8,
    {
        let mut alive = PointSet::new();
        self.keep_if_alive(&mut alive, p, -1, -1);
        self.keep_if_alive(&mut alive, p, 0, -1);
        self.keep_if_alive(&mut alive, p, 1, -1);
        self.keep_if_alive(&mut alive, p, -1, 0);
        self.keep_if_alive(&mut alive, p, 1, 0);
        self.keep_if_alive(&mut alive, p, -1, 1);
        self.keep_if_alive(&mut alive, p, 0, 1);
        self.keep_if_alive(&mut alive, p, 1, 1);
        proof {
            lemma_neighbourhood(p@);
            assert(alive@ =~= live_neighbours(self@, p@));
            vstd::set_lib::lemma_len_intersect(neighbourhood(p@), self@);
        }
        alive
    }

    /// Adds the cell at offset (`dx`, `dy`) from `p` to `found` if it is alive.
    /// A cell outside the grid is never alive.
    fn keep_if_alive(&self, found: &mut PointSet, p: Point, dx: i32, dy: i32)
        requires
            -1 <= dx <= 1,
            -1 <= dy <= 1,
        ensures
            final(found)@ == if self@.contains((p.x + dx, p.y + dy)) {
                old(found)@.insert((p.x + dx, p.y + dy))
            } else {
                old(found)@
            },
    {
        let ghost c = (p.x + dx, p.y + dy);
        proof {
            self.lemma_bounded();
            assert(self@.contains(c) ==> in_grid(c));
        }
        let x: i64 = p.x as i64 + dx as i64;
        let y: i64 = p.y as i64 + dy as i64;
        if i32::MIN as i64 <= x && x <= i32::MAX as i64 && i32::MIN as i64 <= y && y <= i32::MAX as i64 {
            let q = Point::new(x as i32, y as i32);
            assert(q@ == c);
            if self.living_cells.contains(q) {
                found.insert(q);
            }
        }
    }

    /// The points to look at for the next generation: every live point and
    /// every point around a live point.
    pub fn to_be_checked(&self) -> (points: PointSet)
        requires
            self.clear_of_edge(),
        ensures
            points@ == candidates(self@),
    {
        let mut to_be_checked = PointSet::new();
        let live = self.living_cells.points();
        let n = live.len();
        let mut i: usize = 0;
        proof {
            lemma_cells_of_ends(live@);
            assert(to_be_checked@ =~= candidates(cells_of(live@.take(0))));
        }
        while i < n
            invariant
                n == live.len(),
                i <= n,
                self.clear_of_edge(),
                cells_of(live@) == self@,
                to_be_checked@ == candidates(cells_of(live@.take(i as int))),
            decreases n - i,
        {
            let point = live[i];
            assert(cells_of(live@).contains(live[i as int]@));
            to_be_checked.insert(point);
            to_be_checked.extend(&self.get_neighbours(point));
            proof {
                lemma_cells_of_next(live@, i as int);
                lemma_candidates_insert(cells_of(live@.take(i as int)), point@);
            }
            i = i + 1;
        }
        to_be_checked
    }
}

} // verus!
