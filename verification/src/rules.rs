//! The rule of the game, stated on sets of cells of the unbounded grid.

use crate::point::{adjacent, chebyshev};
use vstd::prelude::*;

verus! {

/// The eight cells around `c`.
pub open spec fn neighbourhood(c: (int, int)) -> Set<(int, int)> {
    Set::new(|d: (int, int)| adjacent(c, d))
}

/// The live cells around `c`.
pub open spec fn live_neighbours(cells: Set<(int, int)>, c: (int, int)) -> Set<(int, int)> {
    neighbourhood(c).intersect(cells)
}

/// The cells whose state can change in one step: the live cells and the cells around them.
pub open spec fn candidates(cells: Set<(int, int)>) -> Set<(int, int)> {
    Set::new(
        |c: (int, int)|
            cells.contains(c) || exists|d: (int, int)| cells.contains(d) && #[trigger] adjacent(d, c),
    )
}

/// Whether a cell is alive in the next generation, given its state and the
/// number of live cells around it: a live cell survives with two or three
/// live neighbours, a dead cell comes alive with exactly three.
pub open spec fn lives_on(alive: bool, neighbours: nat) -> bool {
    if alive {
        neighbours == 2 || neighbours == 3
    } else {
        neighbours == 3
    }
}

/// Whether `c` is alive in the generation after `cells`.
pub open spec fn alive_next(cells: Set<(int, int)>, c: (int, int)) -> bool {
    lives_on(cells.contains(c), live_neighbours(cells, c).len())
}

/// The generation after `cells`.
pub open spec fn next_generation(cells: Set<(int, int)>) -> Set<(int, int)> {
    Set::new(|c: (int, int)| alive_next(cells, c))
}

/// The cells whose state differs between `cells` and the generation after it.
pub open spec fn changing(cells: Set<(int, int)>) -> Set<(int, int)> {
    Set::new(|c: (int, int)| cells.contains(c) != alive_next(cells, c))
}

/// The live cells after the state of every cell of `flips` has been reversed.
pub open spec fn with_flips(cells: Set<(int, int)>, flips: Set<(int, int)>) -> Set<(int, int)> {
    Set::new(|c: (int, int)| cells.contains(c) != flips.contains(c))
}

/// The neighbourhood of a cell written out cell by cell.
pub open spec fn neighbourhood_cells(c: (int, int)) -> Set<(int, int)> {
    set![
        (c.0 - 1, c.1 - 1),
        (c.0, c.1 - 1),
        (c.0 + 1, c.1 - 1),
        (c.0 - 1, c.1),
        (c.0 + 1, c.1),
        (c.0 - 1, c.1 + 1),
        (c.0, c.1 + 1),
        (c.0 + 1, c.1 + 1),
    ]
}

/// A cell has exactly eight neighbours, all different from it and from each
/// other, each at Chebyshev distance 1.
pub proof fn lemma_neighbourhood(c: (int, int))
    ensures
        neighbourhood(c) == neighbourhood_cells(c),
        neighbourhood(c).finite(),
        neighbourhood(c).len() == 8,
        !neighbourhood(c).contains(c),
        forall|d: (int, int)| neighbourhood(c).contains(d) ==> chebyshev(c, d) == 1,
{
    assert(neighbourhood(c) =~= neighbourhood_cells(c));
}

/// Adjacency does not depend on the order of the two cells.
pub proof fn lemma_adjacent_symmetric(a: (int, int), b: (int, int))
    ensures
        adjacent(a, b) == adjacent(b, a),
{
}

/// One more live cell adds itself and the cells around it to the candidates.
pub proof fn lemma_candidates_insert(cells: Set<(int, int)>, c: (int, int))
    ensures
        candidates(cells.insert(c)) == candidates(cells).insert(c).union(neighbourhood(c)),
{
    let more = cells.insert(c);
    assert forall|d: (int, int)| candidates(more).contains(d) implies candidates(cells).insert(
        c,
    ).union(neighbourhood(c)).contains(d) by {
        if !more.contains(d) {
            let e = choose|e: (int, int)| more.contains(e) && #[trigger] adjacent(e, d);
            if e != c {
                assert(cells.contains(e) && adjacent(e, d));
            }
        }
    }
    assert forall|d: (int, int)| candidates(cells).insert(c).union(neighbourhood(c)).contains(
        d,
    ) implies candidates(more).contains(d) by {
        if candidates(cells).contains(d) && !cells.contains(d) {
            let e = choose|e: (int, int)| cells.contains(e) && #[trigger] adjacent(e, d);
            assert(more.contains(e) && adjacent(e, d));
        }
        if neighbourhood(c).contains(d) {
            assert(more.contains(c) && adjacent(c, d));
        }
    }
    assert(candidates(more) =~= candidates(cells).insert(c).union(neighbourhood(c)));
}

/// A cell that is neither alive nor next to a live cell is dead in the next
/// generation: only candidates can change.
pub proof fn lemma_only_candidates_change(cells: Set<(int, int)>)
    ensures
        changing(cells).subset_of(candidates(cells)),
{
    assert forall|c: (int, int)| !candidates(cells).contains(c) implies !changing(cells).contains(
        c,
    ) by {
        assert forall|d: (int, int)| !live_neighbours(cells, c).contains(d) by {
            lemma_adjacent_symmetric(c, d);
            if cells.contains(d) && adjacent(c, d) {
                assert(adjacent(d, c));
            }
        }
        assert(live_neighbours(cells, c) =~= Set::<(int, int)>::empty());
    }
}

/// The next generation is the board with its changing cells flipped.
pub proof fn lemma_next_generation_by_flips(cells: Set<(int, int)>)
    ensures
        with_flips(cells, changing(cells)) == next_generation(cells),
{
    assert(with_flips(cells, changing(cells)) =~= next_generation(cells));
}

/// The empty board stays empty.
pub proof fn lemma_empty_stays_empty()
    ensures
        next_generation(Set::<(int, int)>::empty()) == Set::<(int, int)>::empty(),
{
    let nothing = Set::<(int, int)>::empty();
    assert forall|c: (int, int)| !next_generation(nothing).contains(c) by {
        assert(live_neighbours(nothing, c) =~= nothing);
    }
    assert(next_generation(nothing) =~= nothing);
}

/// A live cell with no live cell around it dies.
pub proof fn lemma_isolated_cell_dies(cells: Set<(int, int)>, c: (int, int))
    requires
        cells.contains(c),
        live_neighbours(cells, c) == Set::<(int, int)>::empty(),
    ensures
        !next_generation(cells).contains(c),
{
}

/// A board with a single live cell is empty after one step.
pub proof fn lemma_lone_cell_dies(c: (int, int))
    ensures
        next_generation(set![c]) == Set::<(int, int)>::empty(),
{
    let cells = set![c];
    assert forall|d: (int, int)| !next_generation(cells).contains(d) by {
        vstd::set_lib::lemma_len_subset(live_neighbours(cells, d), cells);
    }
    assert(next_generation(cells) =~= Set::<(int, int)>::empty());
}

/// The candidates of a board with two live cells are those two cells and the
/// cells around each of them.
pub proof fn lemma_candidates_of_pair(a: (int, int), b: (int, int))
    ensures
        candidates(set![a, b]) == set![a, b].union(neighbourhood(a)).union(neighbourhood(b)),
{
    let cells = set![a, b];
    let expected = cells.union(neighbourhood(a)).union(neighbourhood(b));
    assert forall|c: (int, int)| candidates(cells).contains(c) == expected.contains(c) by {
        if neighbourhood(a).contains(c) {
            assert(cells.contains(a) && adjacent(a, c));
        }
        if neighbourhood(b).contains(c) {
            assert(cells.contains(b) && adjacent(b, c));
        }
    }
    assert(candidates(cells) =~= expected);
}

} // verus!
