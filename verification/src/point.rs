//! Grid coordinates and the distance that defines a cell's neighbourhood.

use vstd::prelude::*;
use vstd::std_specs::convert::IntoSpec;

verus! {

/// A coordinate on the grid.
#[derive(Debug, Hash, PartialEq, Eq, Copy, Clone, Structural)]
pub struct Point {
    pub x: i32,
    pub y: i32,
}

impl View for Point {
    type V = (int, int);

    open spec fn view(&self) -> (int, int) {
        (self.x as int, self.y as int)
    }
}

/// Whether a cell of the unbounded grid has coordinates that a `Point` can hold.
pub open spec fn in_grid(c: (int, int)) -> bool {
    &&& i32::MIN <= c.0 <= i32::MAX
    &&& i32::MIN <= c.1 <= i32::MAX
}

/// Chebyshev distance: the larger of the two coordinate differences.
pub open spec fn chebyshev(a: (int, int), b: (int, int)) -> int {
    let dx = if a.0 <= b.0 { b.0 - a.0 } else { a.0 - b.0 };
    let dy = if a.1 <= b.1 { b.1 - a.1 } else { a.1 - b.1 };
    if dx <= dy { dy } else { dx }
}

/// Two cells are adjacent when they are at Chebyshev distance 1.
pub open spec fn adjacent(a: (int, int), b: (int, int)) -> bool {
    chebyshev(a, b) == 1
}

/// The cells that a sequence of points holds.
pub open spec fn cells_of(ps: Seq<Point>) -> Set<(int, int)> {
    Set::new(|c: (int, int)| exists|i: int| 0 <= i < ps.len() && #[trigger] ps[i]@ == c)
}

/// The first `i + 1` points of a sequence hold the cells of the first `i`
/// and the cell of the point at `i`.
pub proof fn lemma_cells_of_next(ps: Seq<Point>, i: int)
    requires
        0 <= i < ps.len(),
    ensures
        cells_of(ps.take(i + 1)) == cells_of(ps.take(i)).insert(ps[i]@),
{
    let shorter = ps.take(i);
    let longer = ps.take(i + 1);
    assert forall|c: (int, int)| cells_of(longer).contains(c) == cells_of(shorter).insert(
        ps[i]@,
    ).contains(c) by {
        if cells_of(longer).contains(c) {
            let j = choose|j: int| 0 <= j < longer.len() && #[trigger] longer[j]@ == c;
            if j < i {
                assert(shorter[j]@ == c);
            }
        }
        if cells_of(shorter).contains(c) {
            let j = choose|j: int| 0 <= j < shorter.len() && #[trigger] shorter[j]@ == c;
            assert(longer[j]@ == c);
        }
        if ps[i]@ == c {
            assert(longer[i]@ == c);
        }
    }
    assert(cells_of(longer) =~= cells_of(shorter).insert(ps[i]@));
}

/// No points hold no cells, and all points of a sequence hold all its cells.
pub proof fn lemma_cells_of_ends(ps: Seq<Point>)
    ensures
        cells_of(ps.take(0)) == Set::<(int, int)>::empty(),
        cells_of(ps.take(ps.len() as int)) == cells_of(ps),
{
    assert(cells_of(ps.take(0)) =~= Set::<(int, int)>::empty());
    assert(ps.take(ps.len() as int) =~= ps);
}

impl Point {
    /// The point with the coordinates `x` and `y`.
    pub fn new(x: i32, y: i32) -> (p: Point)
        ensures
            p.x == x,
            p.y == y,
    {
        Point { x, y }
    }

    /// Builds a point from a pair of values that convert to `i32`.
    pub fn from_tuple<T: Into<i32>>(tup: (T, T)) -> (p: Point)
        ensures
            <T as IntoSpec<i32>>::obeys_into_spec() ==> p.x == tup.0.into_spec() && p.y
                == tup.1.into_spec(),
    {
        Point { x: tup.0.into(), y: tup.1.into() }
    }
}

impl core::ops::Add for Point {
    type Output = Point;

    /// Component-wise sum.
    fn add(self, other: Point) -> (sum: Point) {
        Point { x: self.x + other.x, y: self.y + other.y }
    }
}

impl vstd::std_specs::ops::AddSpecImpl for Point {
    open spec fn obeys_add_spec() -> bool {
        true
    }

    open spec fn add_req(self, rhs: Point) -> bool {
        in_grid((self.x + rhs.x, self.y + rhs.y))
    }

    open spec fn add_spec(self, rhs: Point) -> Point {
        Point { x: (self.x + rhs.x) as i32, y: (self.y + rhs.y) as i32 }
    }
}

impl core::ops::AddAssign for Point {
    fn add_assign(&mut self, other: Point)
        requires
            in_grid((old(self).x + other.x, old(self).y + other.y)),
        ensures
            final(self)@ == (old(self).x + other.x, old(self).y + other.y),
    {
        *self = Point { x: self.x + other.x, y: self.y + other.y };
    }
}

} // verus!
