//! A finite set of grid points, stored as 64-bit keys in a hash set.
//!
//! A point's two 32-bit coordinates are packed into one `u64`, so that the
//! hash set holds plain integers. Every `u64` is the key of exactly one point.

use crate::point::{cells_of, in_grid, lemma_cells_of_ends, lemma_cells_of_next, Point};
use std::collections::HashSet;
use vstd::prelude::*;
use vstd::relations::injective_on;
use vstd::set_lib::lemma_map_size;
use vstd::std_specs::iter::IteratorSpec;

verus! {

broadcast use vstd::std_specs::hash::group_hash_axioms;

/// The key under which a cell of the grid is stored.
pub open spec fn key_of(c: (int, int)) -> int {
    (c.0 + 0x8000_0000) * 0x1_0000_0000 + (c.1 + 0x8000_0000)
}

/// The cell that a key stands for.
pub open spec fn cell_of(k: int) -> (int, int) {
    (k / 0x1_0000_0000 - 0x8000_0000, k % 0x1_0000_0000 - 0x8000_0000)
}

/// Packing a cell and unpacking the key gives the cell back, and the key fits in 64 bits.
pub proof fn lemma_key_round_trip(c: (int, int))
    requires
        in_grid(c),
    ensures
        0 <= key_of(c) <= u64::MAX,
        cell_of(key_of(c)) == c,
{
}

/// Unpacking a key and packing the cell gives the key back, and the cell lies in the grid.
pub proof fn lemma_cell_round_trip(k: int)
    requires
        0 <= k <= u64::MAX,
    ensures
        in_grid(cell_of(k)),
        key_of(cell_of(k)) == k,
{
}

fn pack(p: Point) -> (k: u64)
    ensures
        k == key_of(p@),
{
    let x: u64 = (p.x as i64 + 0x8000_0000) as u64;
    let y: u64 = (p.y as i64 + 0x8000_0000) as u64;
    x * 0x1_0000_0000 + y
}

fn unpack(k: u64) -> (p: Point)
    ensures
        p@ == cell_of(k as int),
{
    let x: i64 = (k / 0x1_0000_0000) as i64 - 0x8000_0000;
    let y: i64 = (k % 0x1_0000_0000) as i64 - 0x8000_0000;
    Point { x: x as i32, y: y as i32 }
}

/// A finite set of grid points.
#[derive(Debug)]
pub struct PointSet {
    keys: HashSet<u64>,
}

impl View for PointSet {
    type V = Set<(int, int)>;

    /// The cells whose keys the hash set holds.
    closed spec fn view(&self) -> Set<(int, int)> {
        Set::new(|c: (int, int)| in_grid(c) && self.keys@.contains(key_of(c) as u64))
    }
}

impl PointSet {
    /// The view is the image of the stored keys, and has as many members.
    proof fn lemma_view_is_image(&self)
        ensures
            self.keys@.finite(),
            self@ == self.keys@.map(|k: u64| cell_of(k as int)),
            self@.finite(),
            self@.len() == self.keys@.len(),
    {
        let f = |k: u64| cell_of(k as int);
        vstd::std_specs::hash::axiom_spec_hash_keys_iter(&self.keys);
        vstd::seq_lib::seq_to_set_is_finite(
            vstd::std_specs::hash::spec_hash_keys_iter(&self.keys).remaining().unref(),
        );
        assert forall|c: (int, int)| self@.contains(c) == self.keys@.map(f).contains(c) by {
            if self@.contains(c) {
                lemma_key_round_trip(c);
                assert(f(key_of(c) as u64) == c);
            }
            if self.keys@.map(f).contains(c) {
                let k = choose|k: u64| self.keys@.contains(k) && c == f(k);
                lemma_cell_round_trip(k as int);
            }
        }
        assert(self@ =~= self.keys@.map(f));
        assert(injective_on(f, self.keys@)) by {
            assert forall|k1: u64, k2: u64| #[trigger] f(k1) == #[trigger] f(k2) implies k1 == k2 by {
                lemma_cell_round_trip(k1 as int);
                lemma_cell_round_trip(k2 as int);
            }
        }
        lemma_map_size(self.keys@, self@, f);
    }

    /// A point set is finite and holds only cells of the grid.
    pub proof fn lemma_bounded(&self)
        ensures
            self@.finite(),
            forall|c: (int, int)| self@.contains(c) ==> in_grid(c),
    {
        self.lemma_view_is_image();
    }

    /// The empty set.
    pub fn new() -> (s: PointSet)
        ensures
            s@ == Set::<(int, int)>::empty(),
    {
        let s = PointSet { keys: HashSet::new() };
        assert(s@ =~= Set::<(int, int)>::empty());
        s
    }

    /// The number of points in the set.
    pub fn len(&self) -> (n: usize)
        ensures
            n == self@.len(),
    {
        proof {
            self.lemma_view_is_image();
        }
        self.keys.len()
    }

    /// Whether the set holds `p`.
    pub fn contains(&self, p: Point) -> (found: bool)
        ensures
            found == self@.contains(p@),
    {
        let k = pack(p);
        self.keys.contains(&k)
    }

    /// Adds `p` to the set; returns whether it was absent before.
    pub fn insert(&mut self, p: Point) -> (fresh: bool)
        ensures
            final(self)@ == old(self)@.insert(p@),
            fresh == !old(self)@.contains(p@),
    {
        let k = pack(p);
        let fresh = self.keys.insert(k);
        proof {
            assert forall|c: (int, int)| self@.contains(c) == old(self)@.insert(p@).contains(
                c,
            ) by {
                if in_grid(c) {
                    lemma_key_round_trip(c);
                    lemma_key_round_trip(p@);
                }
            }
            assert(self@ =~= old(self)@.insert(p@));
        }
        fresh
    }

    /// Takes `p` out of the set; returns whether it was present before.
    pub fn remove(&mut self, p: Point) -> (present: bool)
        ensures
            final(self)@ == old(self)@.remove(p@),
            present == old(self)@.contains(p@),
    {
        let k = pack(p);
        let present = self.keys.remove(&k);
        proof {
            assert forall|c: (int, int)| self@.contains(c) == old(self)@.remove(p@).contains(
                c,
            ) by {
                if in_grid(c) {
                    lemma_key_round_trip(c);
                    lemma_key_round_trip(p@);
                }
            }
            assert(self@ =~= old(self)@.remove(p@));
        }
        present
    }

    /// The points of the set, each once, in no particular order.
    pub fn points(&self) -> (v: Vec<Point>)
        ensures
            v@.no_duplicates(),
            v.len() == self@.len(),
            cells_of(v@) == self@,
    {
        let mut v: Vec<Point> = Vec::new();
        let ghost keys = vstd::std_specs::hash::spec_hash_keys_iter(&self.keys).remaining();
        for k in it: self.keys.iter()
            invariant
                it.seq() == keys,
                v.len() == it.index(),
                forall|j: int| 0 <= j < v.len() ==> (#[trigger] v[j])@ == cell_of(*keys[j] as int),
        {
            v.push(unpack(*k));
        }
        proof {
            self.lemma_view_is_image();
            vstd::std_specs::hash::axiom_spec_hash_keys_iter(&self.keys);
            let plain = keys.unref();
            assert forall|i: int, j: int| 0 <= i < v.len() && 0 <= j < v.len() && i != j implies v[i]
                != v[j] by {
                lemma_cell_round_trip(*keys[i] as int);
                lemma_cell_round_trip(*keys[j] as int);
                assert(keys[i] != keys[j]);
            }
            assert forall|c: (int, int)| cells_of(v@).contains(c) implies self@.contains(c) by {
                let i = choose|i: int| 0 <= i < v.len() && #[trigger] v[i]@ == c;
                lemma_cell_round_trip(*keys[i] as int);
                assert(plain[i] == *keys[i]);
                assert(plain.to_set().contains(plain[i]));
            }
            assert forall|c: (int, int)| self@.contains(c) implies cells_of(v@).contains(c) by {
                lemma_key_round_trip(c);
                let k = key_of(c) as u64;
                assert(plain.to_set().contains(k));
                let i = choose|i: int| 0 <= i < plain.len() && plain[i] == k;
                assert(v[i]@ == c);
            }
            assert(cells_of(v@) =~= self@);
        }
        v
    }

    /// Adds every point of `other` to the set.
    pub fn extend(&mut self, other: &PointSet)
        ensures
            final(self)@ == old(self)@.union(other@),
    {
        let added = other.points();
        let n = added.len();
        let mut i: usize = 0;
        proof {
            lemma_cells_of_ends(added@);
            assert(self@ =~= old(self)@.union(cells_of(added@.take(0))));
        }
        while i < n
            invariant
                n == added.len(),
                i <= n,
                self@ == old(self)@.union(cells_of(added@.take(i as int))),
            decreases n - i,
        {
            self.insert(added[i]);
            proof {
                lemma_cells_of_next(added@, i as int);
                assert(self@ =~= old(self)@.union(cells_of(added@.take(i + 1))));
            }
            i = i + 1;
        }
        proof {
            lemma_cells_of_ends(added@);
        }
    }
}

} // verus!
