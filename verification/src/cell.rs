//! A live cell that carries its own precomputed neighbourhood.
//!
//! The well-formedness invariant ties the stored neighbour list to the
//! cell's position, so neighbour tests never disagree with the adjacency
//! relation of the model.

use vstd::prelude::*;

use crate::position::{contains_position, pos_views, Position};
use crate::rules::{
    adjacent_seq, interior, is_adjacent, lemma_adjacency_of_eight, lemma_overlap_count_insert,
    neighbour_count, overlap_count,
};

verus! {

/// A live cell: its position together with the eight neighbouring positions.
#[derive(Debug, PartialEq, Eq, PartialOrd, Ord, Hash)]
pub struct Cell {
    position: Position,
    adjacent: Vec<Position>,
}

impl View for Cell {
    type V = (int, int);

    closed spec fn view(&self) -> (int, int) {
        self.position@
    }
}

/// The coordinate pairs of a sequence of cells.
pub open spec fn cell_views(s: Seq<Cell>) -> Seq<(int, int)> {
    s.map_values(|c: Cell| c@)
}

/// The live set named by a list of cells.
pub open spec fn cell_live_set(s: Seq<Cell>) -> Set<(int, int)> {
    cell_views(s).to_set()
}

/// Every cell in `s` is well formed.
pub open spec fn all_wf(s: Seq<Cell>) -> bool {
    forall|i: int| 0 <= i < s.len() ==> (#[trigger] s[i]).wf()
}

impl Cell {
    /// The stored neighbour list is exactly the neighbourhood of the
    /// position, and the position can host that neighbourhood in `i32`.
    pub closed spec fn wf(&self) -> bool {
        interior(self.position@) && pos_views(self.adjacent@) == adjacent_seq(self.position@)
    }

    pub fn new(x: i32, y: i32) -> (c: Cell)
        requires
            interior((x as int, y as int)),
        ensures
            c.wf(),
            c@ == (x as int, y as int),
    {
        let position = Position::new(x, y);
        let adjacent = position.adjacent();
        Cell { position, adjacent }
    }

    pub fn position(&self) -> (p: Position)
        ensures
            p@ == self@,
    {
        self.position
    }

    /// The cell's stored neighbour list.
    pub fn adjacent_positions(&self) -> (r: &Vec<Position>)
        requires
            self.wf(),
        ensures
            pos_views(r@) == adjacent_seq(self@),
    {
        &self.adjacent
    }

    /// Whether `other` sits on one of the eight positions adjacent to this
    /// cell.
    pub fn is_neighbour(&self, other: &Cell) -> (r: bool)
        requires
            self.wf(),
        ensures
            r == is_adjacent(other@, self@),
    {
        let r = contains_position(&self.adjacent, &other.position);
        proof {
            lemma_adjacency_of_eight(self@);
        }
        r
    }

    /// How many of the listed cells are neighbours of this cell.
    pub fn count_neighours(&self, cells: &Vec<Cell>) -> (r: usize)
        requires
            self.wf(),
            cell_views(cells@).no_duplicates(),
        ensures
            r == neighbour_count(cell_live_set(cells@), self@),
    {
        broadcast use vstd::set::group_set_axioms;
        broadcast use vstd::seq_lib::seq_to_set_is_finite;

        let ghost vs = cell_views(cells@);
        let ghost within = adjacent_seq(self@);
        proof {
            assert(vs.take(0).to_set() =~= Set::<(int, int)>::empty());
            assert(Set::<(int, int)>::empty().intersect(within.to_set()) =~= Set::<
                (int, int),
            >::empty());
        }
        let mut count: usize = 0;
        let mut i: usize = 0;
        while i < cells.len()
            invariant
                0 <= i <= cells@.len(),
                vs == cell_views(cells@),
                within == adjacent_seq(self@),
                self.wf(),
                vs.no_duplicates(),
                count <= i,
                count == overlap_count(vs.take(i as int).to_set(), within),
            decreases cells@.len() - i,
        {
            let hit = self.is_neighbour(&cells[i]);
            proof {
                let prefix = vs.take(i as int).to_set();
                let v = vs[i as int];
                assert(cells@[i as int]@ == v);
                assert(!prefix.contains(v)) by {
                    if vs.take(i as int).contains(v) {
                        let j = choose|j: int| 0 <= j < i && #[trigger] vs.take(i as int)[j] == v;
                        assert(vs[j] == vs[i as int]);
                    }
                };
                lemma_adjacency_of_eight(self@);
                assert(within.contains(v) == hit);
                lemma_overlap_count_insert(prefix, v, within);
                vs.lemma_take_succ_push(i as int);
                vs.take(i as int).lemma_push_to_set_commute(v);
                assert(vs.take(i as int + 1).to_set() == prefix.insert(v));
            }
            if hit {
                count = count + 1;
            }
            i = i + 1;
        }
        proof {
            assert(vs.take(vs.len() as int) =~= vs);
        }
        count
    }

    /// Whether this cell lives on to the next generation of the live set
    /// listed by `cells`.
    pub fn survives(&self, cells: &Vec<Cell>) -> (r: bool)
        requires
            self.wf(),
            cell_views(cells@).no_duplicates(),
        ensures
            r == (2 <= neighbour_count(cell_live_set(cells@), self@) <= 3),
    {
        let neighbours = self.count_neighours(cells);
        2 <= neighbours && neighbours <= 3
    }
}

} // verus!
