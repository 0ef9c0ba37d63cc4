//! Lattice coordinates and their neighbourhoods as executable values.

use vstd::prelude::*;

use crate::rules::{adjacent_seq, interior, is_adjacent};

verus! {

/// A cell coordinate on the lattice: an ordered pair of signed integers.
/// Equality and hashing go by the coordinate pair alone.
#[derive(Clone, Copy, Debug, PartialEq, Eq, Hash, PartialOrd, Ord, Structural)]
pub struct Position {
    pub x: i32,
    pub y: i32,
}

impl View for Position {
    type V = (int, int);

    open spec fn view(&self) -> (int, int) {
        (self.x as int, self.y as int)
    }
}

/// The coordinate pairs of a sequence of positions.
pub open spec fn pos_views(s: Seq<Position>) -> Seq<(int, int)> {
    s.map_values(|p: Position| p@)
}

/// The live set named by a list of positions.
pub open spec fn live_set(s: Seq<Position>) -> Set<(int, int)> {
    pos_views(s).to_set()
}

impl Position {
    pub fn new(x: i32, y: i32) -> (p: Position)
        ensures
            p@ == (x as int, y as int),
    {
        Position { x, y }
    }

    /// The eight neighbouring positions, in the fixed offset order of
    /// [`adjacent_seq`].
    pub fn adjacent(&self) -> (r: Vec<Position>)
        requires
            interior(self@),
        ensures
            pos_views(r@) == adjacent_seq(self@),
    {
        let mut r: Vec<Position> = Vec::new();
        r.push(Position::new(self.x - 1, self.y - 1));
        r.push(Position::new(self.x - 1, self.y));
        r.push(Position::new(self.x - 1, self.y + 1));
        r.push(Position::new(self.x, self.y - 1));
        r.push(Position::new(self.x, self.y + 1));
        r.push(Position::new(self.x + 1, self.y - 1));
        r.push(Position::new(self.x + 1, self.y));
        r.push(Position::new(self.x + 1, self.y + 1));
        proof {
            assert(pos_views(r@) =~= adjacent_seq(self@));
        }
        r
    }
}

/// Whether the coordinate pair of `p` occurs in `list`.
pub fn contains_position(list: &Vec<Position>, p: &Position) -> (r: bool)
    ensures
        r == pos_views(list@).contains(p@),
{
    let mut i: usize = 0;
    while i < list.len()
        invariant
            0 <= i <= list@.len(),
            forall|j: int| 0 <= j < i ==> pos_views(list@)[j] != p@,
        decreases list@.len() - i,
    {
        if list[i] == *p {
            proof {
                assert(pos_views(list@)[i as int] == p@);
            }
            return true;
        }
        i = i + 1;
    }
    false
}

/// Whether the coordinates of `a` and `b` are adjacent on the lattice.
pub fn positions_adjacent(a: &Position, b: &Position) -> (r: bool)
    ensures
        r == is_adjacent(a@, b@),
{
    let dx = (a.x as i64) - (b.x as i64);
    let dy = (a.y as i64) - (b.y as i64);
    (-1 <= dx && dx <= 1) && (-1 <= dy && dy <= 1) && !(dx == 0 && dy == 0)
}

} // verus!
