//! The mathematical model of the game.
//!
//! A cell coordinate is modelled as a pair of unbounded integers.  The
//! functions here say what it means for two coordinates to be adjacent, how
//! many live neighbours a coordinate has in a given live set, and which live
//! set the next generation is.  Every executable entry point of the crate is
//! specified against [`next_gen`].

use vstd::prelude::*;

verus! {

/// Two lattice coordinates are adjacent when they are distinct and differ by
/// at most one in each component (the eight-cell Moore neighbourhood).
pub open spec fn is_adjacent(a: (int, int), b: (int, int)) -> bool {
    let dx = a.0 - b.0;
    let dy = a.1 - b.1;
    -1 <= dx <= 1 && -1 <= dy <= 1 && !(dx == 0 && dy == 0)
}

/// The eight neighbours of `p`, in the fixed offset order
/// `(-1,-1), (-1,0), (-1,1), (0,-1), (0,1), (1,-1), (1,0), (1,1)`.
pub open spec fn adjacent_seq(p: (int, int)) -> Seq<(int, int)> {
    seq![
        (p.0 - 1, p.1 - 1),
        (p.0 - 1, p.1),
        (p.0 - 1, p.1 + 1),
        (p.0, p.1 - 1),
        (p.0, p.1 + 1),
        (p.0 + 1, p.1 - 1),
        (p.0 + 1, p.1),
        (p.0 + 1, p.1 + 1),
    ]
}

/// How many members of `s` occur in the sequence `within`.
pub open spec fn overlap_count(s: Set<(int, int)>, within: Seq<(int, int)>) -> nat {
    s.intersect(within.to_set()).len()
}

/// How many live neighbours the coordinate `q` has in the live set `live`.
pub open spec fn neighbour_count(live: Set<(int, int)>, q: (int, int)) -> nat {
    overlap_count(live, adjacent_seq(q))
}

/// A live cell survives exactly when it has two or three live neighbours.
pub open spec fn survives_in(live: Set<(int, int)>, q: (int, int)) -> bool {
    live.contains(q) && (2 <= neighbour_count(live, q) <= 3)
}

/// A dead cell becomes alive exactly when it has exactly three live neighbours.
pub open spec fn born_in(live: Set<(int, int)>, q: (int, int)) -> bool {
    !live.contains(q) && neighbour_count(live, q) == 3
}

/// The members of `live` that survive into the next generation.
pub open spec fn survivors_of(live: Set<(int, int)>) -> Set<(int, int)> {
    Set::new(|q: (int, int)| survives_in(live, q))
}

/// The coordinates outside `live` that come alive in the next generation.
pub open spec fn births_of(live: Set<(int, int)>) -> Set<(int, int)> {
    Set::new(|q: (int, int)| born_in(live, q))
}

/// The next generation of a live set: its survivors together with its births.
pub open spec fn next_gen(live: Set<(int, int)>) -> Set<(int, int)> {
    survivors_of(live).union(births_of(live))
}

/// `p` and all eight of its neighbours have `i32`-representable coordinates.
pub open spec fn interior(p: (int, int)) -> bool {
    i32::MIN < p.0 < i32::MAX && i32::MIN < p.1 < i32::MAX
}

/// `p`, its neighbours, and their neighbours in turn are all
/// `i32`-representable; every neighbour of `p` is itself [`interior`].
pub open spec fn deep_interior(p: (int, int)) -> bool {
    i32::MIN + 1 < p.0 < i32::MAX - 1 && i32::MIN + 1 < p.1 < i32::MAX - 1
}

/// Every member of `s` is [`interior`].
pub open spec fn all_interior(s: Seq<(int, int)>) -> bool {
    forall|i: int| 0 <= i < s.len() ==> interior(#[trigger] s[i])
}

/// Every member of `s` is [`deep_interior`].
pub open spec fn all_deep_interior(s: Seq<(int, int)>) -> bool {
    forall|i: int| 0 <= i < s.len() ==> deep_interior(#[trigger] s[i])
}

/// The neighbourhood of any coordinate has exactly eight members, never
/// includes the coordinate itself, repeats no member, and holds exactly the
/// coordinates adjacent to `p`.
pub proof fn lemma_adjacency_of_eight(p: (int, int))
    ensures
        adjacent_seq(p).len() == 8,
        !adjacent_seq(p).contains(p),
        adjacent_seq(p).no_duplicates(),
        forall|q: (int, int)| adjacent_seq(p).contains(q) <==> is_adjacent(q, p),
{
    let s = adjacent_seq(p);
    assert forall|q: (int, int)| s.contains(q) <==> is_adjacent(q, p) by {
        if is_adjacent(q, p) {
            let dx = q.0 - p.0;
            let dy = q.1 - p.1;
            if dx == -1 && dy == -1 {
                assert(s[0] == q);
            } else if dx == -1 && dy == 0 {
                assert(s[1] == q);
            } else if dx == -1 && dy == 1 {
                assert(s[2] == q);
            } else if dx == 0 && dy == -1 {
                assert(s[3] == q);
            } else if dx == 0 && dy == 1 {
                assert(s[4] == q);
            } else if dx == 1 && dy == -1 {
                assert(s[5] == q);
            } else if dx == 1 && dy == 0 {
                assert(s[6] == q);
            } else {
                assert(s[7] == q);
            }
            assert(s.contains(q));
        }
        if s.contains(q) {
            let i = choose|i: int| 0 <= i < s.len() && s[i] == q;
            assert(is_adjacent(s[i], p));
        }
    }
    assert(!s.contains(p));
}

/// A coordinate that is adjacent to a [`deep_interior`] coordinate is
/// [`interior`].
pub proof fn lemma_deep_interior_neighbours(p: (int, int))
    requires
        deep_interior(p),
    ensures
        interior(p),
        forall|q: (int, int)| is_adjacent(q, p) ==> interior(q),
{
}

/// Inserting a fresh member into a counted set raises an overlap count by one
/// exactly when the new member occurs in the counted sequence.
pub proof fn lemma_overlap_count_insert(s: Set<(int, int)>, v: (int, int), within: Seq<(int, int)>)
    requires
        s.finite(),
        !s.contains(v),
    ensures
        overlap_count(s.insert(v), within) == overlap_count(s, within) + (if within.contains(v) {
            1int
        } else {
            0int
        }),
{
    broadcast use vstd::set::group_set_axioms;
    broadcast use vstd::seq_lib::seq_to_set_is_finite;

    let w = within.to_set();
    assert(s.intersect(w).finite());
    assert(!s.intersect(w).contains(v));
    if within.contains(v) {
        assert(s.insert(v).intersect(w) =~= s.intersect(w).insert(v));
    } else {
        assert(s.insert(v).intersect(w) =~= s.intersect(w));
    }
}

/// A coordinate with at least one live neighbour is adjacent to some member
/// of the live set.
pub proof fn lemma_neighbour_witness(live: Set<(int, int)>, q: (int, int))
    requires
        live.finite(),
        neighbour_count(live, q) > 0,
    ensures
        exists|p: (int, int)| live.contains(p) && is_adjacent(p, q),
{
    broadcast use vstd::set::group_set_axioms;
    broadcast use vstd::seq_lib::seq_to_set_is_finite;

    let s = live.intersect(adjacent_seq(q).to_set());
    assert(s.finite());
    assert(s.len() != 0);
    assert(s.contains(s.choose()));
    let p = s.choose();
    lemma_adjacency_of_eight(q);
    assert(live.contains(p) && is_adjacent(p, q));
}

/// The game's rules, cell by cell: a live cell with fewer than two or more
/// than three live neighbours dies, a live cell with two or three survives,
/// a dead cell comes alive exactly on three live neighbours.
pub proof fn lemma_conway_rules(live: Set<(int, int)>, q: (int, int))
    ensures
        live.contains(q) && neighbour_count(live, q) < 2 ==> !next_gen(live).contains(q),
        live.contains(q) && (neighbour_count(live, q) == 2 || neighbour_count(live, q) == 3)
            ==> next_gen(live).contains(q),
        live.contains(q) && neighbour_count(live, q) > 3 ==> !next_gen(live).contains(q),
        !live.contains(q) && neighbour_count(live, q) == 3 ==> next_gen(live).contains(q),
        !live.contains(q) && neighbour_count(live, q) != 3 ==> !next_gen(live).contains(q),
{
    broadcast use vstd::set::group_set_axioms;

}

/// Advancing the empty live set yields the empty live set: with no live
/// cells there is nothing to survive and nothing with three live neighbours.
pub proof fn lemma_next_gen_empty()
    ensures
        next_gen(Set::<(int, int)>::empty()) == Set::<(int, int)>::empty(),
{
    broadcast use vstd::set::group_set_axioms;

    let live = Set::<(int, int)>::empty();
    assert forall|q: (int, int)| !(#[trigger] next_gen(live).contains(q)) by {
        assert(live.intersect(adjacent_seq(q).to_set()) =~= Set::<(int, int)>::empty());
        assert(neighbour_count(live, q) == 0);
    }
    assert(next_gen(live) =~= Set::<(int, int)>::empty());
}

/// The next generation depends only on the set of live cells, never on the
/// order in which they are listed: two listings with the same members map to
/// the same next generation.  Together with the postconditions of the
/// `run_generation` entry points this makes repeated advancing deterministic.
pub proof fn lemma_advance_order_independent(first: Seq<(int, int)>, second: Seq<(int, int)>)
    requires
        first.to_set() == second.to_set(),
    ensures
        next_gen(first.to_set()) == next_gen(second.to_set()),
{
}

} // verus!
