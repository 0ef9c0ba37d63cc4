//! A generation engine over plain positions, with a memoized adjacency cache.
//!
//! The cache is an association list from a position to its eight neighbours;
//! its well-formedness invariant says that every cached list is exactly the
//! neighbourhood of its key, so memoization can never change an answer.

use vstd::prelude::*;

use crate::position::{contains_position, live_set, pos_views, positions_adjacent, Position};
use crate::rules::{
    adjacent_seq, all_interior, births_of, born_in, interior, is_adjacent,
    lemma_adjacency_of_eight, lemma_neighbour_witness, lemma_overlap_count_insert,
    neighbour_count, next_gen, overlap_count, survives_in, survivors_of,
};

verus! {

/// A copy of a list of positions.
fn clone_positions(src: &Vec<Position>) -> (r: Vec<Position>)
    ensures
        r@ == src@,
{
    let mut r: Vec<Position> = Vec::new();
    let mut k: usize = 0;
    while k < src.len()
        invariant
            0 <= k <= src@.len(),
            r@ == src@.take(k as int),
        decreases src@.len() - k,
    {
        let p = src[k];
        r.push(p);
        proof {
            src@.lemma_take_succ_push(k as int);
        }
        k = k + 1;
    }
    proof {
        assert(src@.take(src@.len() as int) =~= src@);
    }
    r
}

/// The engine: a stateless transition function plus a monotonically growing
/// adjacency cache that only ever holds correct neighbourhoods.
pub struct GameEngine {
    cache: Vec<(Position, Vec<Position>)>,
}

impl GameEngine {
    /// Every cached entry maps a position to exactly its eight neighbours.
    pub closed spec fn wf(&self) -> bool {
        forall|k: int|
            0 <= k < self.cache@.len() ==> pos_views(
                (#[trigger] self.cache@[k]).1@,
            ) == adjacent_seq(self.cache@[k].0@)
    }

    /// A fresh engine with an empty adjacency cache.
    pub fn new() -> (e: GameEngine)
        ensures
            e.wf(),
    {
        GameEngine { cache: Vec::new() }
    }

    /// The eight neighbours of `position`, from the cache when present,
    /// computed and remembered otherwise.
    fn adjacent_positions(&mut self, position: &Position) -> (r: Vec<Position>)
        requires
            old(self).wf(),
            interior(position@),
        ensures
            final(self).wf(),
            pos_views(r@) == adjacent_seq(position@),
    {
        let mut k: usize = 0;
        while k < self.cache.len()
            invariant
                0 <= k <= self.cache@.len(),
                self.wf(),
            decreases self.cache@.len() - k,
        {
            if self.cache[k].0 == *position {
                return clone_positions(&self.cache[k].1);
            }
            k = k + 1;
        }
        let computed = position.adjacent();
        let stored = clone_positions(&computed);
        let ghost prev = self.cache@;
        self.cache.push((*position, stored));
        proof {
            assert forall|k2: int|
                0 <= k2 < self.cache@.len() implies pos_views(
                (#[trigger] self.cache@[k2]).1@,
            ) == adjacent_seq(self.cache@[k2].0@) by {
                if k2 < prev.len() {
                    assert(self.cache@[k2] == prev[k2]);
                }
            }
        }
        computed
    }

    /// One generation of the game: the survivors of the listed live cells
    /// followed by the newly born cells, together exactly the next
    /// generation of the live set.
    pub fn run_generation(&mut self, cells: &Vec<Position>) -> (r: Vec<Position>)
        requires
            old(self).wf(),
            pos_views(cells@).no_duplicates(),
            all_interior(pos_views(cells@)),
        ensures
            final(self).wf(),
            pos_views(r@).no_duplicates(),
            pos_views(r@).to_set() == next_gen(live_set(cells@)),
    {
        broadcast use vstd::set::group_set_axioms;
        broadcast use vstd::seq_lib::seq_to_set_is_finite;

        let ghost vs = pos_views(cells@);
        let ghost live = live_set(cells@);
        let mut survivors: Vec<Position> = Vec::new();
        let mut i: usize = 0;
        while i < cells.len()
            invariant
                0 <= i <= cells@.len(),
                vs == pos_views(cells@),
                live == live_set(cells@),
                vs.no_duplicates(),
                all_interior(vs),
                self.wf(),
                pos_views(survivors@).no_duplicates(),
                forall|t: int|
                    0 <= t < survivors@.len() ==> survives_in(
                        live,
                        #[trigger] pos_views(survivors@)[t],
                    ),
                forall|t: int|
                    0 <= t < i ==> (survives_in(live, #[trigger] vs[t]) ==> pos_views(
                        survivors@,
                    ).contains(vs[t])),
                forall|x: (int, int)| #[trigger]
                    pos_views(survivors@).contains(x) ==> vs.take(i as int).contains(x),
            decreases cells@.len() - i,
        {
            let c = cells[i];
            proof {
                assert(c@ == vs[i as int]);
                assert(interior(vs[i as int]));
            }
            let keep = self.survives(&c, cells);
            let ghost pre = survivors@;
            if keep {
                proof {
                    assert(vs.contains(vs[i as int]));
                    assert(live.contains(c@));
                    assert(!pos_views(pre).contains(c@)) by {
                        if vs.take(i as int).contains(c@) {
                            let j = choose|j: int|
                                0 <= j < i && #[trigger] vs.take(i as int)[j] == c@;
                            assert(vs[j] == vs[i as int]);
                        }
                    };
                }
                survivors.push(c);
                proof {
                    assert(pos_views(survivors@) =~= pos_views(pre).push(c@));
                    assert forall|x: (int, int)| pos_views(pre).contains(x) implies #[trigger]
                        pos_views(survivors@).contains(x) by {
                        vstd::seq_lib::lemma_seq_contains_after_push(pos_views(pre), c@, x);
                    }
                    assert(pos_views(survivors@)[pre.len() as int] == c@);
                    assert(pos_views(survivors@).contains(c@));
                    assert forall|t: int|
                        0 <= t < survivors@.len() implies survives_in(
                        live,
                        #[trigger] pos_views(survivors@)[t],
                    ) by {
                        if t < pre.len() {
                            assert(pos_views(survivors@)[t] == pos_views(pre)[t]);
                        } else {
                            assert(pos_views(survivors@)[t] == c@);
                        }
                    }
                }
            }
            proof {
                assert forall|t: int|
                    0 <= t < i + 1 implies (survives_in(live, #[trigger] vs[t]) ==> pos_views(
                    survivors@,
                ).contains(vs[t])) by {
                    if t < i && survives_in(live, vs[t]) {
                        assert(pos_views(pre).contains(vs[t]));
                        if keep {
                            vstd::seq_lib::lemma_seq_contains_after_push(
                                pos_views(pre),
                                c@,
                                vs[t],
                            );
                        }
                    }
                }
                assert forall|x: (int, int)| #[trigger]
                    pos_views(survivors@).contains(x) implies vs.take(i as int + 1).contains(
                    x,
                ) by {
                    if pos_views(pre).contains(x) {
                        assert(vs.take(i as int).contains(x));
                        let j2 = choose|j2: int|
                            0 <= j2 < i && #[trigger] vs.take(i as int)[j2] == x;
                        assert(vs.take(i as int + 1)[j2] == x);
                    } else {
                        assert(x == c@);
                        assert(vs.take(i as int + 1)[i as int] == x);
                    }
                }
            }
            i = i + 1;
        }
        proof {
            assert(vs.take(vs.len() as int) =~= vs);
        }
        let mut resurrected = self.resurrect_cells(cells);
        let ghost sv = pos_views(survivors@);
        let ghost bv = pos_views(resurrected@);
        let mut result = survivors;
        result.append(&mut resurrected);
        proof {
            assert(pos_views(result@) =~= sv + bv);
            assert forall|t: int, u: int|
                0 <= t < sv.len() && 0 <= u < bv.len() implies sv[t] != bv[u] by {
                assert(survives_in(live, sv[t]));
                assert(bv.contains(bv[u]));
                assert(bv.to_set().contains(bv[u]));
                assert(born_in(live, bv[u]));
            }
            vstd::seq_lib::lemma_no_dup_in_concat(sv, bv);
            vstd::seq_lib::seq_to_set_distributes_over_add(sv, bv);
            assert(sv.to_set() =~= survivors_of(live)) by {
                assert forall|x: (int, int)| #[trigger]
                    sv.to_set().contains(x) implies survivors_of(live).contains(x) by {
                    let t = choose|t: int| 0 <= t < sv.len() && #[trigger] sv[t] == x;
                    assert(survives_in(live, sv[t]));
                }
                assert forall|x: (int, int)| #[trigger]
                    survivors_of(live).contains(x) implies sv.to_set().contains(x) by {
                    assert(live.contains(x));
                    assert(vs.contains(x));
                    let t = choose|t: int| 0 <= t < vs.len() && #[trigger] vs[t] == x;
                    assert(survives_in(live, vs[t]));
                    assert(sv.contains(x));
                }
            }
            assert(pos_views(result@).to_set() =~= next_gen(live));
        }
        result
    }

    /// The positions outside the listed live set that come alive in its next
    /// generation: the dead positions with exactly three live neighbours.
    pub fn resurrect_cells(&mut self, positions: &Vec<Position>) -> (r: Vec<Position>)
        requires
            old(self).wf(),
            pos_views(positions@).no_duplicates(),
            all_interior(pos_views(positions@)),
        ensures
            final(self).wf(),
            pos_views(r@).no_duplicates(),
            pos_views(r@).to_set() == births_of(live_set(positions@)),
    {
        broadcast use vstd::set::group_set_axioms;
        broadcast use vstd::seq_lib::seq_to_set_is_finite;

        let ghost vs = pos_views(positions@);
        let ghost live = live_set(positions@);
        let mut candidates: Vec<Position> = Vec::new();
        let mut i: usize = 0;
        while i < positions.len()
            invariant
                0 <= i <= positions@.len(),
                vs == pos_views(positions@),
                live == live_set(positions@),
                vs.no_duplicates(),
                all_interior(vs),
                self.wf(),
                pos_views(candidates@).no_duplicates(),
                forall|m: int|
                    0 <= m < candidates@.len() ==> !live.contains(
                        #[trigger] pos_views(candidates@)[m],
                    ),
                forall|k: int, j2: int|
                    0 <= k < i && 0 <= j2 < 8 ==> (!live.contains(
                        #[trigger] adjacent_seq(vs[k])[j2],
                    ) ==> pos_views(candidates@).contains(adjacent_seq(vs[k])[j2])),
            decreases positions@.len() - i,
        {
            let p = positions[i];
            proof {
                assert(p@ == vs[i as int]);
                assert(interior(vs[i as int]));
            }
            let adjacent = self.adjacent_positions(&p);
            proof {
                assert(pos_views(adjacent@).len() == adjacent@.len());
                lemma_adjacency_of_eight(p@);
            }
            let mut j: usize = 0;
            while j < adjacent.len()
                invariant
                    0 <= j <= adjacent@.len(),
                    pos_views(adjacent@) == adjacent_seq(p@),
                    adjacent@.len() == 8,
                    0 <= i < vs.len(),
                    p@ == vs[i as int],
                    vs == pos_views(positions@),
                    live == live_set(positions@),
                    vs.no_duplicates(),
                    all_interior(vs),
                    self.wf(),
                    pos_views(candidates@).no_duplicates(),
                    forall|m: int|
                        0 <= m < candidates@.len() ==> !live.contains(
                            #[trigger] pos_views(candidates@)[m],
                        ),
                    forall|k: int, j2: int|
                        0 <= k < i && 0 <= j2 < 8 ==> (!live.contains(
                            #[trigger] adjacent_seq(vs[k])[j2],
                        ) ==> pos_views(candidates@).contains(adjacent_seq(vs[k])[j2])),
                    forall|l: int|
                        0 <= l < j ==> (!live.contains(#[trigger] adjacent_seq(vs[i as int])[l])
                            ==> pos_views(candidates@).contains(adjacent_seq(vs[i as int])[l])),
                decreases adjacent@.len() - j,
            {
                let q = adjacent[j];
                proof {
                    assert(q@ == adjacent_seq(p@)[j as int]);
                }
                let ghost pre = candidates@;
                let alive = contains_position(positions, &q);
                if !alive {
                    let seen = contains_position(&candidates, &q);
                    if !seen {
                        proof {
                            assert(!live.contains(q@));
                        }
                        candidates.push(q);
                        proof {
                            assert(pos_views(candidates@) =~= pos_views(pre).push(q@));
                            assert forall|x: (int, int)|
                                pos_views(pre).contains(x) implies #[trigger] pos_views(
                                candidates@,
                            ).contains(x) by {
                                vstd::seq_lib::lemma_seq_contains_after_push(
                                    pos_views(pre),
                                    q@,
                                    x,
                                );
                            }
                            assert(pos_views(candidates@)[pre.len() as int] == q@);
                            assert(pos_views(candidates@).contains(q@));
                            assert forall|m: int|
                                0 <= m < candidates@.len() implies !live.contains(
                                #[trigger] pos_views(candidates@)[m],
                            ) by {
                                if m < pre.len() {
                                    assert(pos_views(candidates@)[m] == pos_views(pre)[m]);
                                } else {
                                    assert(pos_views(candidates@)[m] == q@);
                                }
                            }
                        }
                    }
                }
                proof {
                    assert(forall|x: (int, int)|
                        pos_views(pre).contains(x) ==> #[trigger] pos_views(
                            candidates@,
                        ).contains(x));
                    assert(live.contains(q@) || pos_views(candidates@).contains(q@));
                    assert forall|l: int|
                        0 <= l < j + 1 implies (!live.contains(
                        #[trigger] adjacent_seq(vs[i as int])[l],
                    ) ==> pos_views(candidates@).contains(adjacent_seq(vs[i as int])[l])) by {
                        if l < j {
                            if !live.contains(adjacent_seq(vs[i as int])[l]) {
                                assert(pos_views(pre).contains(adjacent_seq(vs[i as int])[l]));
                            }
                        } else {
                            assert(adjacent_seq(vs[i as int])[l] == q@);
                        }
                    }
                    assert forall|k: int, j2: int|
                        0 <= k < i && 0 <= j2 < 8 implies (!live.contains(
                        #[trigger] adjacent_seq(vs[k])[j2],
                    ) ==> pos_views(candidates@).contains(adjacent_seq(vs[k])[j2])) by {
                        if !live.contains(adjacent_seq(vs[k])[j2]) {
                            assert(pos_views(pre).contains(adjacent_seq(vs[k])[j2]));
                        }
                    }
                }
                j = j + 1;
            }
            i = i + 1;
        }
        let ghost cv = pos_views(candidates@);
        let mut born: Vec<Position> = Vec::new();
        let mut m: usize = 0;
        while m < candidates.len()
            invariant
                0 <= m <= candidates@.len(),
                cv == pos_views(candidates@),
                vs == pos_views(positions@),
                live == live_set(positions@),
                vs.no_duplicates(),
                cv.no_duplicates(),
                forall|t: int| 0 <= t < cv.len() ==> !live.contains(#[trigger] cv[t]),
                pos_views(born@).no_duplicates(),
                forall|t: int|
                    0 <= t < born@.len() ==> born_in(live, #[trigger] pos_views(born@)[t]),
                forall|t: int|
                    0 <= t < m ==> (neighbour_count(live, #[trigger] cv[t]) == 3
                        ==> pos_views(born@).contains(cv[t])),
                forall|x: (int, int)| #[trigger]
                    pos_views(born@).contains(x) ==> cv.take(m as int).contains(x),
            decreases candidates@.len() - m,
        {
            let q = candidates[m];
            proof {
                assert(q@ == cv[m as int]);
            }
            let n = count_live_neighbours(positions, &q);
            let ghost pre = born@;
            if n == 3 {
                proof {
                    assert(!pos_views(pre).contains(q@)) by {
                        if cv.take(m as int).contains(q@) {
                            let j = choose|j: int|
                                0 <= j < m && #[trigger] cv.take(m as int)[j] == q@;
                            assert(cv[j] == cv[m as int]);
                        }
                    };
                    assert(!live.contains(cv[m as int]));
                }
                born.push(q);
                proof {
                    assert(pos_views(born@) =~= pos_views(pre).push(q@));
                    assert forall|x: (int, int)|
                        pos_views(pre).contains(x) implies #[trigger] pos_views(
                        born@,
                    ).contains(x) by {
                        vstd::seq_lib::lemma_seq_contains_after_push(pos_views(pre), q@, x);
                    }
                    assert(pos_views(born@)[pre.len() as int] == q@);
                    assert(pos_views(born@).contains(q@));
                    assert forall|t: int|
                        0 <= t < born@.len() implies born_in(
                        live,
                        #[trigger] pos_views(born@)[t],
                    ) by {
                        if t < pre.len() {
                            assert(pos_views(born@)[t] == pos_views(pre)[t]);
                        } else {
                            assert(pos_views(born@)[t] == q@);
                        }
                    }
                }
            }
            proof {
                assert(forall|x: (int, int)|
                    pos_views(pre).contains(x) ==> #[trigger] pos_views(born@).contains(x));
                assert forall|t: int|
                    0 <= t < m + 1 implies (neighbour_count(live, #[trigger] cv[t]) == 3
                        ==> pos_views(born@).contains(cv[t])) by {
                    if t < m {
                        if neighbour_count(live, cv[t]) == 3 {
                            assert(pos_views(pre).contains(cv[t]));
                        }
                    }
                }
                assert forall|x: (int, int)| #[trigger]
                    pos_views(born@).contains(x) implies cv.take(m as int + 1).contains(x) by {
                    if pos_views(pre).contains(x) {
                        assert(cv.take(m as int).contains(x));
                        let j2 = choose|j2: int|
                            0 <= j2 < m && #[trigger] cv.take(m as int)[j2] == x;
                        assert(cv.take(m as int + 1)[j2] == x);
                    } else {
                        assert(x == q@);
                        assert(cv.take(m as int + 1)[m as int] == x);
                    }
                }
            }
            m = m + 1;
        }
        proof {
            assert(cv.take(cv.len() as int) =~= cv);
            let bv = pos_views(born@);
            assert forall|x: (int, int)| #[trigger]
                bv.to_set().contains(x) implies births_of(live).contains(x) by {
                let t = choose|t: int| 0 <= t < bv.len() && #[trigger] bv[t] == x;
                assert(born_in(live, bv[t]));
            }
            assert forall|x: (int, int)| #[trigger]
                births_of(live).contains(x) implies bv.to_set().contains(x) by {
                assert(born_in(live, x));
                lemma_neighbour_witness(live, x);
                let w = choose|w: (int, int)| live.contains(w) && is_adjacent(w, x);
                assert(vs.contains(w));
                let k = choose|k: int| 0 <= k < vs.len() && #[trigger] vs[k] == w;
                lemma_adjacency_of_eight(w);
                assert(is_adjacent(x, w));
                assert(adjacent_seq(w).contains(x));
                let j = choose|j: int|
                    0 <= j < adjacent_seq(w).len() && #[trigger] adjacent_seq(w)[j] == x;
                assert(adjacent_seq(vs[k])[j] == x);
                assert(cv.contains(x));
                let t = choose|t: int| 0 <= t < cv.len() && #[trigger] cv[t] == x;
                assert(neighbour_count(live, cv[t]) == 3);
                assert(bv.contains(cv[t]));
                assert(bv.to_set().contains(x));
            }
            assert(bv.to_set() =~= births_of(live));
        }
        born
    }

    /// Whether the cell at `position` lives on to the next generation of the
    /// live set listed by `cell_positions`.
    pub fn survives(&mut self, position: &Position, cell_positions: &Vec<Position>) -> (r: bool)
        requires
            old(self).wf(),
            interior(position@),
            pos_views(cell_positions@).no_duplicates(),
        ensures
            final(self).wf(),
            r == (2 <= neighbour_count(live_set(cell_positions@), position@) <= 3),
    {
        let adjacent = self.adjacent_positions(position);
        let neighbours = count_adjacent_cells(&adjacent, cell_positions);
        2 <= neighbours && neighbours <= 3
    }
}

/// How many of the listed cells appear among `adjacents`.
pub fn count_adjacent_cells(adjacents: &Vec<Position>, cell_positions: &Vec<Position>) -> (r: usize)
    requires
        pos_views(cell_positions@).no_duplicates(),
    ensures
        r == overlap_count(live_set(cell_positions@), pos_views(adjacents@)),
{
    broadcast use vstd::set::group_set_axioms;
    broadcast use vstd::seq_lib::seq_to_set_is_finite;

    let ghost vs = pos_views(cell_positions@);
    let ghost within = pos_views(adjacents@);
    proof {
        assert(vs.take(0).to_set() =~= Set::<(int, int)>::empty());
        assert(Set::<(int, int)>::empty().intersect(within.to_set()) =~= Set::<(int, int)>::empty());
    }
    let mut count: usize = 0;
    let mut i: usize = 0;
    while i < cell_positions.len()
        invariant
            0 <= i <= cell_positions@.len(),
            vs == pos_views(cell_positions@),
            within == pos_views(adjacents@),
            vs.no_duplicates(),
            count <= i,
            count == overlap_count(vs.take(i as int).to_set(), within),
        decreases cell_positions@.len() - i,
    {
        let c = cell_positions[i];
        let hit = contains_position(adjacents, &c);
        proof {
            let prefix = vs.take(i as int).to_set();
            let v = vs[i as int];
            assert(c@ == v);
            assert(!prefix.contains(v)) by {
                if vs.take(i as int).contains(v) {
                    let j = choose|j: int| 0 <= j < i && #[trigger] vs.take(i as int)[j] == v;
                    assert(vs[j] == vs[i as int]);
                }
            };
            lemma_overlap_count_insert(prefix, v, within);
            vs.lemma_take_succ_push(i as int);
            vs.take(i as int).lemma_push_to_set_commute(v);
            assert(vs.take(i as int + 1).to_set() == prefix.insert(v));
        }
        if hit {
            count = count + 1;
        }
        i = i + 1;
    }
    proof {
        assert(vs.take(vs.len() as int) =~= vs);
    }
    count
}

/// The eight neighbouring positions of `position`, in the fixed offset order.
pub fn compute_adjacent_positions(position: &Position) -> (r: Vec<Position>)
    requires
        interior(position@),
    ensures
        pos_views(r@) == adjacent_seq(position@),
{
    position.adjacent()
}

/// How many live neighbours the coordinate of `q` has in the live set listed
/// by `cell_positions`.
pub fn count_live_neighbours(cell_positions: &Vec<Position>, q: &Position) -> (r: usize)
    requires
        pos_views(cell_positions@).no_duplicates(),
    ensures
        r == neighbour_count(live_set(cell_positions@), q@),
{
    broadcast use vstd::set::group_set_axioms;
    broadcast use vstd::seq_lib::seq_to_set_is_finite;

    let ghost vs = pos_views(cell_positions@);
    let ghost within = adjacent_seq(q@);
    proof {
        assert(vs.take(0).to_set() =~= Set::<(int, int)>::empty());
        assert(Set::<(int, int)>::empty().intersect(within.to_set()) =~= Set::<(int, int)>::empty());
    }
    let mut count: usize = 0;
    let mut i: usize = 0;
    while i < cell_positions.len()
        invariant
            0 <= i <= cell_positions@.len(),
            vs == pos_views(cell_positions@),
            within == adjacent_seq(q@),
            vs.no_duplicates(),
            count <= i,
            count == overlap_count(vs.take(i as int).to_set(), within),
        decreases cell_positions@.len() - i,
    {
        let c = cell_positions[i];
        let hit = positions_adjacent(&c, q);
        proof {
            let prefix = vs.take(i as int).to_set();
            let v = vs[i as int];
            assert(c@ == v);
            assert(!prefix.contains(v)) by {
                if vs.take(i as int).contains(v) {
                    let j = choose|j: int| 0 <= j < i && #[trigger] vs.take(i as int)[j] == v;
                    assert(vs[j] == vs[i as int]);
                }
            };
            lemma_adjacency_of_eight(q@);
            assert(within.contains(v) == hit);
            lemma_overlap_count_insert(prefix, v, within);
            vs.lemma_take_succ_push(i as int);
            vs.take(i as int).lemma_push_to_set_commute(v);
            assert(vs.take(i as int + 1).to_set() == prefix.insert(v));
        }
        if hit {
            count = count + 1;
        }
        i = i + 1;
    }
    proof {
        assert(vs.take(vs.len() as int) =~= vs);
    }
    count
}

} // verus!
