//! A generation advance over lists of [`Cell`] values.
//!
//! This is the stateless counterpart of the engine: the cells carry their
//! neighbourhoods themselves, and one generation is again proved to be
//! exactly [`next_gen`] of the live set that was passed in.

use vstd::prelude::*;

use crate::cell::{all_wf, cell_live_set, cell_views, Cell};
use crate::engine::count_live_neighbours;
use crate::position::{contains_position, pos_views, Position};
use crate::rules::{
    adjacent_seq, all_deep_interior, all_interior, births_of, born_in, deep_interior, interior,
    is_adjacent,
    lemma_adjacency_of_eight, lemma_deep_interior_neighbours, lemma_neighbour_witness,
    neighbour_count, next_gen, survives_in, survivors_of,
};

verus! {

/// The positions of the listed cells, in order.
pub(crate) fn positions_of(cells: &Vec<Cell>) -> (r: Vec<Position>)
    ensures
        pos_views(r@) == cell_views(cells@),
{
    let ghost vs = cell_views(cells@);
    let mut r: Vec<Position> = Vec::new();
    let mut k: usize = 0;
    while k < cells.len()
        invariant
            0 <= k <= cells@.len(),
            vs == cell_views(cells@),
            pos_views(r@) == vs.take(k as int),
        decreases cells@.len() - k,
    {
        let p = cells[k].position();
        let ghost pre = r@;
        r.push(p);
        proof {
            assert(p@ == vs[k as int]);
            vs.lemma_take_succ_push(k as int);
            assert(pos_views(r@) =~= pos_views(pre).push(p@));
        }
        k = k + 1;
    }
    proof {
        assert(vs.take(vs.len() as int) =~= vs);
    }
    r
}

/// One generation of the game over cells: the survivors of the listed live
/// cells followed by the newly born cells, together exactly the next
/// generation of the live set.
pub fn run_generation(cells: &Vec<Cell>) -> (r: Vec<Cell>)
    requires
        all_wf(cells@),
        cell_views(cells@).no_duplicates(),
        all_deep_interior(cell_views(cells@)),
    ensures
        all_wf(r@),
        cell_views(r@).no_duplicates(),
        cell_live_set(r@) == next_gen(cell_live_set(cells@)),
{
    broadcast use vstd::set::group_set_axioms;
    broadcast use vstd::seq_lib::seq_to_set_is_finite;

    let ghost vs = cell_views(cells@);
    let ghost live = cell_live_set(cells@);
    let mut survivors: Vec<Cell> = Vec::new();
    let mut i: usize = 0;
    while i < cells.len()
        invariant
            0 <= i <= cells@.len(),
            vs == cell_views(cells@),
            live == cell_live_set(cells@),
            all_wf(cells@),
            vs.no_duplicates(),
            all_deep_interior(vs),
            all_wf(survivors@),
            cell_views(survivors@).no_duplicates(),
            forall|t: int|
                0 <= t < survivors@.len() ==> survives_in(
                    live,
                    #[trigger] cell_views(survivors@)[t],
                ),
            forall|t: int|
                0 <= t < i ==> (survives_in(live, #[trigger] vs[t]) ==> cell_views(
                    survivors@,
                ).contains(vs[t])),
            forall|x: (int, int)| #[trigger]
                cell_views(survivors@).contains(x) ==> vs.take(i as int).contains(x),
        decreases cells@.len() - i,
    {
        proof {
            assert(cells@[i as int].wf());
            assert(cells@[i as int]@ == vs[i as int]);
            lemma_deep_interior_neighbours(vs[i as int]);
        }
        let keep = cells[i].survives(cells);
        let ghost pre = survivors@;
        if keep {
            let p = cells[i].position();
            proof {
                assert(p@ == vs[i as int]);
                assert(interior((p.x as int, p.y as int)));
                assert(vs.contains(vs[i as int]));
                assert(live.contains(vs[i as int]));
                assert(!cell_views(pre).contains(p@)) by {
                    if vs.take(i as int).contains(p@) {
                        let j = choose|j: int| 0 <= j < i && #[trigger] vs.take(i as int)[j] == p@;
                        assert(vs[j] == vs[i as int]);
                    }
                };
            }
            let fresh = Cell::new(p.x, p.y);
            survivors.push(fresh);
            proof {
                assert(cell_views(survivors@) =~= cell_views(pre).push(p@));
                assert forall|x: (int, int)| cell_views(pre).contains(x) implies #[trigger]
                    cell_views(survivors@).contains(x) by {
                    vstd::seq_lib::lemma_seq_contains_after_push(cell_views(pre), p@, x);
                }
                assert(cell_views(survivors@)[pre.len() as int] == p@);
                assert(cell_views(survivors@).contains(p@));
                assert forall|t: int|
                    0 <= t < survivors@.len() implies (#[trigger] survivors@[t]).wf() by {
                    if t < pre.len() {
                        assert(survivors@[t] == pre[t]);
                    }
                }
                assert forall|t: int|
                    0 <= t < survivors@.len() implies survives_in(
                    live,
                    #[trigger] cell_views(survivors@)[t],
                ) by {
                    if t < pre.len() {
                        assert(cell_views(survivors@)[t] == cell_views(pre)[t]);
                    } else {
                        assert(cell_views(survivors@)[t] == p@);
                    }
                }
            }
        }
        proof {
            assert forall|t: int|
                0 <= t < i + 1 implies (survives_in(live, #[trigger] vs[t]) ==> cell_views(
                survivors@,
            ).contains(vs[t])) by {
                if t < i && survives_in(live, vs[t]) {
                    assert(cell_views(pre).contains(vs[t]));
                    if keep {
                        vstd::seq_lib::lemma_seq_contains_after_push(
                            cell_views(pre),
                            vs[i as int],
                            vs[t],
                        );
                    }
                }
            }
            assert forall|x: (int, int)| #[trigger]
                cell_views(survivors@).contains(x) implies vs.take(i as int + 1).contains(x) by {
                if cell_views(pre).contains(x) {
                    assert(vs.take(i as int).contains(x));
                    let j2 = choose|j2: int| 0 <= j2 < i && #[trigger] vs.take(i as int)[j2] == x;
                    assert(vs.take(i as int + 1)[j2] == x);
                } else {
                    assert(x == vs[i as int]);
                    assert(vs.take(i as int + 1)[i as int] == x);
                }
            }
        }
        i = i + 1;
    }
    proof {
        assert(vs.take(vs.len() as int) =~= vs);
    }
    let mut resurrected = resurrect_cells(cells);
    let ghost sv = cell_views(survivors@);
    let ghost bv = cell_views(resurrected@);
    let ghost rsv = survivors@;
    let ghost rbv = resurrected@;
    let mut result = survivors;
    result.append(&mut resurrected);
    proof {
        assert(cell_views(result@) =~= sv + bv);
        assert forall|t: int| 0 <= t < result@.len() implies (#[trigger] result@[t]).wf() by {
            if t < rsv.len() {
                assert(result@[t] == rsv[t]);
            } else {
                assert(result@[t] == rbv[t - rsv.len()]);
            }
        }
        assert forall|t: int, u: int|
            0 <= t < sv.len() && 0 <= u < bv.len() implies sv[t] != bv[u] by {
            assert(survives_in(live, sv[t]));
            assert(bv.contains(bv[u]));
            assert(bv.to_set().contains(bv[u]));
            assert(born_in(live, bv[u]));
        }
        vstd::seq_lib::lemma_no_dup_in_concat(sv, bv);
        vstd::seq_lib::seq_to_set_distributes_over_add(sv, bv);
        assert(sv.to_set() =~= survivors_of(live)) by {
            assert forall|x: (int, int)| #[trigger]
                sv.to_set().contains(x) implies survivors_of(live).contains(x) by {
                let t = choose|t: int| 0 <= t < sv.len() && #[trigger] sv[t] == x;
                assert(survives_in(live, sv[t]));
            }
            assert forall|x: (int, int)| #[trigger]
                survivors_of(live).contains(x) implies sv.to_set().contains(x) by {
                assert(live.contains(x));
                assert(vs.contains(x));
                let t = choose|t: int| 0 <= t < vs.len() && #[trigger] vs[t] == x;
                assert(survives_in(live, vs[t]));
                assert(sv.contains(x));
            }
        }
        assert(cell_views(result@).to_set() =~= next_gen(live));
    }
    result
}

/// The cells born into the next generation of the listed live cells: one
/// cell for every dead position with exactly three live neighbours.
pub fn resurrect_cells(cells: &Vec<Cell>) -> (r: Vec<Cell>)
    requires
        all_wf(cells@),
        cell_views(cells@).no_duplicates(),
        all_deep_interior(cell_views(cells@)),
    ensures
        all_wf(r@),
        cell_views(r@).no_duplicates(),
        cell_live_set(r@) == births_of(cell_live_set(cells@)),
{
    broadcast use vstd::set::group_set_axioms;
    broadcast use vstd::seq_lib::seq_to_set_is_finite;

    let ghost vs = cell_views(cells@);
    let ghost live = cell_live_set(cells@);
    let positions = positions_of(cells);
    let mut candidates: Vec<Position> = Vec::new();
    let mut i: usize = 0;
    while i < cells.len()
        invariant
            0 <= i <= cells@.len(),
            vs == cell_views(cells@),
            live == cell_live_set(cells@),
            pos_views(positions@) == vs,
            all_wf(cells@),
            vs.no_duplicates(),
            all_deep_interior(vs),
            pos_views(candidates@).no_duplicates(),
            all_interior(pos_views(candidates@)),
            forall|m: int|
                0 <= m < candidates@.len() ==> !live.contains(
                    #[trigger] pos_views(candidates@)[m],
                ),
            forall|k: int, j2: int|
                0 <= k < i && 0 <= j2 < 8 ==> (!live.contains(
                    #[trigger] adjacent_seq(vs[k])[j2],
                ) ==> pos_views(candidates@).contains(adjacent_seq(vs[k])[j2])),
        decreases cells@.len() - i,
    {
        proof {
            assert(cells@[i as int].wf());
            assert(cells@[i as int]@ == vs[i as int]);
            lemma_adjacency_of_eight(vs[i as int]);
            lemma_deep_interior_neighbours(vs[i as int]);
        }
        let adjacent = cells[i].adjacent_positions();
        proof {
            assert(pos_views(adjacent@).len() == adjacent@.len());
        }
        let mut j: usize = 0;
        while j < adjacent.len()
            invariant
                0 <= j <= adjacent@.len(),
                pos_views(adjacent@) == adjacent_seq(vs[i as int]),
                adjacent@.len() == 8,
                0 <= i < vs.len(),
                deep_interior(vs[i as int]),
                vs == cell_views(cells@),
                live == cell_live_set(cells@),
                pos_views(positions@) == vs,
                vs.no_duplicates(),
                pos_views(candidates@).no_duplicates(),
                all_interior(pos_views(candidates@)),
                forall|m: int|
                    0 <= m < candidates@.len() ==> !live.contains(
                        #[trigger] pos_views(candidates@)[m],
                    ),
                forall|k: int, j2: int|
                    0 <= k < i && 0 <= j2 < 8 ==> (!live.contains(
                        #[trigger] adjacent_seq(vs[k])[j2],
                    ) ==> pos_views(candidates@).contains(adjacent_seq(vs[k])[j2])),
                forall|l: int|
                    0 <= l < j ==> (!live.contains(#[trigger] adjacent_seq(vs[i as int])[l])
                        ==> pos_views(candidates@).contains(adjacent_seq(vs[i as int])[l])),
            decreases adjacent@.len() - j,
        {
            let q = adjacent[j];
            proof {
                assert(q@ == adjacent_seq(vs[i as int])[j as int]);
                assert(adjacent_seq(vs[i as int]).contains(q@));
                lemma_adjacency_of_eight(vs[i as int]);
                lemma_deep_interior_neighbours(vs[i as int]);
                assert(interior(q@));
            }
            let ghost pre = candidates@;
            let alive = contains_position(&positions, &q);
            if !alive {
                let seen = contains_position(&candidates, &q);
                if !seen {
                    proof {
                        assert(!live.contains(q@));
                    }
                    candidates.push(q);
                    proof {
                        assert(pos_views(candidates@) =~= pos_views(pre).push(q@));
                        assert forall|x: (int, int)|
                            pos_views(pre).contains(x) implies #[trigger] pos_views(
                            candidates@,
                        ).contains(x) by {
                            vstd::seq_lib::lemma_seq_contains_after_push(pos_views(pre), q@, x);
                        }
                        assert(pos_views(candidates@)[pre.len() as int] == q@);
                        assert(pos_views(candidates@).contains(q@));
                        assert forall|m: int|
                            0 <= m < candidates@.len() implies !live.contains(
                            #[trigger] pos_views(candidates@)[m],
                        ) && interior(pos_views(candidates@)[m]) by {
                            if m < pre.len() {
                                assert(pos_views(candidates@)[m] == pos_views(pre)[m]);
                            } else {
                                assert(pos_views(candidates@)[m] == q@);
                            }
                        }
                    }
                }
            }
            proof {
                assert(forall|x: (int, int)|
                    pos_views(pre).contains(x) ==> #[trigger] pos_views(candidates@).contains(x));
                assert(live.contains(q@) || pos_views(candidates@).contains(q@));
                assert forall|l: int|
                    0 <= l < j + 1 implies (!live.contains(
                    #[trigger] adjacent_seq(vs[i as int])[l],
                ) ==> pos_views(candidates@).contains(adjacent_seq(vs[i as int])[l])) by {
                    if l < j {
                        if !live.contains(adjacent_seq(vs[i as int])[l]) {
                            assert(pos_views(pre).contains(adjacent_seq(vs[i as int])[l]));
                        }
                    } else {
                        assert(adjacent_seq(vs[i as int])[l] == q@);
                    }
                }
                assert forall|k: int, j2: int|
                    0 <= k < i && 0 <= j2 < 8 implies (!live.contains(
                    #[trigger] adjacent_seq(vs[k])[j2],
                ) ==> pos_views(candidates@).contains(adjacent_seq(vs[k])[j2])) by {
                    if !live.contains(adjacent_seq(vs[k])[j2]) {
                        assert(pos_views(pre).contains(adjacent_seq(vs[k])[j2]));
                    }
                }
            }
            j = j + 1;
        }
        i = i + 1;
    }
    let ghost cv = pos_views(candidates@);
    let mut born: Vec<Cell> = Vec::new();
    let mut m: usize = 0;
    while m < candidates.len()
        invariant
            0 <= m <= candidates@.len(),
            cv == pos_views(candidates@),
            vs == cell_views(cells@),
            live == cell_live_set(cells@),
            pos_views(positions@) == vs,
            vs.no_duplicates(),
            cv.no_duplicates(),
            all_interior(cv),
            forall|t: int| 0 <= t < cv.len() ==> !live.contains(#[trigger] cv[t]),
            all_wf(born@),
            cell_views(born@).no_duplicates(),
            forall|t: int|
                0 <= t < born@.len() ==> born_in(live, #[trigger] cell_views(born@)[t]),
            forall|t: int|
                0 <= t < m ==> (neighbour_count(live, #[trigger] cv[t]) == 3 ==> cell_views(
                    born@,
                ).contains(cv[t])),
            forall|x: (int, int)| #[trigger]
                cell_views(born@).contains(x) ==> cv.take(m as int).contains(x),
        decreases candidates@.len() - m,
    {
        let q = candidates[m];
        proof {
            assert(q@ == cv[m as int]);
            assert(interior(cv[m as int]));
        }
        let n = count_live_neighbours(&positions, &q);
        let ghost pre = born@;
        if n == 3 {
            proof {
                assert(!cell_views(pre).contains(q@)) by {
                    if cv.take(m as int).contains(q@) {
                        let j = choose|j: int| 0 <= j < m && #[trigger] cv.take(m as int)[j] == q@;
                        assert(cv[j] == cv[m as int]);
                    }
                };
                assert(!live.contains(cv[m as int]));
            }
            let fresh = Cell::new(q.x, q.y);
            born.push(fresh);
            proof {
                assert(cell_views(born@) =~= cell_views(pre).push(q@));
                assert forall|x: (int, int)| cell_views(pre).contains(x) implies #[trigger]
                    cell_views(born@).contains(x) by {
                    vstd::seq_lib::lemma_seq_contains_after_push(cell_views(pre), q@, x);
                }
                assert(cell_views(born@)[pre.len() as int] == q@);
                assert(cell_views(born@).contains(q@));
                assert forall|t: int| 0 <= t < born@.len() implies (#[trigger] born@[t]).wf() by {
                    if t < pre.len() {
                        assert(born@[t] == pre[t]);
                    }
                }
                assert forall|t: int|
                    0 <= t < born@.len() implies born_in(
                    live,
                    #[trigger] cell_views(born@)[t],
                ) by {
                    if t < pre.len() {
                        assert(cell_views(born@)[t] == cell_views(pre)[t]);
                    } else {
                        assert(cell_views(born@)[t] == q@);
                    }
                }
            }
        }
        proof {
            assert(forall|x: (int, int)|
                cell_views(pre).contains(x) ==> #[trigger] cell_views(born@).contains(x));
            assert forall|t: int|
                0 <= t < m + 1 implies (neighbour_count(live, #[trigger] cv[t]) == 3
                    ==> cell_views(born@).contains(cv[t])) by {
                if t < m {
                    if neighbour_count(live, cv[t]) == 3 {
                        assert(cell_views(pre).contains(cv[t]));
                    }
                }
            }
            assert forall|x: (int, int)| #[trigger]
                cell_views(born@).contains(x) implies cv.take(m as int + 1).contains(x) by {
                if cell_views(pre).contains(x) {
                    assert(cv.take(m as int).contains(x));
                    let j2 = choose|j2: int| 0 <= j2 < m && #[trigger] cv.take(m as int)[j2] == x;
                    assert(cv.take(m as int + 1)[j2] == x);
                } else {
                    assert(x == cv[m as int]);
                    assert(cv.take(m as int + 1)[m as int] == x);
                }
            }
        }
        m = m + 1;
    }
    proof {
        assert(cv.take(cv.len() as int) =~= cv);
        let bv = cell_views(born@);
        assert forall|x: (int, int)| #[trigger]
            bv.to_set().contains(x) implies births_of(live).contains(x) by {
            let t = choose|t: int| 0 <= t < bv.len() && #[trigger] bv[t] == x;
            assert(born_in(live, bv[t]));
        }
        assert forall|x: (int, int)| #[trigger]
            births_of(live).contains(x) implies bv.to_set().contains(x) by {
            assert(born_in(live, x));
            lemma_neighbour_witness(live, x);
            let w = choose|w: (int, int)| live.contains(w) && is_adjacent(w, x);
            assert(vs.contains(w));
            let k = choose|k: int| 0 <= k < vs.len() && #[trigger] vs[k] == w;
            lemma_adjacency_of_eight(w);
            assert(is_adjacent(x, w));
            assert(adjacent_seq(w).contains(x));
            let j = choose|j: int|
                0 <= j < adjacent_seq(w).len() && #[trigger] adjacent_seq(w)[j] == x;
            assert(adjacent_seq(vs[k])[j] == x);
            assert(cv.contains(x));
            let t = choose|t: int| 0 <= t < cv.len() && #[trigger] cv[t] == x;
            assert(neighbour_count(live, cv[t]) == 3);
            assert(bv.contains(cv[t]));
            assert(bv.to_set().contains(x));
        }
        assert(bv.to_set() =~= births_of(live));
    }
    born
}

} // verus!
