//! The compatibility graph over floors.
//!
//! Entry `i` of the graph is the set of floors `j` (with `j != i`) such
//! that floors `i` and `j` share no name.  The graph is symmetric and
//! never lists a floor in its own entry.

use vstd::prelude::*;
use crate::building::NameFloorMap;
use crate::building::building_wf;
use crate::building::lemma_share_name_symmetric;
use crate::building::name_covered;
use crate::building::nfm_wf;
use crate::building::row_has_name;
use crate::building::share_name;
use crate::building::find_name;
use crate::floorset::floors_contain;
use crate::floorset::lemma_push_contains;
use crate::floorset::lemma_push_no_dup;
use crate::floorset::union_floors;

verus! {

/// The graph `g` is exactly the compatibility graph of the building
/// `rows`: entry `i` holds `j` exactly when `j` is another floor in range
/// sharing no name with floor `i`.
pub open spec fn graph_matches(rows: Seq<Seq<Seq<char>>>, g: Seq<Vec<usize>>) -> bool {
    &&& g.len() == rows.len()
    &&& forall|i: int, j: usize|
        0 <= i < g.len() ==> ((#[trigger] g[i]@.contains(j)) <==> (j < g.len() && j as int != i
            && !share_name(rows, i, j as int)))
}

/// A well-formed compatibility graph: entries stay in range, no floor is
/// its own neighbour, and neighbourhood is symmetric.
pub open spec fn graph_wf(g: Seq<Vec<usize>>) -> bool {
    forall|i: int, j: usize|
        0 <= i < g.len() && #[trigger] g[i]@.contains(j) ==> j < g.len() && j as int != i
            && g[j as int]@.contains(i as usize)
}

/// Any graph that matches a building is well-formed, because sharing a
/// name is symmetric.
pub proof fn lemma_graph_matches_wf(rows: Seq<Seq<Seq<char>>>, g: Seq<Vec<usize>>)
    requires
        graph_matches(rows, g),
        g.len() <= usize::MAX,
    ensures
        graph_wf(g),
{
    assert forall|i: int, j: usize|
        0 <= i < g.len() && #[trigger] g[i]@.contains(j) implies j < g.len() && j as int != i
        && g[j as int]@.contains(i as usize) by {
        lemma_share_name_symmetric(rows, i, j as int);
        assert(g[j as int]@.contains(i as usize) <==> (i < g.len() && i != j as int && !share_name(
            rows,
            j as int,
            i,
        )));
    }
}

/// Builds the compatibility graph of a building: for each floor, the
/// union of the index entries of its names gives the floors it is
/// incompatible with, and the entry is the complement of that union.
///
/// The last two conditions state symmetry of the graph and that no
/// floor is compatible with itself.
pub fn make_compatible_floors_map(bld: &Vec<Vec<String>>, name_floor_map: &NameFloorMap) -> (g:
    Vec<Vec<usize>>)
    requires
        building_wf(bld.deep_view()),
        nfm_wf(bld.deep_view(), *name_floor_map),
    ensures
        graph_matches(bld.deep_view(), g@),
        graph_wf(g@),
        g@.len() == bld@.len(),
        forall|i: int| 0 <= i < g@.len() ==> (#[trigger] g@[i])@.no_duplicates(),
        forall|i: int, j: usize|
            0 <= i < g@.len() && j < g@.len() ==> ((#[trigger] g@[i]@.contains(j))
                <==> g@[j as int]@.contains(i as usize)),
        forall|i: int| 0 <= i < g@.len() ==> !(#[trigger] g@[i])@.contains(i as usize),
{
    let ghost rows = bld.deep_view();
    let n = bld.len();
    let mut g: Vec<Vec<usize>> = Vec::new();
    let mut i: usize = 0;
    while i < n
        invariant
            rows == bld.deep_view(),
            n == bld@.len(),
            building_wf(rows),
            nfm_wf(rows, *name_floor_map),
            i <= n,
            g@.len() == i,
            forall|t: int| 0 <= t < i ==> (#[trigger] g@[t])@.no_duplicates(),
            forall|t: int, j: usize|
                0 <= t < i ==> ((#[trigger] g@[t]@.contains(j)) <==> (j < n && j as int != t
                    && !share_name(rows, t, j as int))),
        decreases n - i,
    {
        let row_len = bld[i].len();
        proof {
            assert(rows[i as int] == bld@[i as int].deep_view());
        }
        let mut incompatible: Vec<usize> = Vec::new();
        let mut q: usize = 0;
        while q < row_len
            invariant
                rows == bld.deep_view(),
                n == bld@.len(),
                nfm_wf(rows, *name_floor_map),
                i < n,
                row_len == rows[i as int].len(),
                q <= row_len,
                incompatible@.no_duplicates(),
                forall|j: usize|
                    (#[trigger] incompatible@.contains(j)) <==> (j < n && exists|q2: int|
                        0 <= q2 < q && row_has_name(rows, j as int, rows[i as int][q2])),
            decreases row_len - q,
        {
            proof {
                assert(rows[i as int] == bld@[i as int].deep_view());
                assert(rows[i as int][q as int] == bld@[i as int]@[q as int]@);
            }
            let person = &bld[i][q];
            let k = match find_name(&name_floor_map.names, person) {
                Some(k) => k,
                None => {
                    proof {
                        assert(name_covered(name_floor_map.names@, rows[i as int][q as int]));
                        assert(false);
                    }
                    0
                },
            };
            let ghost before = incompatible@;
            incompatible = union_floors(&incompatible, &name_floor_map.floors[k]);
            proof {
                assert forall|j: usize| #[trigger] incompatible@.contains(j) implies (j < n
                    && exists|q2: int|
                    0 <= q2 < q + 1 && row_has_name(rows, j as int, rows[i as int][q2])) by {
                    if before.contains(j) {
                        let q2 = choose|q2: int|
                            0 <= q2 < q && row_has_name(rows, j as int, rows[i as int][q2]);
                        assert(0 <= q2 < q + 1 && row_has_name(rows, j as int, rows[i as int][q2]));
                    } else {
                        assert(name_floor_map.floors@[k as int]@.contains(j));
                        assert(row_has_name(rows, j as int, name_floor_map.names@[k as int]@));
                        assert(name_floor_map.names@[k as int]@ == rows[i as int][q as int]);
                        assert(0 <= q < q + 1 && row_has_name(
                            rows,
                            j as int,
                            rows[i as int][q as int],
                        ));
                    }
                }
                assert forall|j: usize|
                    (j < n && exists|q2: int|
                        0 <= q2 < q + 1 && row_has_name(
                            rows,
                            j as int,
                            rows[i as int][q2],
                        )) implies #[trigger] incompatible@.contains(j) by {
                    let q2 = choose|q2: int|
                        0 <= q2 < q + 1 && row_has_name(rows, j as int, rows[i as int][q2]);
                    if q2 < q {
                        assert(before.contains(j));
                    } else {
                        assert(rows[i as int][q2] == name_floor_map.names@[k as int]@);
                        assert(name_floor_map.floors@[k as int]@.contains(j));
                    }
                }
            }
            q += 1;
        }
        proof {
            assert forall|j: usize| #[trigger] incompatible@.contains(j) <==> (j < n && share_name(
                rows,
                i as int,
                j as int,
            )) by {
                assert(share_name(rows, i as int, j as int) == (exists|q2: int|
                    0 <= q2 < rows[i as int].len() && row_has_name(
                        rows,
                        j as int,
                        rows[i as int][q2],
                    )));
            }
        }
        let mut comp: Vec<usize> = Vec::new();
        let mut x: usize = 0;
        while x < n
            invariant
                rows == bld.deep_view(),
                n == bld@.len(),
                i < n,
                x <= n,
                comp@.no_duplicates(),
                forall|j: usize|
                    (#[trigger] incompatible@.contains(j)) <==> (j < n && share_name(
                        rows,
                        i as int,
                        j as int,
                    )),
                forall|y: usize|
                    (#[trigger] comp@.contains(y)) <==> (y < x && !incompatible@.contains(y)),
            decreases n - x,
        {
            if !floors_contain(&incompatible, x) {
                proof {
                    lemma_push_no_dup(comp@, x);
                }
                let ghost old_comp = comp@;
                comp.push(x);
                proof {
                    lemma_push_contains(old_comp, x, comp@);
                }
            }
            x += 1;
        }
        proof {
            assert(rows[i as int].len() >= 1);
            assert(row_has_name(rows, i as int, rows[i as int][0]));
            assert(share_name(rows, i as int, i as int));
            assert forall|j: usize| (#[trigger] comp@.contains(j)) <==> (j < n && j as int
                != i as int && !share_name(rows, i as int, j as int)) by {}
        }
        let ghost old_g = g@;
        g.push(comp);
        proof {
            assert(g@ == old_g.push(comp));
            assert(forall|t: int| 0 <= t < old_g.len() ==> g@[t] == old_g[t]);
            assert(g@[old_g.len() as int] == comp);
        }
        i += 1;
    }
    proof {
        lemma_graph_matches_wf(rows, g@);
        assert forall|i2: int, j: usize|
            0 <= i2 < g@.len() && j < g@.len() implies ((#[trigger] g@[i2]@.contains(j))
            <==> g@[j as int]@.contains(i2 as usize)) by {
            lemma_share_name_symmetric(rows, i2, j as int);
        }
    }
    g
}

} // verus!
