//! Solutions: sets of pairwise compatible floors, the greedy walker that
//! grows them, and the enumerator that collects a pool of them.

use vstd::prelude::*;
use crate::building::share_name;
use crate::floorset::clone_floors;
use crate::floorset::exclude;
use crate::floorset::floors_contain;
use crate::floorset::intersect;
use crate::floorset::lemma_push_contains;
use crate::floorset::lemma_push_no_dup;
use crate::graph::graph_matches;
use crate::graph::graph_wf;
use vstd::arithmetic::power2::lemma2_to64;
use vstd::arithmetic::power2::lemma_pow2_strictly_increases;
use vstd::arithmetic::power2::lemma_pow2_unfold;
use vstd::arithmetic::power2::pow2;

verus! {

/// A set of floors meant to be pairwise compatible.
#[derive(Debug, Clone)]
pub struct Solution {
    pub floors: Vec<usize>,
}

/// A valid solution for the graph `g`: a duplicate-free set of floors in
/// range, every two distinct members being neighbours in `g`.
pub open spec fn sol_ok(g: Seq<Vec<usize>>, fl: Seq<usize>) -> bool {
    &&& fl.no_duplicates()
    &&& forall|a: usize| #[trigger] fl.contains(a) ==> a < g.len()
    &&& forall|a: usize, b: usize|
        fl.contains(a) && fl.contains(b) && a != b ==> #[trigger] g[a as int]@.contains(b)
}

/// Is floor `j` a neighbour of every member of `fl`?
pub open spec fn compatible_with_all(g: Seq<Vec<usize>>, fl: Seq<usize>, j: usize) -> bool {
    forall|s: usize| #[trigger] fl.contains(s) ==> g[s as int]@.contains(j)
}

/// Does some solution of the pool hold floor `j`?
pub open spec fn covered_by(sols: Seq<Solution>, j: usize) -> bool {
    exists|k: int| 0 <= k < sols.len() && (#[trigger] sols[k]).floors@.contains(j)
}

/// Every two distinct members of a valid solution share no name, when
/// the graph is the compatibility graph of the building.
pub proof fn lemma_solution_shares_no_name(
    rows: Seq<Seq<Seq<char>>>,
    g: Seq<Vec<usize>>,
    fl: Seq<usize>,
)
    requires
        graph_matches(rows, g),
        sol_ok(g, fl),
    ensures
        forall|a: usize, b: usize|
            fl.contains(a) && fl.contains(b) && a != b ==> !share_name(
                rows,
                a as int,
                b as int,
            ),
{
    assert forall|a: usize, b: usize|
        fl.contains(a) && fl.contains(b) && a != b implies !share_name(
        rows,
        a as int,
        b as int,
    ) by {
        assert(g[a as int]@.contains(b));
    }
}

/// Greedily grows a maximal set of mutually compatible floors around
/// `start_floor`, optionally starting from a prior solution.  Members of
/// the prior solution that are compatible with `start_floor` are kept;
/// then compatible floors are added, first candidate first (lowest index
/// first when the graph entries are increasing, as built here), until no
/// floor is compatible with every member.  `start_floor` always belongs
/// to the result.
pub fn walk_solution_from(
    start_floor: usize,
    ff_map: &Vec<Vec<usize>>,
    from_solution: Option<Solution>,
) -> (sol: Solution)
    requires
        graph_wf(ff_map@),
        start_floor < ff_map@.len(),
        from_solution matches Some(base) ==> sol_ok(ff_map@, base.floors@),
    ensures
        sol_ok(ff_map@, sol.floors@),
        sol.floors@.contains(start_floor),
        from_solution matches Some(base) ==> forall|x: usize|
            base.floors@.contains(x) && ff_map@[start_floor as int]@.contains(x)
                ==> sol.floors@.contains(x),
        forall|j: usize| j < ff_map@.len() ==> !compatible_with_all(ff_map@, sol.floors@, j),
{
    let ghost g = ff_map@;
    let ghost n = ff_map@.len();
    let ghost base_floors: Seq<usize> = match from_solution {
        Some(ref s) => s.floors@,
        None => Seq::empty(),
    };
    let mut floors: Vec<usize> = match from_solution {
        Some(s) => s.floors,
        None => Vec::new(),
    };
    proof {
        assert(Seq::<usize>::empty().no_duplicates());
        assert(sol_ok(g, Seq::<usize>::empty()));
        assert(sol_ok(g, base_floors));
        assert(floors@ == base_floors);
    }
    let mut allowed: Vec<usize> = clone_floors(&ff_map[start_floor]);
    // keep only the prior members compatible with the new start floor
    floors = intersect(&floors, &allowed);
    let ghost kept = floors@;
    proof {
        assert forall|a: usize, b: usize|
            kept.contains(a) && kept.contains(b) && a != b implies #[trigger] g[a as int]@.contains(
            b,
        ) by {
            assert(base_floors.contains(a) && base_floors.contains(b));
        }
        assert(sol_ok(g, floors@));
    }
    // restrict the candidates to the neighbours of every kept member
    let mut idx: usize = 0;
    while idx < floors.len()
        invariant
            g == ff_map@,
            n == g.len(),
            graph_wf(g),
            start_floor < n,
            sol_ok(g, floors@),
            floors@ == kept,
            idx <= floors@.len(),
            forall|j: usize|
                #[trigger] allowed@.contains(j) <==> (g[start_floor as int]@.contains(j)
                    && forall|t: int| 0 <= t < idx ==> g[floors@[t] as int]@.contains(j)),
        decreases floors@.len() - idx,
    {
        proof {
            assert(floors@.contains(floors@[idx as int]));
        }
        let ghost old_allowed = allowed@;
        allowed = intersect(&allowed, &ff_map[floors[idx]]);
        proof {
            assert forall|j: usize| #[trigger] allowed@.contains(j) implies (g[start_floor as int]@.contains(
                j,
            ) && forall|t: int|
                0 <= t < idx + 1 ==> g[floors@[t] as int]@.contains(j)) by {
                assert(old_allowed.contains(j));
                assert forall|t: int| 0 <= t < idx + 1 implies g[floors@[t] as int]@.contains(
                    j,
                ) by {
                    if t == idx {
                        assert(g[floors@[idx as int] as int]@.contains(j));
                    }
                }
            }
            assert forall|j: usize|
                (g[start_floor as int]@.contains(j) && forall|t: int|
                    0 <= t < idx + 1 ==> g[floors@[t] as int]@.contains(
                        j,
                    )) implies #[trigger] allowed@.contains(j) by {
                assert(forall|t: int| 0 <= t < idx ==> g[floors@[t] as int]@.contains(j));
                assert(old_allowed.contains(j));
                assert(g[floors@[idx as int] as int]@.contains(j));
            }
        }
        idx += 1;
    }
    proof {
        assert forall|j: usize|
            #[trigger] allowed@.contains(j) implies (g[start_floor as int]@.contains(j)
            && compatible_with_all(g, floors@, j)) by {
            assert forall|s: usize| #[trigger] floors@.contains(s) implies g[s as int]@.contains(
                j,
            ) by {
                let t = choose|t: int| 0 <= t < floors@.len() && floors@[t] == s;
                assert(g[floors@[t] as int]@.contains(j));
            }
        }
        assert forall|j: usize|
            (g[start_floor as int]@.contains(j) && compatible_with_all(g, floors@, j))
            implies #[trigger] allowed@.contains(j) by {
            assert forall|t: int| 0 <= t < floors@.len() implies g[floors@[t] as int]@.contains(
                j,
            ) by {
                assert(floors@.contains(floors@[t]));
            }
        }
    }
    // add compatible floors until none is compatible with every member
    while allowed.len() > 0
        invariant
            g == ff_map@,
            n == g.len(),
            graph_wf(g),
            start_floor < n,
            sol_ok(g, floors@),
            forall|x: usize| kept.contains(x) ==> #[trigger] floors@.contains(x),
            forall|x: usize| #[trigger] floors@.contains(x) ==> g[start_floor as int]@.contains(x),
            forall|j: usize|
                #[trigger] allowed@.contains(j) ==> (g[start_floor as int]@.contains(j)
                    && compatible_with_all(g, floors@, j)),
            forall|j: usize|
                (g[start_floor as int]@.contains(j) && compatible_with_all(g, floors@, j))
                    ==> #[trigger] allowed@.contains(j),
        decreases allowed@.len(),
    {
        let next = allowed[0];
        proof {
            assert(allowed@.contains(next));
            assert(g[start_floor as int]@.contains(next));
            assert(next < n);
            if floors@.contains(next) {
                assert(g[next as int]@.contains(next));
                assert(false);
            }
            lemma_push_no_dup(floors@, next);
        }
        let ghost old_floors = floors@;
        floors.push(next);
        proof {
            lemma_push_contains(old_floors, next, floors@);
            assert forall|a: usize, b: usize|
                floors@.contains(a) && floors@.contains(b) && a != b implies #[trigger] g[a as int]@.contains(
                b,
            ) by {
                if a == next {
                    assert(old_floors.contains(b));
                    assert(g[b as int]@.contains(next));
                } else if b == next {
                    assert(old_floors.contains(a));
                    assert(g[a as int]@.contains(next));
                }
            }
            assert(sol_ok(g, floors@));
        }
        let ghost old_allowed = allowed@;
        allowed = intersect(&allowed, &ff_map[next]);
        proof {
            assert(!g[next as int]@.contains(next));
            assert(allowed@.len() < old_allowed.len());
            assert forall|j: usize| #[trigger] allowed@.contains(j) implies (g[start_floor as int]@.contains(
                j,
            ) && compatible_with_all(g, floors@, j)) by {
                assert(old_allowed.contains(j));
                assert forall|s: usize| #[trigger] floors@.contains(s) implies g[s as int]@.contains(
                    j,
                ) by {
                    if s == next {
                        assert(g[next as int]@.contains(j));
                    } else {
                        assert(old_floors.contains(s));
                    }
                }
            }
            assert forall|j: usize|
                (g[start_floor as int]@.contains(j) && compatible_with_all(g, floors@, j))
                implies #[trigger] allowed@.contains(j) by {
                assert forall|s: usize| old_floors.contains(s) implies g[s as int]@.contains(
                    j,
                ) by {
                    assert(floors@.contains(s));
                }
                assert(compatible_with_all(g, old_floors, j));
                assert(old_allowed.contains(j));
                assert(floors@.contains(next));
                assert(g[next as int]@.contains(j));
            }
        }
    }
    proof {
        if floors@.contains(start_floor) {
            assert(g[start_floor as int]@.contains(start_floor));
            assert(false);
        }
        lemma_push_no_dup(floors@, start_floor);
    }
    let ghost old_floors = floors@;
    floors.push(start_floor);
    proof {
        lemma_push_contains(old_floors, start_floor, floors@);
        assert forall|a: usize, b: usize|
            floors@.contains(a) && floors@.contains(b) && a != b implies #[trigger] g[a as int]@.contains(
            b,
        ) by {
            if a == start_floor {
                assert(old_floors.contains(b));
                assert(g[start_floor as int]@.contains(b));
            } else if b == start_floor {
                assert(old_floors.contains(a));
                assert(g[a as int]@.contains(start_floor));
            }
        }
        assert(sol_ok(g, floors@));
        assert forall|j: usize| j < n implies !compatible_with_all(g, floors@, j) by {
            if compatible_with_all(g, floors@, j) {
                assert(floors@.contains(start_floor));
                assert(g[start_floor as int]@.contains(j));
                assert forall|s: usize| old_floors.contains(s) implies g[s as int]@.contains(
                    j,
                ) by {
                    assert(floors@.contains(s));
                }
                assert(compatible_with_all(g, old_floors, j));
                assert(allowed@.contains(j));
                assert(false);
            }
        }
    }
    Solution { floors }
}

/// Enumerates a pool of solutions: one seed walk from floor 0, then one
/// derived walk per unexplored floor and per solution already in the
/// pool when that floor is taken up.  Every floor belongs to at least
/// one solution of the pool.  The pool doubles at worst once per
/// unexplored floor, so it holds at most `pow2(n)` solutions for `n`
/// floors; one walk is made per solution, so at most `pow2(n)` walks.
pub fn find_rest_of_solutions(ff_map: &Vec<Vec<usize>>) -> (sols: Vec<Solution>)
    requires
        graph_wf(ff_map@),
        ff_map@.len() >= 1,
    ensures
        sols@.len() >= 1,
        sols@.len() <= pow2(ff_map@.len() as nat),
        sols@[0].floors@.contains(0usize),
        forall|k: int| 0 <= k < sols@.len() ==> sol_ok(ff_map@, (#[trigger] sols@[k]).floors@),
        forall|k: int| 0 <= k < sols@.len() ==> (#[trigger] sols@[k]).floors@.len() >= 1,
        forall|k: int, j: usize|
            0 <= k < sols@.len() && j < ff_map@.len() ==> !(#[trigger] compatible_with_all(
                ff_map@,
                sols@[k].floors@,
                j,
            )),
        forall|j: usize| j < ff_map@.len() ==> #[trigger] covered_by(sols@, j),
{
    let ghost g = ff_map@;
    let ghost n = ff_map@.len();
    let mut sols: Vec<Solution> = Vec::new();
    let first = walk_solution_from(0, ff_map, None);
    sols.push(first);
    proof {
        assert(sols@[0] == first);
        assert(sols@[0].floors@.contains(0));
        assert forall|k: int, j: usize|
            0 <= k < sols@.len() && j < n implies !(#[trigger] compatible_with_all(
            g,
            sols@[k].floors@,
            j,
        )) by {
            assert(!compatible_with_all(g, first.floors@, j));
        }
        lemma2_to64();
    }
    let mut floors_to_check: Vec<usize> = Vec::new();
    let mut floor: usize = 0;
    while floor < ff_map.len()
        invariant
            g == ff_map@,
            n == g.len(),
            sols@.len() == 1,
            sol_ok(g, sols@[0].floors@),
            sols@[0].floors@.len() >= 1,
            floor <= n,
            floors_to_check@.no_duplicates(),
            floors_to_check@.len() <= floor,
            forall|x: usize| #[trigger] floors_to_check@.contains(x) ==> x < floor,
            forall|x: usize| #[trigger] floors_to_check@.contains(x) ==> x < n,
            forall|x: usize|
                x < floor ==> (#[trigger] floors_to_check@.contains(x) || sols@[0].floors@.contains(
                    x,
                )),
        decreases n - floor,
    {
        if !floors_contain(&sols[0].floors, floor) {
            proof {
                lemma_push_no_dup(floors_to_check@, floor);
            }
            let ghost old_tc = floors_to_check@;
            floors_to_check.push(floor);
            proof {
                lemma_push_contains(old_tc, floor, floors_to_check@);
            }
        }
        floor += 1;
    }
    let ghost mut rounds: nat = 0;
    proof {
        lemma2_to64();
    }
    while floors_to_check.len() > 0
        invariant
            g == ff_map@,
            n == g.len(),
            graph_wf(g),
            n >= 1,
            sols@.len() >= 1,
            floors_to_check@.no_duplicates(),
            forall|x: usize| #[trigger] floors_to_check@.contains(x) ==> x < n,
            sols@[0].floors@.contains(0usize),
            forall|k: int| 0 <= k < sols@.len() ==> sol_ok(g, (#[trigger] sols@[k]).floors@),
            forall|k: int| 0 <= k < sols@.len() ==> (#[trigger] sols@[k]).floors@.len() >= 1,
            forall|k: int, j: usize|
                0 <= k < sols@.len() && j < n ==> !(#[trigger] compatible_with_all(
                    g,
                    sols@[k].floors@,
                    j,
                )),
            forall|x: usize|
                x < n ==> (#[trigger] floors_to_check@.contains(x) || exists|k: int|
                    0 <= k < sols@.len() && (#[trigger] sols@[k]).floors@.contains(x)),
            sols@.len() <= pow2(rounds),
            rounds + floors_to_check@.len() <= n,
        decreases floors_to_check@.len(),
    {
        let start_floor = floors_to_check[0];
        let ghost len_before = floors_to_check@.len();
        let ghost tc0 = floors_to_check@;
        proof {
            assert(tc0.contains(start_floor));
        }
        let snapshot = sols.len();
        let mut i: usize = 0;
        while i < snapshot
            invariant
                g == ff_map@,
                n == g.len(),
                graph_wf(g),
                start_floor < n,
                i <= snapshot,
                1 <= snapshot,
                sols@.len() == snapshot + i,
                floors_to_check@.no_duplicates(),
                floors_to_check@.len() <= len_before,
                i == 0 ==> floors_to_check@ == tc0,
                tc0.contains(start_floor),
                tc0.len() == len_before,
                i >= 1 ==> floors_to_check@.len() < len_before,
                forall|x: usize| #[trigger] floors_to_check@.contains(x) ==> x < n,
                sols@[0].floors@.contains(0usize),
                forall|k: int| 0 <= k < sols@.len() ==> sol_ok(g, (#[trigger] sols@[k]).floors@),
                forall|k: int| 0 <= k < sols@.len() ==> (#[trigger] sols@[k]).floors@.len() >= 1,
                forall|k: int, j: usize|
                    0 <= k < sols@.len() && j < n ==> !(#[trigger] compatible_with_all(
                        g,
                        sols@[k].floors@,
                        j,
                    )),
                forall|x: usize|
                    x < n ==> (#[trigger] floors_to_check@.contains(x) || exists|k: int|
                        0 <= k < sols@.len() && (#[trigger] sols@[k]).floors@.contains(x)),
            decreases snapshot - i,
        {
            let base = Solution { floors: clone_floors(&sols[i].floors) };
            proof {
                assert(sols@[i as int].floors@ == base.floors@);
                assert(sol_ok(g, base.floors@));
            }
            let sol = walk_solution_from(start_floor, ff_map, Some(base));
            let ghost old_tc = floors_to_check@;
            floors_to_check = exclude(&floors_to_check, &sol.floors);
            let ghost old_sols = sols@;
            sols.push(sol);
            proof {
                assert(sols@ == old_sols.push(sol));
                assert(forall|k: int| 0 <= k < old_sols.len() ==> sols@[k] == old_sols[k]);
                assert(sols@[old_sols.len() as int] == sol);
                assert(sol.floors@.contains(start_floor));
                assert(sol.floors@.len() >= 1);
                if i == 0 {
                    assert(old_tc.contains(start_floor));
                    assert(floors_to_check@.len() < old_tc.len());
                }
                assert forall|k: int, j: usize|
                    0 <= k < sols@.len() && j < n implies !(#[trigger] compatible_with_all(
                    g,
                    sols@[k].floors@,
                    j,
                )) by {
                    if k < old_sols.len() {
                        assert(sols@[k] == old_sols[k]);
                        assert(!compatible_with_all(g, old_sols[k].floors@, j));
                    } else {
                        assert(sols@[k] == sol);
                        assert(!compatible_with_all(g, sol.floors@, j));
                    }
                }
                assert forall|x: usize|
                    x < n implies (#[trigger] floors_to_check@.contains(x) || exists|k: int|
                    0 <= k < sols@.len() && (#[trigger] sols@[k]).floors@.contains(x)) by {
                    if !floors_to_check@.contains(x) {
                        if old_tc.contains(x) {
                            assert(sol.floors@.contains(x));
                            assert(sols@[old_sols.len() as int].floors@.contains(x));
                        } else {
                            let k = choose|k: int|
                                0 <= k < old_sols.len() && (#[trigger] old_sols[k]).floors@.contains(
                                    x,
                                );
                            assert(sols@[k].floors@.contains(x));
                        }
                    }
                }
            }
            i += 1;
        }
        proof {
            lemma_pow2_unfold(rounds + 1);
            assert(sols@.len() == snapshot + snapshot);
            assert(sols@.len() <= pow2(rounds + 1));
            rounds = rounds + 1;
        }
    }
    proof {
        assert forall|j: usize| j < n implies #[trigger] covered_by(sols@, j) by {
            assert(!floors_to_check@.contains(j));
        }
        if rounds < n {
            lemma_pow2_strictly_increases(rounds, n as nat);
        }
    }
    sols
}

} // verus!
