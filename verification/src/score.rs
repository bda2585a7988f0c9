//! Scoring of solutions: a solution's score is the total number of names
//! over its floors.  For a valid solution that equals the number of
//! distinct names covered, which is the quantity being maximized.

use vstd::prelude::*;
use crate::building::share_name;
use crate::solution::Solution;

verus! {

/// The total name count over the floors of `fl`.
pub open spec fn spec_score(rows: Seq<Seq<Seq<char>>>, fl: Seq<usize>) -> nat
    decreases fl.len(),
{
    if fl.len() == 0 {
        0
    } else {
        spec_score(rows, fl.drop_last()) + rows[fl.last() as int].len()
    }
}

/// The set of names over the floors of `fl`.
pub open spec fn sol_names(rows: Seq<Seq<Seq<char>>>, fl: Seq<usize>) -> Set<Seq<char>>
    decreases fl.len(),
{
    if fl.len() == 0 {
        Set::empty()
    } else {
        sol_names(rows, fl.drop_last()).union(rows[fl.last() as int].to_set())
    }
}

/// The name set of a solution is finite.
pub proof fn lemma_sol_names_finite(rows: Seq<Seq<Seq<char>>>, fl: Seq<usize>)
    ensures
        sol_names(rows, fl).finite(),
    decreases fl.len(),
{
    broadcast use vstd::seq_lib::seq_to_set_is_finite;

    if fl.len() > 0 {
        lemma_sol_names_finite(rows, fl.drop_last());
    }
}

/// A name belongs to the name set exactly when some floor of the
/// solution holds it.
pub proof fn lemma_sol_names_member(rows: Seq<Seq<Seq<char>>>, fl: Seq<usize>)
    ensures
        forall|nm: Seq<char>|
            #[trigger] sol_names(rows, fl).contains(nm) <==> exists|t: int|
                0 <= t < fl.len() && rows[#[trigger] fl[t] as int].contains(nm),
    decreases fl.len(),
{
    if fl.len() > 0 {
        let prefix = fl.drop_last();
        lemma_sol_names_member(rows, prefix);
        assert forall|nm: Seq<char>| #[trigger] sol_names(rows, fl).contains(nm) implies exists|
            t: int,
        | 0 <= t < fl.len() && rows[#[trigger] fl[t] as int].contains(nm) by {
            if sol_names(rows, prefix).contains(nm) {
                let t = choose|t: int|
                    0 <= t < prefix.len() && rows[#[trigger] prefix[t] as int].contains(nm);
                assert(fl[t] == prefix[t]);
                assert(rows[fl[t] as int].contains(nm));
            } else {
                assert(rows[fl.last() as int].to_set().contains(nm));
                assert(rows[fl[fl.len() - 1] as int].contains(nm));
            }
        }
        assert forall|nm: Seq<char>|
            (exists|t: int|
                0 <= t < fl.len() && rows[#[trigger] fl[t] as int].contains(
                    nm,
                )) implies #[trigger] sol_names(rows, fl).contains(nm) by {
            let t = choose|t: int| 0 <= t < fl.len() && rows[#[trigger] fl[t] as int].contains(nm);
            if t < fl.len() - 1 {
                assert(prefix[t] == fl[t]);
                assert(sol_names(rows, prefix).contains(nm));
            } else {
                assert(rows[fl.last() as int].to_set().contains(nm));
            }
        }
    }
}

/// The score of a valid solution counts each distinct covered name
/// exactly once: total name count over its floors equals the number of
/// distinct names across them.
pub proof fn lemma_score_counts_distinct_names(rows: Seq<Seq<Seq<char>>>, fl: Seq<usize>)
    requires
        fl.no_duplicates(),
        forall|x: usize| #[trigger] fl.contains(x) ==> x < rows.len(),
        forall|x: usize| #[trigger] fl.contains(x) ==> rows[x as int].no_duplicates(),
        forall|a: usize, b: usize|
            fl.contains(a) && fl.contains(b) && a != b ==> !share_name(rows, a as int, b as int),
    ensures
        spec_score(rows, fl) == sol_names(rows, fl).len(),
    decreases fl.len(),
{
    if fl.len() > 0 {
        let prefix = fl.drop_last();
        let last = fl.last();
        assert(fl.contains(last));
        assert forall|x: usize| #[trigger] prefix.contains(x) implies fl.contains(x) by {
            let t = choose|t: int| 0 <= t < prefix.len() && prefix[t] == x;
            assert(fl[t] == x);
        }
        lemma_score_counts_distinct_names(rows, prefix);
        rows[last as int].unique_seq_to_set();
        lemma_sol_names_finite(rows, prefix);
        lemma_sol_names_member(rows, prefix);
        broadcast use vstd::seq_lib::seq_to_set_is_finite;

        assert forall|nm: Seq<char>| #[trigger] sol_names(rows, prefix).contains(nm) implies !rows[last as int].to_set().contains(
            nm,
        ) by {
            if rows[last as int].to_set().contains(nm) {
                let t = choose|t: int|
                    0 <= t < prefix.len() && rows[#[trigger] prefix[t] as int].contains(nm);
                let x = prefix[t];
                assert(fl.contains(x));
                if x == last {
                    assert(fl[t] == fl[fl.len() - 1]);
                    assert(false);
                }
                let q = choose|q: int| 0 <= q < rows[x as int].len() && rows[x as int][q] == nm;
                let q2 = choose|q2: int|
                    0 <= q2 < rows[last as int].len() && rows[last as int][q2] == nm;
                assert(crate::building::row_has_name(rows, last as int, rows[x as int][q]));
                assert(share_name(rows, x as int, last as int));
                assert(false);
            }
        }
        assert(sol_names(rows, prefix).disjoint(rows[last as int].to_set()));
        vstd::set_lib::lemma_set_disjoint_lens(sol_names(rows, prefix), rows[last as int].to_set());
        assert(sol_names(rows, fl) == sol_names(rows, prefix) + rows[last as int].to_set());
    }
}

/// The score of a prefix never exceeds the score of the whole solution.
proof fn lemma_score_take_le(rows: Seq<Seq<Seq<char>>>, fl: Seq<usize>, i: int)
    requires
        0 <= i <= fl.len(),
    ensures
        spec_score(rows, fl.take(i)) <= spec_score(rows, fl),
    decreases fl.len() - i,
{
    if i == fl.len() {
        assert(fl.take(i) =~= fl);
    } else {
        lemma_score_take_le(rows, fl, i + 1);
        assert(fl.take(i + 1).drop_last() =~= fl.take(i));
        assert(fl.take(i + 1).last() == fl[i]);
        assert(spec_score(rows, fl.take(i + 1)) == spec_score(rows, fl.take(i)) + rows[fl[i] as int].len());
    }
}

/// The total name count over the floors of a solution.
pub fn solution_score(bld: &Vec<Vec<String>>, sol: &Solution) -> (score: usize)
    requires
        forall|x: usize| #[trigger] sol.floors@.contains(x) ==> x < bld@.len(),
        spec_score(bld.deep_view(), sol.floors@) <= usize::MAX,
    ensures
        score == spec_score(bld.deep_view(), sol.floors@),
{
    let ghost rows = bld.deep_view();
    let mut score: usize = 0;
    let mut i: usize = 0;
    while i < sol.floors.len()
        invariant
            rows == bld.deep_view(),
            i <= sol.floors@.len(),
            forall|x: usize| #[trigger] sol.floors@.contains(x) ==> x < bld@.len(),
            spec_score(rows, sol.floors@) <= usize::MAX,
            score == spec_score(rows, sol.floors@.take(i as int)),
        decreases sol.floors@.len() - i,
    {
        let f = sol.floors[i];
        proof {
            assert(sol.floors@.contains(f));
            lemma_score_take_le(rows, sol.floors@, i + 1);
            assert(sol.floors@.take(i + 1).drop_last() =~= sol.floors@.take(i as int));
            assert(sol.floors@.take(i + 1).last() == f);
            assert(spec_score(rows, sol.floors@.take(i + 1)) == score + rows[f as int].len());
            assert(rows[f as int] == bld@[f as int].deep_view());
            assert(rows[f as int].len() == bld@[f as int]@.len());
        }
        score = score + bld[f].len();
        i += 1;
    }
    proof {
        assert(sol.floors@.take(sol.floors@.len() as int) =~= sol.floors@);
    }
    score
}

/// The index of the best-scoring solution in the pool; the earliest one
/// wins a tie.
pub fn find_best_solution(bld: &Vec<Vec<String>>, sols: &Vec<Solution>) -> (best: usize)
    requires
        sols@.len() >= 1,
        forall|k: int, x: usize|
            0 <= k < sols@.len() && #[trigger] sols@[k].floors@.contains(x) ==> x < bld@.len(),
        forall|k: int|
            0 <= k < sols@.len() ==> spec_score(bld.deep_view(), (#[trigger] sols@[k]).floors@)
                <= usize::MAX,
    ensures
        best < sols@.len(),
        forall|k: int|
            0 <= k < sols@.len() ==> spec_score(bld.deep_view(), (#[trigger] sols@[k]).floors@)
                <= spec_score(bld.deep_view(), sols@[best as int].floors@),
        forall|k: int|
            0 <= k < best ==> spec_score(bld.deep_view(), (#[trigger] sols@[k]).floors@)
                < spec_score(bld.deep_view(), sols@[best as int].floors@),
{
    let ghost rows = bld.deep_view();
    let mut best: usize = 0;
    let mut best_score: usize = solution_score(bld, &sols[0]);
    let mut k: usize = 1;
    while k < sols.len()
        invariant
            rows == bld.deep_view(),
            1 <= k <= sols@.len(),
            best < k,
            forall|t: int, x: usize|
                0 <= t < sols@.len() && #[trigger] sols@[t].floors@.contains(x) ==> x
                    < bld@.len(),
            forall|t: int|
                0 <= t < sols@.len() ==> spec_score(rows, (#[trigger] sols@[t]).floors@)
                    <= usize::MAX,
            best_score == spec_score(rows, sols@[best as int].floors@),
            forall|t: int|
                0 <= t < k ==> spec_score(rows, (#[trigger] sols@[t]).floors@) <= best_score,
            forall|t: int|
                0 <= t < best ==> spec_score(rows, (#[trigger] sols@[t]).floors@) < best_score,
        decreases sols@.len() - k,
    {
        let s = solution_score(bld, &sols[k]);
        if s > best_score {
            best = k;
            best_score = s;
        }
        k += 1;
    }
    best
}

} // verus!
