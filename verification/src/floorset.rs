//! Small sets of floor indices, kept as duplicate-free `Vec<usize>` values.
//!
//! The walker and the enumerator treat these vectors purely as sets: the
//! contracts speak of `contains` and of duplicate freedom, never of order.

use vstd::prelude::*;

verus! {

/// Appending a value that is not yet present keeps a sequence
/// duplicate-free.
pub proof fn lemma_push_no_dup<A>(s: Seq<A>, x: A)
    requires
        s.no_duplicates(),
        !s.contains(x),
    ensures
        s.push(x).no_duplicates(),
{
    let t = s.push(x);
    assert forall|a: int, b: int|
        0 <= a < t.len() && 0 <= b < t.len() && a != b implies t[a] != t[b] by {
        if a < s.len() && b < s.len() {
            assert(t[a] == s[a] && t[b] == s[b]);
        } else if a == s.len() {
            assert(t[a] == x && t[b] == s[b]);
            if s[b] == x {
                assert(s.contains(x));
            }
        } else {
            assert(t[b] == x && t[a] == s[a]);
            if s[a] == x {
                assert(s.contains(x));
            }
        }
    }
}

/// Membership in a sequence extended by one value: exactly the old
/// members plus that value.
pub proof fn lemma_push_contains<A>(s: Seq<A>, v: A, t: Seq<A>)
    requires
        t == s.push(v),
    ensures
        forall|x: A| #[trigger] t.contains(x) <==> (s.contains(x) || x == v),
{
    assert forall|x: A| #[trigger] t.contains(x) implies (s.contains(x) || x == v) by {
        let q = choose|q: int| 0 <= q < t.len() && t[q] == x;
        if q < s.len() {
            assert(s[q] == x);
        }
    }
    assert forall|x: A| (s.contains(x) || x == v) implies #[trigger] t.contains(x) by {
        if s.contains(x) {
            let q = choose|q: int| 0 <= q < s.len() && s[q] == x;
            assert(t[q] == x);
        } else {
            assert(t[s.len() as int] == x);
        }
    }
}

/// Is `x` a member of `v`?
pub fn floors_contain(v: &Vec<usize>, x: usize) -> (r: bool)
    ensures
        r == v@.contains(x),
{
    let mut i: usize = 0;
    while i < v.len()
        invariant
            i <= v@.len(),
            forall|t: int| 0 <= t < i ==> v@[t] != x,
        decreases v@.len() - i,
    {
        if v[i] == x {
            return true;
        }
        i += 1;
    }
    false
}

/// An exact copy of a floor set.
pub fn clone_floors(v: &Vec<usize>) -> (r: Vec<usize>)
    ensures
        r@ == v@,
{
    broadcast use vstd::seq_lib::group_seq_properties;

    let mut r: Vec<usize> = Vec::new();
    let mut i: usize = 0;
    while i < v.len()
        invariant
            i <= v@.len(),
            r@ == v@.take(i as int),
        decreases v@.len() - i,
    {
        r.push(v[i]);
        assert(v@.take(i + 1 as int) == v@.take(i as int).push(v@[i as int]));
        i += 1;
    }
    assert(v@.take(v@.len() as int) == v@);
    r
}

/// The members of `a` that are also members of `b`.  The result keeps no
/// duplicate of `a`, and it is strictly shorter than `a` whenever some
/// member of `a` is missing from `b`.
pub fn intersect(a: &Vec<usize>, b: &Vec<usize>) -> (r: Vec<usize>)
    ensures
        forall|x: usize| #[trigger] r@.contains(x) <==> (a@.contains(x) && b@.contains(x)),
        a@.no_duplicates() ==> r@.no_duplicates(),
        r@.len() <= a@.len(),
        forall|x: usize| a@.contains(x) && !b@.contains(x) ==> r@.len() < a@.len(),
{
    broadcast use vstd::seq_lib::group_seq_properties;

    let mut r: Vec<usize> = Vec::new();
    let mut i: usize = 0;
    while i < a.len()
        invariant
            i <= a@.len(),
            forall|x: usize|
                #[trigger] r@.contains(x) <==> (a@.take(i as int).contains(x) && b@.contains(x)),
            a@.no_duplicates() ==> r@.no_duplicates(),
            r@.len() <= i,
            (exists|q: int| 0 <= q < i && !b@.contains(a@[q])) ==> r@.len() < i,
        decreases a@.len() - i,
    {
        assert(a@.take(i + 1 as int) == a@.take(i as int).push(a@[i as int]));
        proof {
            lemma_push_contains(a@.take(i as int), a@[i as int], a@.take(i + 1 as int));
        }
        if floors_contain(b, a[i]) {
            proof {
                if a@.no_duplicates() {
                    if r@.contains(a@[i as int]) {
                        let q = choose|q: int|
                            0 <= q < i && a@.take(i as int)[q] == a@[i as int];
                        assert(a@[q] == a@[i as int]);
                        assert(false);
                    }
                    lemma_push_no_dup(r@, a@[i as int]);
                }
            }
            let ghost old_r = r@;
            r.push(a[i]);
            proof {
                lemma_push_contains(old_r, a@[i as int], r@);
            }
        }
        i += 1;
    }
    assert(a@.take(a@.len() as int) == a@);
    r
}

/// The members of `a` that are not members of `b`.
pub fn exclude(a: &Vec<usize>, b: &Vec<usize>) -> (r: Vec<usize>)
    ensures
        forall|x: usize| #[trigger] r@.contains(x) <==> (a@.contains(x) && !b@.contains(x)),
        a@.no_duplicates() ==> r@.no_duplicates(),
        r@.len() <= a@.len(),
        forall|x: usize| a@.contains(x) && b@.contains(x) ==> r@.len() < a@.len(),
{
    broadcast use vstd::seq_lib::group_seq_properties;

    let mut r: Vec<usize> = Vec::new();
    let mut i: usize = 0;
    while i < a.len()
        invariant
            i <= a@.len(),
            forall|x: usize|
                #[trigger] r@.contains(x) <==> (a@.take(i as int).contains(x) && !b@.contains(x)),
            a@.no_duplicates() ==> r@.no_duplicates(),
            r@.len() <= i,
            (exists|q: int| 0 <= q < i && b@.contains(a@[q])) ==> r@.len() < i,
        decreases a@.len() - i,
    {
        assert(a@.take(i + 1 as int) == a@.take(i as int).push(a@[i as int]));
        proof {
            lemma_push_contains(a@.take(i as int), a@[i as int], a@.take(i + 1 as int));
        }
        if !floors_contain(b, a[i]) {
            proof {
                if a@.no_duplicates() {
                    if r@.contains(a@[i as int]) {
                        let q = choose|q: int|
                            0 <= q < i && a@.take(i as int)[q] == a@[i as int];
                        assert(a@[q] == a@[i as int]);
                        assert(false);
                    }
                    lemma_push_no_dup(r@, a@[i as int]);
                }
            }
            let ghost old_r = r@;
            r.push(a[i]);
            proof {
                lemma_push_contains(old_r, a@[i as int], r@);
            }
        }
        i += 1;
    }
    assert(a@.take(a@.len() as int) == a@);
    r
}

/// The union of two floor sets, free of duplicates.
pub fn union_floors(a: &Vec<usize>, b: &Vec<usize>) -> (r: Vec<usize>)
    requires
        a@.no_duplicates(),
    ensures
        r@.no_duplicates(),
        forall|x: usize| #[trigger] r@.contains(x) <==> (a@.contains(x) || b@.contains(x)),
{
    broadcast use vstd::seq_lib::group_seq_properties;

    let mut r: Vec<usize> = clone_floors(a);
    let mut i: usize = 0;
    while i < b.len()
        invariant
            i <= b@.len(),
            r@.no_duplicates(),
            forall|x: usize|
                #[trigger] r@.contains(x) <==> (a@.contains(x) || b@.take(i as int).contains(x)),
        decreases b@.len() - i,
    {
        assert(b@.take(i + 1 as int) == b@.take(i as int).push(b@[i as int]));
        proof {
            lemma_push_contains(b@.take(i as int), b@[i as int], b@.take(i + 1 as int));
        }
        if !floors_contain(&r, b[i]) {
            proof {
                lemma_push_no_dup(r@, b@[i as int]);
            }
            let ghost old_r = r@;
            r.push(b[i]);
            proof {
                lemma_push_contains(old_r, b@[i as int], r@);
            }
        }
        i += 1;
    }
    assert(b@.take(b@.len() as int) == b@);
    r
}

} // verus!
