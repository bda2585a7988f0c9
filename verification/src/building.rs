//! The building data model: floors of names, and the name -> floors index.
//!
//! A building is a `Vec<Vec<String>>`: floor `i` holds the names of the
//! people on that floor.  In specifications a building is viewed through
//! `deep_view()` as a `Seq<Seq<Seq<char>>>`.

use vstd::prelude::*;

verus! {

/// Does floor `row` (a sequence of names) hold the name `name`?
pub open spec fn seq_has_name(row: Seq<Seq<char>>, name: Seq<char>) -> bool {
    exists|q: int| 0 <= q < row.len() && row[q] == name
}

/// Does floor `i` of the building hold the name `name`?
pub open spec fn row_has_name(rows: Seq<Seq<Seq<char>>>, i: int, name: Seq<char>) -> bool {
    seq_has_name(rows[i], name)
}

/// Do floors `i` and `j` share at least one name?
pub open spec fn share_name(rows: Seq<Seq<Seq<char>>>, i: int, j: int) -> bool {
    exists|q: int| 0 <= q < rows[i].len() && row_has_name(rows, j, rows[i][q])
}

/// A well-formed building: every floor holds at least one name, and names
/// are unique within a floor.
pub open spec fn building_wf(rows: Seq<Seq<Seq<char>>>) -> bool {
    forall|i: int| 0 <= i < rows.len() ==> (#[trigger] rows[i]).len() >= 1 && rows[i].no_duplicates()
}

/// Sharing a name is a symmetric relation between floors.
pub proof fn lemma_share_name_symmetric(rows: Seq<Seq<Seq<char>>>, i: int, j: int)
    requires
        0 <= i < rows.len(),
        0 <= j < rows.len(),
    ensures
        share_name(rows, i, j) == share_name(rows, j, i),
{
    if share_name(rows, i, j) {
        let q = choose|q: int| 0 <= q < rows[i].len() && row_has_name(rows, j, rows[i][q]);
        let q2 = choose|q2: int| 0 <= q2 < rows[j].len() && rows[j][q2] == rows[i][q];
        assert(row_has_name(rows, i, rows[j][q2]));
        assert(share_name(rows, j, i));
    }
    if share_name(rows, j, i) {
        let q = choose|q: int| 0 <= q < rows[j].len() && row_has_name(rows, i, rows[j][q]);
        let q2 = choose|q2: int| 0 <= q2 < rows[i].len() && rows[i][q2] == rows[j][q];
        assert(row_has_name(rows, j, rows[i][q2]));
        assert(share_name(rows, i, j));
    }
}

/// Is the name `nm` present among the keys `names`?
pub open spec fn name_covered(names: Seq<String>, nm: Seq<char>) -> bool {
    exists|k: int| 0 <= k < names.len() && names[k]@ == nm
}

/// Appending a key keeps every already covered name covered.
proof fn lemma_covered_push(names: Seq<String>, x: String, nm: Seq<char>)
    requires
        name_covered(names, nm),
    ensures
        name_covered(names.push(x), nm),
{
    let k = choose|k: int| 0 <= k < names.len() && names[k]@ == nm;
    assert(names.push(x)[k] == names[k]);
}

/// Does some floor of the building hold the name `nm`?
pub open spec fn key_occurs(rows: Seq<Seq<Seq<char>>>, nm: Seq<char>) -> bool {
    exists|i: int| 0 <= i < rows.len() && row_has_name(rows, i, nm)
}

/// The name index: for each distinct name of the building, the set of
/// floors holding it.  `names` and `floors` are parallel vectors.
pub struct NameFloorMap {
    pub names: Vec<String>,
    pub floors: Vec<Vec<usize>>,
}

/// Well-formedness of a name index with respect to a building:
/// keys are distinct, every floor list is duplicate-free, a floor list
/// holds exactly the floors whose name list holds the key, every name
/// of the building occurs as a key, and every key occurs in the
/// building — the keys are exactly the building's names.
pub open spec fn nfm_wf(rows: Seq<Seq<Seq<char>>>, m: NameFloorMap) -> bool {
    &&& m.names@.len() == m.floors@.len()
    &&& (forall|a: int, b: int|
        0 <= a < b < m.names@.len() ==> m.names@[a]@ != m.names@[b]@)
    &&& (forall|k: int| 0 <= k < m.floors@.len() ==> (#[trigger] m.floors@[k])@.no_duplicates())
    &&& (forall|k: int, j: usize|
        0 <= k < m.floors@.len() ==> ((#[trigger] m.floors@[k]@.contains(j)) <==> (j
            < rows.len() && row_has_name(rows, j as int, m.names@[k]@))))
    &&& (forall|i: int, q: int|
        0 <= i < rows.len() && 0 <= q < rows[i].len() ==> name_covered(
            m.names@,
            #[trigger] rows[i][q],
        ))
    &&& (forall|k: int| 0 <= k < m.names@.len() ==> key_occurs(rows, (#[trigger] m.names@[k])@))
}

/// Finds the index of `name` among `names`, if present.
pub fn find_name(names: &Vec<String>, name: &String) -> (r: Option<usize>)
    ensures
        match r {
            Some(k) => k < names@.len() && names@[k as int]@ == name@,
            None => forall|k: int| 0 <= k < names@.len() ==> names@[k]@ != name@,
        },
{
    let mut k: usize = 0;
    while k < names.len()
        invariant
            k <= names@.len(),
            forall|t: int| 0 <= t < k ==> names@[t]@ != name@,
        decreases names@.len() - k,
    {
        if names[k].eq(name) {
            return Some(k);
        }
        k += 1;
    }
    None
}

/// Does the given floor hold the given name?
pub fn row_contains_name(row: &Vec<String>, name: &String) -> (r: bool)
    ensures
        r == seq_has_name(row.deep_view(), name@),
{
    let mut q: usize = 0;
    while q < row.len()
        invariant
            q <= row@.len(),
            forall|t: int| 0 <= t < q ==> row@[t]@ != name@,
        decreases row@.len() - q,
    {
        if row[q].eq(name) {
            assert(row.deep_view()[q as int] == name@);
            return true;
        }
        q += 1;
    }
    assert(forall|t: int| 0 <= t < row@.len() ==> row.deep_view()[t] == row@[t]@);
    false
}

/// The list of floors holding `name`, in increasing order.
fn floors_for_name(bld: &Vec<Vec<String>>, name: &String) -> (fs: Vec<usize>)
    ensures
        fs@.no_duplicates(),
        forall|j: usize|
            #[trigger] fs@.contains(j) <==> (j < bld@.len() && row_has_name(
                bld.deep_view(),
                j as int,
                name@,
            )),
{
    broadcast use vstd::seq_lib::group_seq_properties;

    let mut fs: Vec<usize> = Vec::new();
    let mut j: usize = 0;
    while j < bld.len()
        invariant
            j <= bld@.len(),
            fs@.no_duplicates(),
            forall|x: usize| #[trigger] fs@.contains(x) ==> x < j,
            forall|x: usize|
                #[trigger] fs@.contains(x) <==> (x < j && row_has_name(
                    bld.deep_view(),
                    x as int,
                    name@,
                )),
        decreases bld@.len() - j,
    {
        assert(bld.deep_view()[j as int] == bld@[j as int].deep_view());
        if row_contains_name(&bld[j], name) {
            proof {
                crate::floorset::lemma_push_no_dup(fs@, j);
            }
            let ghost old_fs = fs@;
            fs.push(j);
            proof {
                crate::floorset::lemma_push_contains(old_fs, j, fs@);
            }
        }
        j += 1;
    }
    fs
}

/// Builds the name index of a building: every distinct name of the
/// building, each with the exact set of floors holding it.
pub fn make_name_floor_map(bld: &Vec<Vec<String>>) -> (m: NameFloorMap)
    ensures
        nfm_wf(bld.deep_view(), m),
{
    let ghost rows = bld.deep_view();
    let mut names: Vec<String> = Vec::new();
    let mut i: usize = 0;
    while i < bld.len()
        invariant
            rows == bld.deep_view(),
            i <= bld@.len(),
            forall|a: int, b: int| 0 <= a < b < names@.len() ==> names@[a]@ != names@[b]@,
            forall|i2: int, q2: int|
                0 <= i2 < i && 0 <= q2 < rows[i2].len() ==> name_covered(
                    names@,
                    #[trigger] rows[i2][q2],
                ),
            forall|k: int| 0 <= k < names@.len() ==> key_occurs(rows, (#[trigger] names@[k])@),
        decreases bld@.len() - i,
    {
        let mut q: usize = 0;
        while q < bld[i].len()
            invariant
                rows == bld.deep_view(),
                i < bld@.len(),
                q <= bld@[i as int]@.len(),
                forall|a: int, b: int| 0 <= a < b < names@.len() ==> names@[a]@ != names@[b]@,
                forall|i2: int, q2: int|
                    0 <= i2 < i && 0 <= q2 < rows[i2].len() ==> name_covered(
                        names@,
                        #[trigger] rows[i2][q2],
                    ),
                forall|q2: int|
                    0 <= q2 < q ==> name_covered(names@, #[trigger] rows[i as int][q2]),
                forall|k: int| 0 <= k < names@.len() ==> key_occurs(rows, (#[trigger] names@[k])@),
            decreases bld@[i as int]@.len() - q,
        {
            assert(rows[i as int] == bld@[i as int].deep_view());
            assert(rows[i as int][q as int] == bld@[i as int]@[q as int]@);
            let person = &bld[i][q];
            if find_name(&names, person).is_none() {
                let ghost old_names = names@;
                names.push(person.clone());
                proof {
                    assert(names@ == old_names.push(names@[old_names.len() as int]));
                    assert(names@[old_names.len() as int]@ == person@);
                    assert forall|nm: Seq<char>| name_covered(old_names, nm) implies name_covered(
                        names@,
                        nm,
                    ) by {
                        lemma_covered_push(old_names, names@[old_names.len() as int], nm);
                    }
                    assert(name_covered(names@, rows[i as int][q as int]));
                    assert(row_has_name(rows, i as int, rows[i as int][q as int]));
                    assert(key_occurs(rows, names@[old_names.len() as int]@));
                    assert(forall|k: int|
                        0 <= k < old_names.len() ==> names@[k] == old_names[k]);
                }
            } else {
                assert(name_covered(names@, rows[i as int][q as int]));
            }
            q += 1;
        }
        assert(rows[i as int] == bld@[i as int].deep_view());
        assert(rows[i as int].len() == bld@[i as int]@.len());
        i += 1;
    }
    let mut floors: Vec<Vec<usize>> = Vec::new();
    let mut k: usize = 0;
    while k < names.len()
        invariant
            rows == bld.deep_view(),
            k <= names@.len(),
            floors@.len() == k,
            forall|t: int| 0 <= t < k ==> (#[trigger] floors@[t])@.no_duplicates(),
            forall|t: int, j: usize|
                0 <= t < k ==> ((#[trigger] floors@[t]@.contains(j)) <==> (j < rows.len()
                    && row_has_name(rows, j as int, names@[t]@))),
        decreases names@.len() - k,
    {
        let fs = floors_for_name(bld, &names[k]);
        floors.push(fs);
        k += 1;
    }
    NameFloorMap { names, floors }
}

} // verus!
