//! The pairwise matcher: which positions of two tracks are the same place.

use vstd::prelude::*;
use crate::coord::{same_place, Coord};

verus! {

/// Position `i` of `a` and position `j` of `b` are the same place.
pub open spec fn is_match(a: Seq<Coord>, b: Seq<Coord>, tolerance: u64, i: int, j: int) -> bool {
    0 <= i < a.len() && 0 <= j < b.len() && same_place(a[i], b[j], tolerance)
}

/// The matches of position `i` of `a` with the first `upto` positions of `b`,
/// by rising position in `b`.
pub open spec fn row_matches(
    a: Seq<Coord>,
    b: Seq<Coord>,
    tolerance: u64,
    i: int,
    upto: int,
) -> Seq<(usize, usize)>
    decreases upto,
{
    if upto <= 0 {
        Seq::empty()
    } else {
        let before = row_matches(a, b, tolerance, i, upto - 1);
        if same_place(a[i], b[upto - 1], tolerance) {
            before.push((i as usize, (upto - 1) as usize))
        } else {
            before
        }
    }
}

/// The matches of the first `rows` positions of `a` with all of `b`.
pub open spec fn matches_upto(a: Seq<Coord>, b: Seq<Coord>, tolerance: u64, rows: int) -> Seq<
    (usize, usize),
>
    decreases rows,
{
    if rows <= 0 {
        Seq::empty()
    } else {
        matches_upto(a, b, tolerance, rows - 1) + row_matches(
            a,
            b,
            tolerance,
            rows - 1,
            b.len() as int,
        )
    }
}

/// All index pairs `(i, j)` for which `a[i]` and `b[j]` are the same place, in
/// the order in which a walk over `a`, and for each of its positions over `b`,
/// meets them.
pub open spec fn all_matches(a: Seq<Coord>, b: Seq<Coord>, tolerance: u64) -> Seq<(usize, usize)> {
    matches_upto(a, b, tolerance, a.len() as int)
}

/// `p` comes before `q` in the walk.
pub open spec fn walk_before(p: (usize, usize), q: (usize, usize)) -> bool {
    p.0 < q.0 || (p.0 == q.0 && p.1 < q.1)
}

/// The matching pairs as a set: the plain cross-product definition.
pub open spec fn match_set(a: Seq<Coord>, b: Seq<Coord>, tolerance: u64) -> Set<(usize, usize)> {
    Set::new(|p: (usize, usize)| is_match(a, b, tolerance, p.0 as int, p.1 as int))
}

/// What pins a list of matches down: every member is a match, every match is
/// a member, and the members stand in walk order.
pub open spec fn is_match_list(
    r: Seq<(usize, usize)>,
    a: Seq<Coord>,
    b: Seq<Coord>,
    tolerance: u64,
) -> bool {
    &&& forall|k: int|
        0 <= k < r.len() ==> is_match(a, b, tolerance, #[trigger] r[k].0 as int, r[k].1 as int)
    &&& forall|p: (usize, usize)|
        #[trigger] match_set(a, b, tolerance).contains(p) ==> r.contains(p)
    &&& forall|k: int, l: int|
        0 <= k < l < r.len() ==> walk_before(#[trigger] r[k], #[trigger] r[l])
}

/// Finds every pair of positions at which the two tracks are the same place:
/// each such pair once, in the order of a walk over `a` and, for each of its
/// positions, over `b`.
pub fn match_coords(a: &Vec<Coord>, b: &Vec<Coord>, tolerance: u64) -> (r: Vec<(usize, usize)>)
    ensures
        r@ == all_matches(a@, b@, tolerance),
        is_match_list(r@, a@, b@, tolerance),
{
    let mut found: Vec<(usize, usize)> = Vec::new();
    let mut i: usize = 0;
    while i < a.len()
        invariant
            i <= a.len(),
            found@ == matches_upto(a@, b@, tolerance, i as int),
        decreases a.len() - i,
    {
        let ghost before = found@;
        let mut j: usize = 0;
        while j < b.len()
            invariant
                i < a.len(),
                j <= b.len(),
                before == matches_upto(a@, b@, tolerance, i as int),
                found@ == before + row_matches(a@, b@, tolerance, i as int, j as int),
            decreases b.len() - j,
        {
            if a[i].same_place_as(&b[j], tolerance) {
                found.push((i, j));
            }
            j += 1;
        }
        i += 1;
    }
    proof {
        assert(a.len() <= usize::MAX && b.len() <= usize::MAX);
        lemma_matches_is_match_list(a@, b@, tolerance);
    }
    found
}

/// What one row of the walk holds.
proof fn lemma_row_matches(a: Seq<Coord>, b: Seq<Coord>, tolerance: u64, i: int, upto: int)
    requires
        0 <= i < a.len() <= usize::MAX,
        0 <= upto <= b.len() <= usize::MAX,
    ensures
        forall|k: int|
            0 <= k < row_matches(a, b, tolerance, i, upto).len() ==> {
                let p = #[trigger] row_matches(a, b, tolerance, i, upto)[k];
                p.0 == i && p.1 < upto && same_place(a[i], b[p.1 as int], tolerance)
            },
        forall|j: int|
            0 <= j < upto && same_place(a[i], b[j], tolerance) ==> row_matches(
                a,
                b,
                tolerance,
                i,
                upto,
            ).contains((i as usize, j as usize)),
        forall|k: int, l: int|
            0 <= k < l < row_matches(a, b, tolerance, i, upto).len() ==> walk_before(
                #[trigger] row_matches(a, b, tolerance, i, upto)[k],
                #[trigger] row_matches(a, b, tolerance, i, upto)[l],
            ),
    decreases upto,
{
    if upto > 0 {
        lemma_row_matches(a, b, tolerance, i, upto - 1);
        let before = row_matches(a, b, tolerance, i, upto - 1);
        let row = row_matches(a, b, tolerance, i, upto);
        assert forall|j: int|
            0 <= j < upto && same_place(a[i], b[j], tolerance) implies row.contains(
            (i as usize, j as usize),
        ) by {
            if j < upto - 1 {
                let k = choose|k: int| 0 <= k < before.len() && before[k] == (i as usize, j as usize);
                assert(row[k] == (i as usize, j as usize));
            } else {
                assert(row[row.len() - 1] == (i as usize, j as usize));
            }
        }
    }
}

/// What the first `rows` rows of the walk hold.
proof fn lemma_matches_upto(a: Seq<Coord>, b: Seq<Coord>, tolerance: u64, rows: int)
    requires
        0 <= rows <= a.len() <= usize::MAX,
        b.len() <= usize::MAX,
    ensures
        forall|k: int|
            0 <= k < matches_upto(a, b, tolerance, rows).len() ==> {
                let p = #[trigger] matches_upto(a, b, tolerance, rows)[k];
                p.0 < rows && is_match(a, b, tolerance, p.0 as int, p.1 as int)
            },
        forall|i: int, j: int|
            0 <= i < rows && is_match(a, b, tolerance, i, j) ==> matches_upto(
                a,
                b,
                tolerance,
                rows,
            ).contains((i as usize, j as usize)),
        forall|k: int, l: int|
            0 <= k < l < matches_upto(a, b, tolerance, rows).len() ==> walk_before(
                #[trigger] matches_upto(a, b, tolerance, rows)[k],
                #[trigger] matches_upto(a, b, tolerance, rows)[l],
            ),
    decreases rows,
{
    if rows > 0 {
        lemma_matches_upto(a, b, tolerance, rows - 1);
        lemma_row_matches(a, b, tolerance, rows - 1, b.len() as int);
        let before = matches_upto(a, b, tolerance, rows - 1);
        let row = row_matches(a, b, tolerance, rows - 1, b.len() as int);
        let all = matches_upto(a, b, tolerance, rows);
        assert forall|i: int, j: int|
            0 <= i < rows && is_match(a, b, tolerance, i, j) implies all.contains(
            (i as usize, j as usize),
        ) by {
            if i < rows - 1 {
                let k = choose|k: int| 0 <= k < before.len() && before[k] == (i as usize, j as usize);
                assert(all[k] == (i as usize, j as usize));
            } else {
                let k = choose|k: int| 0 <= k < row.len() && row[k] == (i as usize, j as usize);
                assert(all[before.len() + k] == (i as usize, j as usize));
            }
        }
    }
}

/// The list of matches holds exactly the matching pairs, each once, in walk
/// order.
pub proof fn lemma_matches_is_match_list(a: Seq<Coord>, b: Seq<Coord>, tolerance: u64)
    requires
        a.len() <= usize::MAX,
        b.len() <= usize::MAX,
    ensures
        is_match_list(all_matches(a, b, tolerance), a, b, tolerance),
        all_matches(a, b, tolerance).no_duplicates(),
        all_matches(a, b, tolerance).to_set() == match_set(a, b, tolerance),
{
    lemma_matches_upto(a, b, tolerance, a.len() as int);
}

/// Only one list holds exactly the matching pairs in walk order: the list
/// of matches.
pub proof fn lemma_match_list_is_unique(
    r: Seq<(usize, usize)>,
    a: Seq<Coord>,
    b: Seq<Coord>,
    tolerance: u64,
)
    requires
        a.len() <= usize::MAX,
        b.len() <= usize::MAX,
        is_match_list(r, a, b, tolerance),
    ensures
        r == all_matches(a, b, tolerance),
{
    lemma_matches_is_match_list(a, b, tolerance);
    let m = all_matches(a, b, tolerance);
    assert forall|p: (usize, usize)| r.contains(p) <==> m.contains(p) by {
        if r.contains(p) {
            assert(match_set(a, b, tolerance).contains(p));
        }
        if m.contains(p) {
            assert(match_set(a, b, tolerance).contains(p));
        }
    }
    lemma_same_walk(r, m);
}

/// Two lists in walk order that hold the same pairs are one list.
proof fn lemma_same_walk(r: Seq<(usize, usize)>, m: Seq<(usize, usize)>)
    requires
        forall|k: int, l: int| 0 <= k < l < r.len() ==> walk_before(#[trigger] r[k], #[trigger] r[l]),
        forall|k: int, l: int| 0 <= k < l < m.len() ==> walk_before(#[trigger] m[k], #[trigger] m[l]),
        forall|p: (usize, usize)| r.contains(p) <==> m.contains(p),
    ensures
        r == m,
    decreases r.len(),
{
    if r.len() == 0 {
        if m.len() > 0 {
            assert(m.contains(m[0]));
        }
    } else if m.len() == 0 {
        assert(r.contains(r[0]));
    } else {
        let x = r.last();
        let y = m.last();
        assert(r.contains(x));
        assert(m.contains(y));
        let r0 = r.drop_last();
        let m0 = m.drop_last();
        assert forall|p: (usize, usize)| r0.contains(p) <==> m0.contains(p) by {
            if r0.contains(p) {
                assert(r.contains(p));
                let j = choose|j: int| 0 <= j < m.len() && m[j] == p;
                assert(m0[j] == p);
            }
            if m0.contains(p) {
                assert(m.contains(p));
                let j = choose|j: int| 0 <= j < r.len() && r[j] == p;
                assert(r0[j] == p);
            }
        }
        lemma_same_walk(r0, m0);
        assert(m =~= m0.push(y));
    }
}

/// The list of matches is empty exactly when no position of `a` is the same
/// place as any position of `b`.
pub proof fn lemma_no_matches_iff_disjoint(a: Seq<Coord>, b: Seq<Coord>, tolerance: u64)
    requires
        a.len() <= usize::MAX,
        b.len() <= usize::MAX,
    ensures
        all_matches(a, b, tolerance).len() == 0 <==> forall|i: int, j: int|
            0 <= i < a.len() && 0 <= j < b.len() ==> !same_place(a[i], b[j], tolerance),
{
    lemma_matches_upto(a, b, tolerance, a.len() as int);
    let r = all_matches(a, b, tolerance);
    if r.len() == 0 {
        assert forall|i: int, j: int| 0 <= i < a.len() && 0 <= j < b.len() implies !same_place(
            a[i],
            b[j],
            tolerance,
        ) by {
            if same_place(a[i], b[j], tolerance) {
                assert(is_match(a, b, tolerance, i, j));
            }
        }
    } else {
        assert(is_match(a, b, tolerance, r[0].0 as int, r[0].1 as int));
    }
}

/// There are as many entries in the list of matches as there are matching
/// pairs in the cross product of the two tracks.
pub proof fn lemma_match_count(a: Seq<Coord>, b: Seq<Coord>, tolerance: u64)
    requires
        a.len() <= usize::MAX,
        b.len() <= usize::MAX,
    ensures
        match_set(a, b, tolerance).finite(),
        all_matches(a, b, tolerance).len() == match_set(a, b, tolerance).len(),
{
    lemma_matches_is_match_list(a, b, tolerance);
    all_matches(a, b, tolerance).unique_seq_to_set();
}

/// Each pair with its two components exchanged.
pub open spec fn flip_pairs(pairs: Seq<(usize, usize)>) -> Seq<(usize, usize)> {
    pairs.map_values(|p: (usize, usize)| (p.1, p.0))
}

/// Matching `b` against `a` finds the pairs of matching `a` against `b`, each
/// with its components exchanged: the two lists hold the same pairs, though
/// not in the same order.
pub proof fn lemma_match_symmetric(a: Seq<Coord>, b: Seq<Coord>, tolerance: u64)
    requires
        a.len() <= usize::MAX,
        b.len() <= usize::MAX,
    ensures
        all_matches(a, b, tolerance).to_set() == flip_pairs(all_matches(b, a, tolerance)).to_set(),
        forall|i: usize, j: usize|
            all_matches(a, b, tolerance).contains((i, j)) <==> all_matches(b, a, tolerance).contains(
                (j, i),
            ),
{
    lemma_matches_is_match_list(a, b, tolerance);
    lemma_matches_is_match_list(b, a, tolerance);
    let ab = all_matches(a, b, tolerance);
    let ba = all_matches(b, a, tolerance);
    let flipped = flip_pairs(ba);
    assert forall|i: usize, j: usize| ab.contains((i, j)) <==> ba.contains((j, i)) by {
        assert(match_set(a, b, tolerance).contains((i, j)) <==> match_set(b, a, tolerance).contains(
            (j, i),
        ));
    }
    assert forall|p: (usize, usize)| ab.to_set().contains(p) <==> flipped.to_set().contains(
        p,
    ) by {
        if ab.contains(p) {
            let k = choose|k: int| 0 <= k < ba.len() && ba[k] == (p.1, p.0);
            assert(flipped[k] == p);
        }
    }
}

} // verus!
