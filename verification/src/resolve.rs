//! From index pairs back to the positions they stand for.

use vstd::prelude::*;
use crate::coord::Coord;
use crate::error::{Failure, MatchError};
use crate::source::{coords_of, knows, CoordinateSource, TrackModel};

verus! {

/// Both components of `p` are positions of their tracks.
pub open spec fn in_range(p: (usize, usize), ca: Seq<Coord>, cb: Seq<Coord>) -> bool {
    p.0 < ca.len() && p.1 < cb.len()
}

/// Every pair points into the two tracks.
pub open spec fn all_in_range(pairs: Seq<(usize, usize)>, ca: Seq<Coord>, cb: Seq<Coord>) -> bool {
    forall|k: int| 0 <= k < pairs.len() ==> in_range(#[trigger] pairs[k], ca, cb)
}

/// Pair `k` is the first that points past the end of one of the tracks.
pub open spec fn is_first_stale(
    pairs: Seq<(usize, usize)>,
    ca: Seq<Coord>,
    cb: Seq<Coord>,
    k: int,
) -> bool {
    &&& 0 <= k < pairs.len()
    &&& !in_range(pairs[k], ca, cb)
    &&& forall|l: int| 0 <= l < k ==> in_range(#[trigger] pairs[l], ca, cb)
}

/// The two positions that each pair stands for.
pub open spec fn coords_at(pairs: Seq<(usize, usize)>, ca: Seq<Coord>, cb: Seq<Coord>) -> Seq<
    (Coord, Coord),
> {
    pairs.map_values(|p: (usize, usize)| (ca[p.0 as int], cb[p.1 as int]))
}

/// The failure that the first stale pair gives: the track whose end it
/// points past, the first track if both, and the offending position.
pub open spec fn stale_failure(
    pairs: Seq<(usize, usize)>,
    a: Seq<char>,
    b: Seq<char>,
    ca: Seq<Coord>,
    cb: Seq<Coord>,
) -> Failure {
    let k = choose|k: int| is_first_stale(pairs, ca, cb, k);
    if pairs[k].0 >= ca.len() {
        Failure::StaleIndexReference { id: a, index: pairs[k].0 }
    } else {
        Failure::StaleIndexReference { id: b, index: pairs[k].1 }
    }
}

/// What resolving `pairs` against the tracks `a` and `b` of `s` gives.
pub open spec fn resolved(
    s: Seq<TrackModel>,
    a: Seq<char>,
    b: Seq<char>,
    pairs: Seq<(usize, usize)>,
) -> Result<Seq<(Coord, Coord)>, Failure> {
    if !knows(s, a) {
        Err(Failure::TrackNotFound { id: a })
    } else if !knows(s, b) {
        Err(Failure::TrackNotFound { id: b })
    } else if all_in_range(pairs, coords_of(s, a), coords_of(s, b)) {
        Ok(coords_at(pairs, coords_of(s, a), coords_of(s, b)))
    } else {
        Err(stale_failure(pairs, a, b, coords_of(s, a), coords_of(s, b)))
    }
}

/// Turns index pairs into pairs of positions: for each pair, the position
/// of `file_1` at its first component and the position of `file_2` at its
/// second. Both tracks are resolved anew. Fails with `TrackNotFound` where
/// the source does not know one of the tracks (`file_1` is looked up first),
/// and with `StaleIndexReference` at the first pair that points past the end
/// of a track.
pub fn indexes_to_coords(
    source: &CoordinateSource,
    file_1: &str,
    file_2: &str,
    indexes: &Vec<(usize, usize)>,
) -> (r: Result<Vec<(Coord, Coord)>, MatchError>)
    ensures
        match r {
            Ok(v) => resolved(source@, file_1@, file_2@, indexes@) == Ok::<
                Seq<(Coord, Coord)>,
                Failure,
            >(v@),
            Err(e) => resolved(source@, file_1@, file_2@, indexes@) == Err::<
                Seq<(Coord, Coord)>,
                Failure,
            >(e@),
        },
{
    let coord_1 = match source.resolve(file_1) {
        Ok(coords) => coords,
        Err(e) => {
            return Err(e);
        },
    };
    let coord_2 = match source.resolve(file_2) {
        Ok(coords) => coords,
        Err(e) => {
            return Err(e);
        },
    };
    let mut coords_pairs: Vec<(Coord, Coord)> = Vec::new();
    let mut k: usize = 0;
    while k < indexes.len()
        invariant
            k <= indexes.len(),
            knows(source@, file_1@),
            knows(source@, file_2@),
            coord_1@ == coords_of(source@, file_1@),
            coord_2@ == coords_of(source@, file_2@),
            all_in_range(indexes@.take(k as int), coord_1@, coord_2@),
            coords_pairs@ == coords_at(indexes@.take(k as int), coord_1@, coord_2@),
        decreases indexes.len() - k,
    {
        let (index_1, index_2) = indexes[k];
        if index_1 >= coord_1.len() || index_2 >= coord_2.len() {
            proof {
                assert forall|l: int| 0 <= l < k implies in_range(
                    #[trigger] indexes@[l],
                    coord_1@,
                    coord_2@,
                ) by {
                    assert(indexes@.take(k as int)[l] == indexes@[l]);
                }
                assert(is_first_stale(indexes@, coord_1@, coord_2@, k as int));
            }
            if index_1 >= coord_1.len() {
                return Err(MatchError::StaleIndexReference { id: file_1.to_owned(), index: index_1 });
            } else {
                return Err(MatchError::StaleIndexReference { id: file_2.to_owned(), index: index_2 });
            }
        }
        coords_pairs.push((coord_1[index_1], coord_2[index_2]));
        k += 1;
    }
    proof {
        assert(indexes@.take(k as int) =~= indexes@);
    }
    Ok(coords_pairs)
}

} // verus!
