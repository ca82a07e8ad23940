//! The index builder: matches every two tracks of a collection.

use vstd::prelude::*;
use crate::error::{Failure, MatchError};
use crate::index::{
    can_add, holds, lemma_with_entry, lookup_pairs, model_wf, stored_pairs, with_entry,
    MatchIndex, RowModel,
};
use crate::matcher::{all_matches, flip_pairs, lemma_match_symmetric, match_coords};
use crate::source::{coords_of, knows, lemma_known_track, CoordinateSource, TrackModel};

verus! {

/// The names in a list of track identifiers.
pub open spec fn names(ids: Seq<String>) -> Seq<Seq<char>> {
    ids.map_values(|id: String| id@)
}

/// The index after the tracks `a` and `b` were compared. Nothing happens
/// where the two are one track. Else both are resolved, `a` first, and
/// their matches are stored from `a` to `b`, unless there are none or the
/// two are stored already.
pub open spec fn pair_step(
    m: Seq<RowModel>,
    s: Seq<TrackModel>,
    tolerance: u64,
    a: Seq<char>,
    b: Seq<char>,
) -> Result<Seq<RowModel>, Failure> {
    if a == b {
        Ok(m)
    } else if !knows(s, a) {
        Err(Failure::TrackNotFound { id: a })
    } else if !knows(s, b) {
        Err(Failure::TrackNotFound { id: b })
    } else {
        let found = all_matches(coords_of(s, a), coords_of(s, b), tolerance);
        if found.len() > 0 && can_add(m, a, b) {
            Ok(with_entry(m, a, b, found))
        } else {
            Ok(m)
        }
    }
}

/// The index after track `i` was compared with the tracks that follow it up
/// to, and without, position `upto`.
pub open spec fn row_steps(
    m: Seq<RowModel>,
    s: Seq<TrackModel>,
    tolerance: u64,
    ids: Seq<Seq<char>>,
    i: int,
    upto: int,
) -> Result<Seq<RowModel>, Failure>
    decreases upto - i,
{
    if upto <= i + 1 {
        Ok(m)
    } else {
        match row_steps(m, s, tolerance, ids, i, upto - 1) {
            Ok(before) => pair_step(before, s, tolerance, ids[i], ids[upto - 1]),
            Err(e) => Err(e),
        }
    }
}

/// The index after each of the first `rows` tracks was compared with all
/// that follow it.
pub open spec fn build_upto(s: Seq<TrackModel>, tolerance: u64, ids: Seq<Seq<char>>, rows: int) -> Result<
    Seq<RowModel>,
    Failure,
>
    decreases rows,
{
    if rows <= 0 {
        Ok(Seq::empty())
    } else {
        match build_upto(s, tolerance, ids, rows - 1) {
            Ok(before) => row_steps(before, s, tolerance, ids, rows - 1, ids.len() as int),
            Err(e) => Err(e),
        }
    }
}

/// The index of a collection of tracks: every two of them compared once,
/// in the order of the collection, the earlier track first. The first track
/// that cannot be resolved ends the build.
pub open spec fn build_model(s: Seq<TrackModel>, tolerance: u64, ids: Seq<Seq<char>>) -> Result<
    Seq<RowModel>,
    Failure,
> {
    build_upto(s, tolerance, ids, ids.len() as int)
}

/// Every entry of `m` holds the matches of its two tracks, first track
/// first, and there is at least one of them.
pub open spec fn faithful(m: Seq<RowModel>, s: Seq<TrackModel>, tolerance: u64) -> bool {
    forall|a: Seq<char>, b: Seq<char>| #[trigger]
        holds(m, a, b) ==> {
            &&& a != b
            &&& knows(s, a)
            &&& knows(s, b)
            &&& stored_pairs(m, a, b) == all_matches(coords_of(s, a), coords_of(s, b), tolerance)
            &&& stored_pairs(m, a, b).len() > 0
        }
}

/// The tracks `a` and `b`, if they are two, are both known, and if they
/// meet, `m` stores them, one way or the other.
pub open spec fn covers(
    m: Seq<RowModel>,
    s: Seq<TrackModel>,
    tolerance: u64,
    a: Seq<char>,
    b: Seq<char>,
) -> bool {
    a != b ==> {
        &&& knows(s, a)
        &&& knows(s, b)
        &&& all_matches(coords_of(s, a), coords_of(s, b), tolerance).len() > 0 ==> holds(m, a, b)
            || holds(m, b, a)
    }
}

/// Comparing two tracks keeps the index well-formed and faithful, keeps
/// what it stored, and covers the two tracks.
proof fn lemma_pair_step(
    m: Seq<RowModel>,
    s: Seq<TrackModel>,
    tolerance: u64,
    a: Seq<char>,
    b: Seq<char>,
)
    requires
        model_wf(m),
        faithful(m, s, tolerance),
    ensures
        pair_step(m, s, tolerance, a, b) matches Ok(n) ==> {
            &&& model_wf(n)
            &&& faithful(n, s, tolerance)
            &&& covers(n, s, tolerance, a, b)
            &&& forall|x: Seq<char>, y: Seq<char>| holds(m, x, y) ==> holds(n, x, y)
        },
{
    if a != b && knows(s, a) && knows(s, b) {
        let found = all_matches(coords_of(s, a), coords_of(s, b), tolerance);
        if found.len() > 0 && can_add(m, a, b) {
            lemma_with_entry(m, a, b, found);
            let n = with_entry(m, a, b, found);
            assert forall|x: Seq<char>, y: Seq<char>| #[trigger] holds(n, x, y) implies {
                &&& x != y
                &&& knows(s, x)
                &&& knows(s, y)
                &&& stored_pairs(n, x, y) == all_matches(
                    coords_of(s, x),
                    coords_of(s, y),
                    tolerance,
                )
                &&& stored_pairs(n, x, y).len() > 0
            } by {}
        }
    }
}

/// Comparing two tracks keeps the index well-formed.
proof fn lemma_pair_step_wf(
    m: Seq<RowModel>,
    s: Seq<TrackModel>,
    tolerance: u64,
    a: Seq<char>,
    b: Seq<char>,
)
    requires
        model_wf(m),
    ensures
        pair_step(m, s, tolerance, a, b) matches Ok(n) ==> model_wf(n),
{
    if a != b && knows(s, a) && knows(s, b) {
        let found = all_matches(coords_of(s, a), coords_of(s, b), tolerance);
        if found.len() > 0 && can_add(m, a, b) {
            lemma_with_entry(m, a, b, found);
        }
    }
}

proof fn lemma_row_steps(
    m: Seq<RowModel>,
    s: Seq<TrackModel>,
    tolerance: u64,
    ids: Seq<Seq<char>>,
    i: int,
    upto: int,
)
    requires
        model_wf(m),
        faithful(m, s, tolerance),
        0 <= i < upto <= ids.len(),
    ensures
        row_steps(m, s, tolerance, ids, i, upto) matches Ok(n) ==> {
            &&& model_wf(n)
            &&& faithful(n, s, tolerance)
            &&& forall|x: Seq<char>, y: Seq<char>| holds(m, x, y) ==> holds(n, x, y)
            &&& forall|j: int| i < j < upto ==> covers(n, s, tolerance, ids[i], #[trigger] ids[j])
        },
    decreases upto - i,
{
    if upto > i + 1 {
        lemma_row_steps(m, s, tolerance, ids, i, upto - 1);
        if let Ok(before) = row_steps(m, s, tolerance, ids, i, upto - 1) {
            lemma_pair_step(before, s, tolerance, ids[i], ids[upto - 1]);
        }
    }
}

proof fn lemma_build_upto(s: Seq<TrackModel>, tolerance: u64, ids: Seq<Seq<char>>, rows: int)
    requires
        0 <= rows <= ids.len(),
    ensures
        build_upto(s, tolerance, ids, rows) matches Ok(n) ==> {
            &&& model_wf(n)
            &&& faithful(n, s, tolerance)
            &&& forall|i: int, j: int|
                0 <= i < rows && i < j < ids.len() ==> covers(
                    n,
                    s,
                    tolerance,
                    #[trigger] ids[i],
                    #[trigger] ids[j],
                )
        },
    decreases rows,
{
    if rows > 0 {
        lemma_build_upto(s, tolerance, ids, rows - 1);
        if let Ok(before) = build_upto(s, tolerance, ids, rows - 1) {
            if rows < ids.len() {
                lemma_row_steps(before, s, tolerance, ids, rows - 1, ids.len() as int);
            }
        }
    }
}

/// Every track of `s` is short enough to be held in memory.
pub open spec fn source_fits(s: Seq<TrackModel>) -> bool {
    forall|i: int| 0 <= i < s.len() ==> (#[trigger] s[i]).coords.len() <= usize::MAX
}

/// What a built index is: well-formed, with the matches of its two tracks
/// under every entry, in one direction only.
pub proof fn lemma_build_is_faithful(
    s: Seq<TrackModel>,
    tolerance: u64,
    ids: Seq<Seq<char>>,
    m: Seq<RowModel>,
)
    requires
        build_model(s, tolerance, ids) == Ok::<Seq<RowModel>, Failure>(m),
    ensures
        model_wf(m),
        faithful(m, s, tolerance),
{
    lemma_build_upto(s, tolerance, ids, ids.len() as int);
}

/// A built index answers a query for two of its tracks with the pairs at
/// which the two meet: the positions of the first track first, whichever
/// of the two owns the row. The pairs are those of the matcher; only their
/// order is that of the stored direction.
pub proof fn lemma_build_answers(
    s: Seq<TrackModel>,
    tolerance: u64,
    ids: Seq<Seq<char>>,
    m: Seq<RowModel>,
    x: Seq<char>,
    y: Seq<char>,
)
    requires
        build_model(s, tolerance, ids) == Ok::<Seq<RowModel>, Failure>(m),
        source_fits(s),
        ids.contains(x),
        ids.contains(y),
        x != y,
    ensures
        knows(s, x),
        knows(s, y),
        lookup_pairs(m, x, y).to_set() == all_matches(
            coords_of(s, x),
            coords_of(s, y),
            tolerance,
        ).to_set(),
{
    lemma_build_upto(s, tolerance, ids, ids.len() as int);
    let cx = coords_of(s, x);
    let cy = coords_of(s, y);
    lemma_known_track(s, x);
    lemma_known_track(s, y);
    lemma_match_symmetric(cx, cy, tolerance);
    lemma_match_symmetric(cy, cx, tolerance);
    if !holds(m, x, y) && !holds(m, y, x) && all_matches(cx, cy, tolerance).len() > 0 {
        let w = all_matches(cx, cy, tolerance)[0];
        assert(all_matches(cx, cy, tolerance).to_set().contains(w));
    }
}

/// Building twice from the same tracks and the same source gives the
/// same index.
pub proof fn lemma_rebuild_is_same(
    s: Seq<TrackModel>,
    tolerance: u64,
    ids: Seq<Seq<char>>,
    first: Seq<RowModel>,
    second: Seq<RowModel>,
)
    requires
        build_model(s, tolerance, ids) == Ok::<Seq<RowModel>, Failure>(first),
        build_model(s, tolerance, ids) == Ok::<Seq<RowModel>, Failure>(second),
    ensures
        first == second,
{}

/// Once a track of a row could not be resolved, the rest of the row changes
/// nothing.
proof fn lemma_row_steps_failed(
    m: Seq<RowModel>,
    s: Seq<TrackModel>,
    tolerance: u64,
    ids: Seq<Seq<char>>,
    i: int,
    upto: int,
    later: int,
)
    requires
        upto <= later,
        row_steps(m, s, tolerance, ids, i, upto) is Err,
    ensures
        row_steps(m, s, tolerance, ids, i, later) == row_steps(m, s, tolerance, ids, i, upto),
    decreases later - upto,
{
    if upto < later {
        lemma_row_steps_failed(m, s, tolerance, ids, i, upto, later - 1);
    }
}

/// Once a track could not be resolved, the rest of the build changes
/// nothing.
proof fn lemma_build_failed(
    s: Seq<TrackModel>,
    tolerance: u64,
    ids: Seq<Seq<char>>,
    rows: int,
    later: int,
)
    requires
        rows <= later,
        build_upto(s, tolerance, ids, rows) is Err,
    ensures
        build_upto(s, tolerance, ids, later) == build_upto(s, tolerance, ids, rows),
    decreases later - rows,
{
    if rows < later {
        lemma_build_failed(s, tolerance, ids, rows, later - 1);
    }
}

/// Builds the index of the tracks named in `track_ids`. Which of two tracks
/// owns the row is decided by their order in `track_ids`: the earlier one.
/// Fails with `TrackNotFound` at the first track that the source does not
/// know, and then builds nothing.
pub fn build(track_ids: &Vec<String>, source: &CoordinateSource, tolerance: u64) -> (r: Result<
    MatchIndex,
    MatchError,
>)
    ensures
        match r {
            Ok(index) => index.wf() && build_model(source@, tolerance, names(track_ids@)) == Ok::<
                Seq<RowModel>,
                Failure,
            >(index@),
            Err(e) => build_model(source@, tolerance, names(track_ids@)) == Err::<
                Seq<RowModel>,
                Failure,
            >(e@),
        },
{
    let ghost ids = names(track_ids@);
    let mut index = MatchIndex::new();
    let mut i: usize = 0;
    while i < track_ids.len()
        invariant
            i <= track_ids.len(),
            ids == names(track_ids@),
            index.wf(),
            build_upto(source@, tolerance, ids, i as int) == Ok::<Seq<RowModel>, Failure>(index@),
        decreases track_ids.len() - i,
    {
        let ghost start = index@;
        let mut j: usize = i + 1;
        while j < track_ids.len()
            invariant
                i < j <= track_ids.len(),
                ids == names(track_ids@),
                index.wf(),
                build_upto(source@, tolerance, ids, i as int) == Ok::<Seq<RowModel>, Failure>(
                    start,
                ),
                row_steps(start, source@, tolerance, ids, i as int, j as int) == Ok::<
                    Seq<RowModel>,
                    Failure,
                >(index@),
            decreases track_ids.len() - j,
        {
            let ghost before = index@;
            proof {
                lemma_pair_step_wf(before, source@, tolerance, ids[i as int], ids[j as int]);
            }
            if track_ids[i] != track_ids[j] {
                let coords_a = match source.resolve(track_ids[i].as_str()) {
                    Ok(coords) => coords,
                    Err(e) => {
                        proof {
                            lemma_row_steps_failed(
                                start,
                                source@,
                                tolerance,
                                ids,
                                i as int,
                                j + 1,
                                ids.len() as int,
                            );
                            lemma_build_failed(source@, tolerance, ids, i + 1, ids.len() as int);
                        }
                        return Err(e);
                    },
                };
                let coords_b = match source.resolve(track_ids[j].as_str()) {
                    Ok(coords) => coords,
                    Err(e) => {
                        proof {
                            lemma_row_steps_failed(
                                start,
                                source@,
                                tolerance,
                                ids,
                                i as int,
                                j + 1,
                                ids.len() as int,
                            );
                            lemma_build_failed(source@, tolerance, ids, i + 1, ids.len() as int);
                        }
                        return Err(e);
                    },
                };
                let found = match_coords(coords_a, coords_b, tolerance);
                if found.len() > 0 {
                    index.insert(track_ids[i].clone(), track_ids[j].clone(), found);
                }
            }
            j += 1;
        }
        i += 1;
    }
    Ok(index)
}

} // verus!
