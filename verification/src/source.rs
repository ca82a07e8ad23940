//! The coordinate source: the tracks that are known, each under its name.

use vstd::prelude::*;
use crate::coord::Coord;
use crate::error::{Failure, MatchError};

verus! {

/// A named track, as a mathematical value.
pub struct TrackModel {
    pub id: Seq<char>,
    pub coords: Seq<Coord>,
}

/// A named track: its positions in the order in which they were recorded.
#[derive(Debug, PartialEq, Eq)]
pub struct Track {
    pub id: String,
    pub coords: Vec<Coord>,
}

impl View for Track {
    type V = TrackModel;

    open spec fn view(&self) -> TrackModel {
        TrackModel { id: self.id@, coords: self.coords@ }
    }
}

/// Some track of `s` has the name `id`.
pub open spec fn knows(s: Seq<TrackModel>, id: Seq<char>) -> bool {
    exists|i: int| 0 <= i < s.len() && #[trigger] s[i].id == id
}

/// Track `i` of `s` is the first of the name `id`.
pub open spec fn is_first_named(s: Seq<TrackModel>, id: Seq<char>, i: int) -> bool {
    &&& 0 <= i < s.len()
    &&& s[i].id == id
    &&& forall|k: int| 0 <= k < i ==> #[trigger] s[k].id != id
}

/// The positions of the first track of `s` that has the name `id`.
pub open spec fn coords_of(s: Seq<TrackModel>, id: Seq<char>) -> Seq<Coord> {
    s[choose|i: int| is_first_named(s, id, i)].coords
}

/// Among the first `upto` tracks, if one has the name, one is the first
/// to have it.
proof fn lemma_first_named_below(s: Seq<TrackModel>, id: Seq<char>, upto: int)
    requires
        0 <= upto <= s.len(),
        exists|i: int| 0 <= i < upto && #[trigger] s[i].id == id,
    ensures
        exists|i: int| is_first_named(s, id, i),
    decreases upto,
{
    if exists|i: int| 0 <= i < upto - 1 && #[trigger] s[i].id == id {
        lemma_first_named_below(s, id, upto - 1);
    } else {
        assert(is_first_named(s, id, upto - 1));
    }
}

/// The positions of a known track are those of one of the tracks of the
/// source: of the first that has the name.
pub proof fn lemma_known_track(s: Seq<TrackModel>, id: Seq<char>)
    requires
        knows(s, id),
    ensures
        exists|i: int| is_first_named(s, id, i) && coords_of(s, id) == s[i].coords,
{
    lemma_first_named_below(s, id, s.len() as int);
}

/// The tracks that can be resolved by name.
#[derive(Debug)]
pub struct CoordinateSource {
    tracks: Vec<Track>,
}

impl View for CoordinateSource {
    type V = Seq<TrackModel>;

    closed spec fn view(&self) -> Seq<TrackModel> {
        self.tracks@.map_values(|t: Track| t@)
    }
}

impl CoordinateSource {
    /// A source that knows no track.
    pub fn new() -> (r: CoordinateSource)
        ensures
            r@ == Seq::<TrackModel>::empty(),
    {
        CoordinateSource { tracks: Vec::new() }
    }

    /// Makes a track known. Where the name is known already, the earlier
    /// track keeps it.
    pub fn add(&mut self, track: Track)
        ensures
            final(self)@ == old(self)@.push(track@),
    {
        self.tracks.push(track);
    }

    /// The positions of the track named `id`, or `TrackNotFound` with that
    /// name where the source knows no such track.
    pub fn resolve(&self, id: &str) -> (r: Result<&Vec<Coord>, MatchError>)
        ensures
            match r {
                Ok(coords) => knows(self@, id@) && coords@ == coords_of(self@, id@),
                Err(e) => !knows(self@, id@) && e@ == (Failure::TrackNotFound { id: id@ }),
            },
    {
        let name = id.to_owned();
        let mut i: usize = 0;
        while i < self.tracks.len()
            invariant
                i <= self.tracks.len(),
                name@ == id@,
                forall|k: int| 0 <= k < i ==> #[trigger] self@[k].id != id@,
            decreases self.tracks.len() - i,
        {
            if self.tracks[i].id == name {
                proof {
                    assert(is_first_named(self@, id@, i as int));
                }
                return Ok(&self.tracks[i].coords);
            }
            i += 1;
        }
        Err(MatchError::TrackNotFound { id: name })
    }
}

} // verus!
