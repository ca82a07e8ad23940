//! Geographic coordinates in fixed point.

use vstd::prelude::*;

verus! {

/// A position on the globe. Latitude and longitude are whole numbers of
/// 1e-7 degree, so that two positions can be compared exactly.
#[derive(Clone, Copy, Debug, PartialEq, Eq, Structural)]
pub struct Coord {
    pub lat: i64,
    pub lon: i64,
}

/// The distance between two fixed-point values.
pub open spec fn gap(x: i64, y: i64) -> int {
    if x >= y {
        x - y
    } else {
        y - x
    }
}

/// Two positions count as the same place when neither their latitudes nor
/// their longitudes are more than `tolerance` apart. Tolerance 0 is exact
/// equality.
pub open spec fn same_place(p: Coord, q: Coord, tolerance: u64) -> bool {
    gap(p.lat, q.lat) <= tolerance && gap(p.lon, q.lon) <= tolerance
}

/// Whether two fixed-point values are no more than `tolerance` apart.
fn within(x: i64, y: i64, tolerance: u64) -> (r: bool)
    ensures
        r == (gap(x, y) <= tolerance),
{
    let d: i128 = if x >= y {
        x as i128 - y as i128
    } else {
        y as i128 - x as i128
    };
    d <= tolerance as i128
}

impl Coord {
    /// Whether `self` and `other` are the same place under `tolerance`.
    pub fn same_place_as(&self, other: &Coord, tolerance: u64) -> (r: bool)
        ensures
            r == same_place(*self, *other, tolerance),
    {
        within(self.lat, other.lat, tolerance) && within(self.lon, other.lon, tolerance)
    }
}

} // verus!
