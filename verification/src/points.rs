//! A track as a list of annotated points.

use vstd::prelude::*;
use crate::coord::Coord;
use crate::json_text::{decimal, write_number};

verus! {

/// An annotated point, as a mathematical value.
pub struct PointModel {
    pub coords: Coord,
    pub name: Option<Seq<char>>,
    pub description: Option<Seq<char>>,
    pub elevation: Option<i64>,
}

/// A position with what is known about it: a name, a description in free
/// text, and an elevation in millimetres.
#[derive(Debug, PartialEq, Eq)]
pub struct Point {
    pub coords: Coord,
    pub name: Option<String>,
    pub description: Option<String>,
    pub elevation: Option<i64>,
}

/// The characters of a text that may be missing.
pub open spec fn text_model(t: Option<String>) -> Option<Seq<char>> {
    match t {
        Some(s) => Some(s@),
        None => None,
    }
}

impl View for Point {
    type V = PointModel;

    open spec fn view(&self) -> PointModel {
        PointModel {
            coords: self.coords,
            name: text_model(self.name),
            description: text_model(self.description),
            elevation: self.elevation,
        }
    }
}

/// The mathematical value of a list of points.
pub open spec fn points_model(points: Seq<Point>) -> Seq<PointModel> {
    points.map_values(|p: Point| p@)
}

/// The name of point `i` of a track of `n` points: `i/n`, both in decimal
/// digits.
pub open spec fn label(i: nat, n: nat) -> Seq<char> {
    decimal(i) + seq!['/'] + decimal(n)
}

/// The points of a track: each position under the name that `label` gives
/// it, with no description and no elevation.
pub open spec fn numbered(coords: Seq<Coord>) -> Seq<PointModel> {
    Seq::new(
        coords.len(),
        |i: int|
            PointModel {
                coords: coords[i],
                name: Some(label(i as nat, coords.len())),
                description: None,
                elevation: None,
            },
    )
}

/// Turns the positions of a track into points, each named by its place in
/// the track and the length of the track.
pub fn number_points(coords: &Vec<Coord>) -> (points: Vec<Point>)
    ensures
        points_model(points@) == numbered(coords@),
{
    let nb_points = coords.len();
    let mut points: Vec<Point> = Vec::new();
    let mut i: usize = 0;
    while i < nb_points
        invariant
            i <= nb_points == coords.len(),
            points.len() == i,
            forall|k: int| 0 <= k < i ==> (#[trigger] points[k])@ == numbered(coords@)[k],
        decreases nb_points - i,
    {
        let mut name = String::new();
        write_number(&mut name, i);
        name.push('/');
        write_number(&mut name, nb_points);
        assert(name@ =~= label(i as nat, nb_points as nat));
        points.push(Point { coords: coords[i], name: Some(name), description: None, elevation: None });
        i += 1;
    }
    points
}

} // verus!
