//! The shapes that can be covered, with vertices in world coordinates.

use vstd::prelude::*;

verus! {

/// A position in world coordinates.
#[derive(Clone, Copy, Debug, PartialEq, Eq, Structural)]
pub struct Coordinate {
    pub x: i64,
    pub y: i64,
}

/// A path through its vertices, in order.
#[derive(Clone, Debug)]
pub struct LineString(pub Vec<Coordinate>);

/// An area bounded by an outer ring, with holes cut by inner rings. Every
/// ring is a closed path: its last vertex is its first.
#[derive(Clone, Debug)]
pub struct Polygon {
    pub exterior: LineString,
    pub interiors: Vec<LineString>,
}

/// A shape. Points, paths and areas, alone or in groups, can be covered;
/// a `Line` and a `GeometryCollection` cannot.
#[derive(Debug)]
pub enum Geometry {
    Point(Coordinate),
    Line(Coordinate, Coordinate),
    LineString(LineString),
    Polygon(Polygon),
    MultiPoint(Vec<Coordinate>),
    MultiLineString(Vec<LineString>),
    MultiPolygon(Vec<Polygon>),
    GeometryCollection(Vec<Geometry>),
}

#[derive(Debug, PartialEq, Eq, Structural)]
pub enum Error {
    /// The shape is of a kind that cannot be covered.
    GeomTypeNotSupported,
}

impl View for LineString {
    type V = Seq<Coordinate>;

    open spec fn view(&self) -> Seq<Coordinate> {
        self.0@
    }
}

impl Polygon {
    /// The rings of the polygon as vertex sequences: the exterior first, then
    /// the interiors in order.
    pub open spec fn rings(&self) -> Seq<Seq<Coordinate>> {
        seq![self.exterior@] + self.interiors@.map_values(|ring: LineString| ring@)
    }
}

} // verus!
