//! Where a journey starts or ends, and the points that legs connect.

use vstd::prelude::*;

verus! {

/// The origin or destination of a search.
#[derive(Debug, Clone)]
pub enum Location {
    /// An area, by id.
    Area(String),
    /// A stop, by id.
    Stop(String),
    /// A geographic point, given by the stops within walking reach of it
    /// (the caller derives them from the coordinate).
    Coordinate(Vec<u32>),
}

/// An end of a leg: a stop of the repository, or a point off the network.
#[derive(Debug, Clone, Copy, PartialEq, Eq)]
pub enum Point {
    Coordinate,
    Stop(u32),
}

impl Point {
    pub fn from(value: u32) -> (p: Point)
        ensures
            p == Point::Stop(value),
    {
        Point::Stop(value)
    }
}

} // verus!
