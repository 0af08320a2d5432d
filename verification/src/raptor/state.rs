//! The records that a RAPTOR search keeps per stop and per round.

use crate::raptor::location::Point;
use crate::time::Time;
use vstd::prelude::*;

verus! {

/// How a stop was reached.
#[derive(Debug, Clone, Copy, PartialEq, Eq)]
pub enum ParentType {
    /// Riding the trip with this index.
    Transit(u32),
    /// Following a transfer of the repository.
    Transfer,
    /// Walking to a nearby stop.
    Walk,
}

impl ParentType {
    pub fn is_transit(&self) -> (b: bool)
        ensures
            b == (*self is Transit),
    {
        match self {
            ParentType::Transit(_) => true,
            _ => false,
        }
    }

    pub fn is_transfer(&self) -> (b: bool)
        ensures
            b == (*self is Transfer),
    {
        match self {
            ParentType::Transfer => true,
            _ => false,
        }
    }

    pub fn is_walk(&self) -> (b: bool)
        ensures
            b == (*self is Walk),
    {
        match self {
            ParentType::Walk => true,
            _ => false,
        }
    }
}

/// The last leg of the best known way to a stop.
#[derive(Debug, Clone, Copy, PartialEq, Eq)]
pub struct Parent {
    pub from: Point,
    pub to: Point,
    pub parent_type: ParentType,
    pub departure_time: Time,
    pub arrival_time: Time,
}

impl Parent {
    pub fn new_transit(from: Point, to: Point, trip: u32, departure_time: Time, arrival_time: Time) -> (p: Parent)
        ensures
            p == (Parent { from, to, parent_type: ParentType::Transit(trip), departure_time, arrival_time }),
    {
        Parent { from, to, parent_type: ParentType::Transit(trip), departure_time, arrival_time }
    }

    pub fn new_transfer(from: Point, to: Point, departure_time: Time, arrival_time: Time) -> (p: Parent)
        ensures
            p == (Parent { from, to, parent_type: ParentType::Transfer, departure_time, arrival_time }),
    {
        Parent { from, to, parent_type: ParentType::Transfer, departure_time, arrival_time }
    }

    pub fn new_walk(from: Point, to: Point, departure_time: Time, arrival_time: Time) -> (p: Parent)
        ensures
            p == (Parent { from, to, parent_type: ParentType::Walk, departure_time, arrival_time }),
    {
        Parent { from, to, parent_type: ParentType::Walk, departure_time, arrival_time }
    }
}

/// A proposed improvement of a stop's label.
#[derive(Debug, Clone, Copy, PartialEq, Eq)]
pub struct Update {
    pub stop_idx: u32,
    pub arrival_time: Time,
    pub parent: Parent,
}

impl Update {
    pub fn new(stop_idx: u32, arrival_time: Time, parent: Parent) -> (u: Update)
        ensures
            u == (Update { stop_idx, arrival_time, parent }),
    {
        Update { stop_idx, arrival_time, parent }
    }
}

/// The stops a search aims for, and the best result found so far.
#[derive(Debug, Clone)]
pub struct Target {
    pub stops: Vec<u32>,
    pub tau_star: Time,
    pub best_stop: Option<u32>,
    pub best_round: Option<usize>,
}

impl Target {
    pub fn new() -> (t: Target)
        ensures
            t.stops@.len() == 0,
            t.tau_star.0 == u32::MAX,
            t.best_stop is None,
            t.best_round is None,
    {
        Target { stops: Vec::new(), tau_star: Time::latest(), best_stop: None, best_round: None }
    }

    pub fn clear(&mut self)
        ensures
            final(self).stops@.len() == 0,
            final(self).tau_star.0 == u32::MAX,
            final(self).best_stop is None,
            final(self).best_round is None,
    {
        self.stops.clear();
        self.tau_star = Time::latest();
        self.best_stop = None;
        self.best_round = None;
    }
}

/// A RAPTOR route that serves a stop, and the stop's position on it.
#[derive(Debug, Clone, Copy, PartialEq, Eq)]
pub struct ServingRoute {
    pub route_idx: u32,
    pub idx_in_route: u32,
}

} // verus!
