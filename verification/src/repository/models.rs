//! The entities of a transit repository, addressed by their dense indices.

use crate::fuzzy::Identifiable;
use crate::time::{Duration, Time};
use vstd::prelude::*;

verus! {

/// A logical grouping of stops, such as a large transit center or a city
/// district.
#[derive(Debug, Default, Clone)]
pub struct Area {
    /// The global internal index used for array lookups in the repository.
    pub index: u32,
    /// The unique external identifier.
    pub id: String,
    /// The display name of the area.
    pub name: String,
    /// The lowercased name, used by fuzzy search.
    pub normalized_name: String,
}

/// The specific nature of a transit stop location.
#[derive(Debug, Default, Clone)]
pub enum LocationType {
    /// A standard bus stop or platform.
    #[default]
    Stop,
    /// A specific platform within a larger station.
    Platform {
        /// ID of the parent station.
        parent_station: String,
        /// The alphanumeric code for the platform (e.g., "4B").
        platform_code: String,
    },
    /// A major transit hub or rail station containing multiple platforms.
    Station,
    /// A specific physical entrance to a station.
    Entrance(String),
    /// A generic node in the transit network.
    Node,
    /// A specific designated boarding point.
    Boarding,
}

/// A physical point where passengers can board or alight from a vehicle.
///
/// Its geographic coordinate is kept beside the repository by the caller,
/// indexed like the stops; the routing logic reads it only through walking
/// times.
#[derive(Debug, Default, Clone)]
pub struct Stop {
    /// The global internal index for this stop.
    pub index: u32,
    /// Unique external identifier for the stop.
    pub id: String,
    /// Human-readable name (e.g., "Main St & 4th Ave").
    pub name: String,
    /// The lowercased name, used by fuzzy search.
    pub normalized_name: String,
    /// The index of the parent station, where there is one.
    pub parent_index: Option<u32>,
    /// The specific GTFS location classification.
    pub location_type: LocationType,
}

#[derive(Debug, Default, Clone, Copy, PartialEq, Eq)]
pub enum Timepoint {
    #[default]
    Approximate,
    Exact,
}

#[derive(Debug, Default, Clone, Copy, PartialEq, Eq)]
pub enum StopAccessType {
    #[default]
    Regularly,
    NoneAvailable,
    AgencyArrange,
    DriverArrange,
}

/// A contiguous range within the global `stop_times` array.
#[derive(Default, Debug, Clone, Copy, PartialEq, Eq)]
pub struct StopTimeSlice {
    /// The index where the trip's stop-times begin.
    pub start_idx: u32,
    /// The total number of stops in the trip.
    pub count: u32,
}

/// An event within a trip where a vehicle calls at a stop.
#[derive(Debug, Default, Clone)]
pub struct StopTime {
    /// Global internal index of this stop-time record.
    pub index: u32,
    /// Internal index of the parent trip.
    pub trip_idx: u32,
    /// Internal index of the associated stop.
    pub stop_idx: u32,
    /// The order of this stop within the trip.
    pub sequence: u16,
    /// The full range of stop times of the parent trip.
    pub slice: StopTimeSlice,
    /// Zero-based position of this stop within its trip.
    pub internal_idx: u32,
    /// Scheduled arrival time.
    pub arrival_time: Time,
    /// Scheduled departure time.
    pub departure_time: Time,
    /// Destination shown to passengers when at this stop.
    pub headsign: Option<String>,
    /// Policy for passenger boarding.
    pub pickup_type: StopAccessType,
    /// Policy for passenger alighting.
    pub drop_off_type: StopAccessType,
    /// Whether times are exact or estimates.
    pub timepoint: Timepoint,
}

/// A connection between two stops, often a walk or a shuttle.
#[derive(Debug, Default, Clone)]
pub struct Transfer {
    pub from_stop_idx: u32,
    pub to_stop_idx: u32,
    /// If present, the transfer is only valid when arriving on this trip.
    pub from_trip_idx: Option<u32>,
    /// If present, the transfer is only valid when departing on this trip.
    pub to_trip_idx: Option<u32>,
    /// The minimum time required to complete the transfer.
    pub min_transfer_time: Option<Duration>,
    /// The time it takes to walk from one stop to the other, derived from
    /// their coordinates; used when no minimum transfer time is given.
    pub walk_time: Duration,
}

/// A journey taken by a vehicle through a sequence of stops.
#[derive(Debug, Default, Clone)]
pub struct Trip {
    pub index: u32,
    pub id: String,
    /// The parent route.
    pub route_idx: u32,
    /// The RAPTOR route that this trip belongs to.
    pub raptor_route_idx: u32,
    pub headsign: Option<String>,
    pub short_name: Option<String>,
}

/// A grouping of trips displayed to riders under a single name.
#[derive(Debug, Default, Clone)]
pub struct Route {
    pub index: u32,
    pub id: String,
    pub agency_id: String,
    pub short_name: Option<String>,
    pub long_name: Option<String>,
    /// Classification of the vehicle (0: Tram, 1: Subway, 3: Bus, etc.).
    pub route_type: i32,
    pub route_desc: Option<String>,
}

/// A route for the RAPTOR algorithm: every trip in it serves exactly the
/// same sequence of stops.
#[derive(Debug, Default, Clone)]
pub struct RaptorRoute {
    /// Internal index of this route.
    pub index: u32,
    /// The display-level route.
    pub route_idx: u32,
    /// The stops served, in order.
    pub stops: Vec<u32>,
    /// The trips that follow this stop sequence.
    pub trips: Vec<u32>,
}

/// A stop that can be reached on foot from another, with the time it takes.
#[derive(Debug, Default, Clone, Copy, PartialEq, Eq)]
pub struct Walk {
    pub to_stop_idx: u32,
    pub duration: Duration,
}

impl Identifiable for Area {
    fn id(&self) -> (r: &str)
        ensures
            r@ == self.id@,
    {
        self.id.as_str()
    }

    fn name(&self) -> (r: &str)
        ensures
            r@ == self.name@,
    {
        self.name.as_str()
    }

    fn normalized_name(&self) -> (r: &str)
        ensures
            r@ == self.normalized_name@,
    {
        self.normalized_name.as_str()
    }
}

impl Identifiable for Stop {
    fn id(&self) -> (r: &str)
        ensures
            r@ == self.id@,
    {
        self.id.as_str()
    }

    fn name(&self) -> (r: &str)
        ensures
            r@ == self.name@,
    {
        self.name.as_str()
    }

    fn normalized_name(&self) -> (r: &str)
        ensures
            r@ == self.normalized_name@,
    {
        self.normalized_name.as_str()
    }
}

} // verus!
