//! The rows of the GTFS tables that the repository is built from.
//!
//! Each row keeps the columns that the loader reads; a stop's coordinate
//! and a stop time's travelled distance are kept by the caller.

use crate::repository::{Area, LocationType, Route, Stop, StopAccessType, StopTime, StopTimeSlice, Timepoint};
use crate::text::{lowercase, to_lowercase};
use crate::time::{from_hms_in_range, from_hms_spec, Time};
use vstd::prelude::*;
use vstd::string::StringExecFns;

verus! {

#[derive(Debug, Clone)]
pub struct GtfsStop {
    pub stop_id: String,
    pub stop_name: String,
    pub location_type: Option<u8>,
    pub parent_station: Option<String>,
    pub platform_code: Option<String>,
}

/// The location type that a stop row gives: its `location_type` column
/// when it is set and not 0, else a platform of its parent station, else a
/// plain stop.
pub open spec fn location_type_of(t: LocationType, v: GtfsStop) -> bool {
    match v.location_type {
        Some(lt) if lt != 0 => {
            if lt == 1 {
                t is Station
            } else if lt == 2 {
                t matches LocationType::Entrance(s) && s@ == (match v.parent_station {
                    Some(p) => p@,
                    None => "0"@,
                })
            } else if lt == 3 {
                t is Node
            } else {
                t is Boarding
            }
        },
        _ => match v.parent_station {
            Some(ps) => t matches LocationType::Platform { parent_station, platform_code }
                && parent_station@ == ps@ && platform_code@ == (match v.platform_code {
                Some(pc) => pc@,
                None => "/"@,
            }),
            None => t is Stop,
        },
    }
}

impl Stop {
    /// The stop of a row, not yet placed in a repository (its index is
    /// `u32::MAX`).
    pub fn from(value: GtfsStop) -> (s: Stop)
        requires
            value.location_type matches Some(lt) ==> lt <= 4,
        ensures
            s.index == u32::MAX,
            s.id@ == value.stop_id@,
            s.name@ == value.stop_name@,
            s.normalized_name@ == lowercase(value.stop_name@),
            s.parent_index is None,
            location_type_of(s.location_type, value),
    {
        let ghost v = value;
        let location_type = match value.location_type {
            Some(lt) if lt != 0 => {
                if lt == 1 {
                    LocationType::Station
                } else if lt == 2 {
                    LocationType::Entrance(
                        match value.parent_station {
                            Some(p) => p,
                            None => String::from_str("0"),
                        },
                    )
                } else if lt == 3 {
                    LocationType::Node
                } else {
                    LocationType::Boarding
                }
            },
            _ => match value.parent_station {
                Some(ps) => LocationType::Platform {
                    parent_station: ps,
                    platform_code: match value.platform_code {
                        Some(pc) => pc,
                        None => String::from_str("/"),
                    },
                },
                None => LocationType::Stop,
            },
        };
        let normalized_name = to_lowercase(value.stop_name.as_str());
        Stop {
            index: u32::MAX,
            id: value.stop_id,
            name: value.stop_name,
            normalized_name,
            parent_index: None,
            location_type,
        }
    }
}

#[derive(Debug, Clone)]
pub struct GtfsArea {
    pub area_id: String,
    pub area_name: String,
    pub samtrafiken_area_type: String,
}

impl Area {
    /// The area of a row, not yet placed in a repository.
    pub fn from(value: GtfsArea) -> (a: Area)
        ensures
            a.index == u32::MAX,
            a.id@ == value.area_id@,
            a.name@ == value.area_name@,
            a.normalized_name@ == lowercase(value.area_name@),
    {
        let normalized_name = to_lowercase(value.area_name.as_str());
        Area { index: u32::MAX, id: value.area_id, name: value.area_name, normalized_name }
    }
}

#[derive(Debug, Clone)]
pub struct GtfsRoute {
    pub route_id: String,
    pub agency_id: String,
    pub route_short_name: Option<String>,
    pub route_long_name: Option<String>,
    pub route_type: i32,
    pub route_desc: Option<String>,
}

impl Route {
    /// The route of a row, not yet placed in a repository.
    pub fn from(value: GtfsRoute) -> (r: Route)
        ensures
            r.index == u32::MAX,
            r.id == value.route_id,
            r.agency_id == value.agency_id,
            r.short_name == value.route_short_name,
            r.long_name == value.route_long_name,
            r.route_type == value.route_type,
            r.route_desc == value.route_desc,
    {
        Route {
            index: u32::MAX,
            id: value.route_id,
            agency_id: value.agency_id,
            short_name: value.route_short_name,
            long_name: value.route_long_name,
            route_type: value.route_type,
            route_desc: value.route_desc,
        }
    }
}

#[derive(Debug, Clone)]
pub struct GtfsAgency {
    pub agency_id: String,
    pub agency_name: String,
    pub agency_url: String,
    pub agency_timezone: String,
    pub agency_lang: String,
    pub agency_fare_url: Option<String>,
}

#[derive(Debug, Clone)]
pub struct GtfsStopArea {
    pub area_id: String,
    pub stop_id: String,
}

#[derive(Debug, Clone)]
pub struct GtfsTransfer {
    pub from_stop_id: String,
    pub to_stop_id: String,
    pub transfer_type: String,
    pub min_transfer_time: Option<u32>,
    pub from_trip_id: Option<String>,
    pub to_trip_id: Option<String>,
}

#[derive(Debug, Clone)]
pub struct GtfsStopTime {
    pub trip_id: String,
    pub arrival_time: String,
    pub departure_time: String,
    pub stop_id: String,
    pub stop_sequence: u16,
    pub stop_headsign: Option<String>,
    pub pickup_type: u8,
    pub drop_off_type: u8,
    pub timepoint: Option<u8>,
    pub pickup_booking_rule_id: Option<String>,
    pub drop_off_booking_rule_id: Option<String>,
}

/// Both times of a stop time row read as `HH:MM:SS`.
pub open spec fn times_readable(v: GtfsStopTime) -> bool {
    &&& from_hms_in_range(v.arrival_time@)
    &&& from_hms_in_range(v.departure_time@)
    &&& from_hms_spec(v.arrival_time@) is Some
    &&& from_hms_spec(v.departure_time@) is Some
}

impl StopTime {
    /// The stop time of a row, not yet placed in a repository: its indices
    /// are `u32::MAX`, its times are read from the row, and it is picked up
    /// and dropped off regularly at exact times.
    pub fn from(value: &GtfsStopTime) -> (st: StopTime)
        requires
            times_readable(*value),
        ensures
            st.index == u32::MAX,
            st.trip_idx == u32::MAX,
            st.stop_idx == u32::MAX,
            st.internal_idx == u32::MAX,
            st.slice == (StopTimeSlice { start_idx: 0, count: 0 }),
            st.sequence == value.stop_sequence,
            Some(st.arrival_time.0) == from_hms_spec(value.arrival_time@),
            Some(st.departure_time.0) == from_hms_spec(value.departure_time@),
            st.headsign == value.stop_headsign,
            st.pickup_type == StopAccessType::Regularly,
            st.drop_off_type == StopAccessType::Regularly,
            st.timepoint == Timepoint::Exact,
    {
        let arrival_time = match Time::from_hms(value.arrival_time.as_str()) {
            Some(t) => t,
            None => Time(0),
        };
        let departure_time = match Time::from_hms(value.departure_time.as_str()) {
            Some(t) => t,
            None => Time(0),
        };
        let headsign = match &value.stop_headsign {
            Some(h) => Some(h.clone()),
            None => None,
        };
        StopTime {
            index: u32::MAX,
            trip_idx: u32::MAX,
            stop_idx: u32::MAX,
            sequence: value.stop_sequence,
            slice: StopTimeSlice { start_idx: 0, count: 0 },
            internal_idx: u32::MAX,
            arrival_time,
            departure_time,
            headsign,
            pickup_type: StopAccessType::Regularly,
            drop_off_type: StopAccessType::Regularly,
            timepoint: Timepoint::Exact,
        }
    }
}

#[derive(Debug, Clone)]
pub struct GtfsTrip {
    pub route_id: String,
    pub service_id: String,
    pub trip_id: String,
    pub trip_headsign: Option<String>,
    pub trip_short_name: Option<String>,
    pub direction_id: Option<u8>,
    pub shape_id: Option<String>,
}

/// A row of `shapes.txt`: one point of a shape, placed by its sequence
/// number. The point's coordinate and distance traveled, both floating
/// point, are kept beside the feed by the caller, indexed like the rows.
#[derive(Debug, Clone)]
pub struct GtfsShape {
    pub shape_id: String,
    pub shape_pt_sequence: u32,
}

} // verus!
