//! The file names of the GTFS tables inside a feed directory.

use vstd::prelude::*;
use vstd::string::StringExecFns;

verus! {

/// Where each table is read from, relative to the feed directory.
#[derive(Debug, Clone)]
pub struct Config {
    pub stops_path: String,
    pub areas_path: String,
    pub routes_path: String,
    pub agency_path: String,
    pub stop_areas_path: String,
    pub transfers_path: String,
    pub stop_times_path: String,
    pub trips_path: String,
    pub shapes_path: String,
}

/// The standard GTFS file names.
pub open spec fn is_default_config(c: Config) -> bool {
    &&& c.stops_path@ == "stops.txt"@
    &&& c.areas_path@ == "areas.txt"@
    &&& c.routes_path@ == "routes.txt"@
    &&& c.agency_path@ == "agency.txt"@
    &&& c.stop_areas_path@ == "stop_areas.txt"@
    &&& c.transfers_path@ == "transfers.txt"@
    &&& c.stop_times_path@ == "stop_times.txt"@
    &&& c.trips_path@ == "trips.txt"@
    &&& c.shapes_path@ == "shapes.txt"@
}

impl Default for Config {
    fn default() -> (c: Config)
        ensures
            is_default_config(c),
    {
        Config {
            stops_path: String::from_str("stops.txt"),
            areas_path: String::from_str("areas.txt"),
            routes_path: String::from_str("routes.txt"),
            agency_path: String::from_str("agency.txt"),
            stop_areas_path: String::from_str("stop_areas.txt"),
            transfers_path: String::from_str("transfers.txt"),
            stop_times_path: String::from_str("stop_times.txt"),
            trips_path: String::from_str("trips.txt"),
            shapes_path: String::from_str("shapes.txt"),
        }
    }
}

} // verus!
