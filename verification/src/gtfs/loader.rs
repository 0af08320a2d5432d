//! A loader that keeps the tables of a feed as they were read.

use crate::gtfs::models::{GtfsAgency, GtfsArea, GtfsRoute, GtfsStop, GtfsStopArea, GtfsTransfer};
use vstd::prelude::*;
use vstd::string::StringExecFns;

verus! {

/// The file name of each table that the loader reads from an archive.
#[derive(Debug, Clone)]
pub struct Config {
    pub stops_file_name: String,
    pub areas_file_name: String,
    pub routes_file_name: String,
    pub agency_file_name: String,
    pub stop_areas_file_name: String,
    pub transfers_file_name: String,
}

impl Default for Config {
    fn default() -> (c: Config)
        ensures
            c.stops_file_name@ == "stops.txt"@,
            c.areas_file_name@ == "areas.txt"@,
            c.routes_file_name@ == "routes.txt"@,
            c.agency_file_name@ == "agency.txt"@,
            c.stop_areas_file_name@ == "stop_areas.txt"@,
            c.transfers_file_name@ == "transfers.txt"@,
    {
        Config {
            stops_file_name: String::from_str("stops.txt"),
            areas_file_name: String::from_str("areas.txt"),
            routes_file_name: String::from_str("routes.txt"),
            agency_file_name: String::from_str("agency.txt"),
            stop_areas_file_name: String::from_str("stop_areas.txt"),
            transfers_file_name: String::from_str("transfers.txt"),
        }
    }
}

/// The tables read so far, with the file names to read them from.
#[derive(Debug)]
pub struct GtfsLoader {
    pub stops: Vec<GtfsStop>,
    pub areas: Vec<GtfsArea>,
    pub routes: Vec<GtfsRoute>,
    pub agency: Vec<GtfsAgency>,
    pub stop_areas: Vec<GtfsStopArea>,
    pub transfers: Vec<GtfsTransfer>,
    pub config: Config,
}

impl GtfsLoader {
    /// A loader with no rows yet.
    pub fn new(config: Config) -> (l: GtfsLoader)
        ensures
            l.config == config,
            l.stops@.len() == 0,
            l.areas@.len() == 0,
            l.routes@.len() == 0,
            l.agency@.len() == 0,
            l.stop_areas@.len() == 0,
            l.transfers@.len() == 0,
    {
        GtfsLoader {
            stops: Vec::new(),
            areas: Vec::new(),
            routes: Vec::new(),
            agency: Vec::new(),
            stop_areas: Vec::new(),
            transfers: Vec::new(),
            config,
        }
    }

    pub fn stops(&self) -> (r: &Vec<GtfsStop>)
        ensures
            r == &self.stops,
    {
        &self.stops
    }

    pub fn areas(&self) -> (r: &Vec<GtfsArea>)
        ensures
            r == &self.areas,
    {
        &self.areas
    }

    pub fn routes(&self) -> (r: &Vec<GtfsRoute>)
        ensures
            r == &self.routes,
    {
        &self.routes
    }

    pub fn agency(&self) -> (r: &Vec<GtfsAgency>)
        ensures
            r == &self.agency,
    {
        &self.agency
    }

    pub fn stop_areas(&self) -> (r: &Vec<GtfsStopArea>)
        ensures
            r == &self.stop_areas,
    {
        &self.stop_areas
    }

    pub fn transfers(&self) -> (r: &Vec<GtfsTransfer>)
        ensures
            r == &self.transfers,
    {
        &self.transfers
    }
}

} // verus!
