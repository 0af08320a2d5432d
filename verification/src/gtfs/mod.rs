//! GTFS feeds: the rows of their tables and where their files are.

pub mod config;
pub mod data;
pub mod loader;
pub mod models;

pub use config::Config;
pub use data::{GtfsData, GtfsIndex, GtfsTable};
pub use models::{
    GtfsAgency, GtfsArea, GtfsRoute, GtfsShape, GtfsStop, GtfsStopArea, GtfsStopTime, GtfsTransfer, GtfsTrip,
};

use crate::gtfs::config::is_default_config;
use vstd::prelude::*;

verus! {

/// Where a feed is read from: its configuration and its directory.
#[derive(Debug, Clone)]
pub struct GtfsReader {
    pub config: Config,
    pub dir_path: String,
}

impl GtfsReader {
    /// A reader with the standard file names and no directory yet.
    pub fn new() -> (r: GtfsReader)
        ensures
            is_default_config(r.config),
            r.dir_path@.len() == 0,
    {
        GtfsReader { config: Config::default(), dir_path: String::new() }
    }

    /// The same reader with other file names.
    pub fn with_config(self, config: Config) -> (r: GtfsReader)
        ensures
            r.config == config,
            r.dir_path == self.dir_path,
    {
        GtfsReader { config, dir_path: self.dir_path }
    }

    /// The same reader, reading the feed from the directory `path`.
    pub fn from_directory(self, path: &str) -> (r: GtfsReader)
        ensures
            r.config == self.config,
            r.dir_path@ == path@,
    {
        GtfsReader { config: self.config, dir_path: path.to_string() }
    }
}

} // verus!
