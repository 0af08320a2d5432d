//! A local public transit engine: GTFS schedule data, fuzzy name search and
//! round-based (RAPTOR) journey planning over a flattened repository.

pub mod bitmask;
pub mod fuzzy;
pub mod gtfs;
pub mod raptor;
pub mod repository;
pub mod text;
pub mod time;
