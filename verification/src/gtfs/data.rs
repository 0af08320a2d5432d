//! The tables of a GTFS feed, held in memory.

use crate::gtfs::models::{
    GtfsArea, GtfsRoute, GtfsShape, GtfsStop, GtfsStopArea, GtfsStopTime, GtfsTransfer, GtfsTrip,
};
use crate::gtfs::models::times_readable;
use crate::repository::{lemma_last_index_of_bounds, last_index_of};
use crate::repository::index::{find_last, index_keys, keys_of, IdIndex};
use crate::time::Time;
use vstd::prelude::*;

verus! {

pub open spec fn gtfs_stop_ids(rows: Seq<GtfsStop>) -> Seq<Seq<char>> {
    rows.map_values(|r: GtfsStop| r.stop_id@)
}

pub open spec fn gtfs_area_ids(rows: Seq<GtfsArea>) -> Seq<Seq<char>> {
    rows.map_values(|r: GtfsArea| r.area_id@)
}

pub open spec fn gtfs_route_ids(rows: Seq<GtfsRoute>) -> Seq<Seq<char>> {
    rows.map_values(|r: GtfsRoute| r.route_id@)
}

pub open spec fn gtfs_trip_ids(rows: Seq<GtfsTrip>) -> Seq<Seq<char>> {
    rows.map_values(|r: GtfsTrip| r.trip_id@)
}

/// Every table of a feed that the repository is built from.
#[derive(Debug, Clone)]
pub struct GtfsData {
    pub stops: Vec<GtfsStop>,
    pub areas: Vec<GtfsArea>,
    pub stop_areas: Vec<GtfsStopArea>,
    pub routes: Vec<GtfsRoute>,
    pub trips: Vec<GtfsTrip>,
    pub transfers: Vec<GtfsTransfer>,
    pub stop_times: Vec<GtfsStopTime>,
    pub shapes: Vec<GtfsShape>,
}

/// One table of a feed, as read from its file.
#[derive(Debug)]
pub enum GtfsTable {
    Stops(Vec<GtfsStop>),
    Areas(Vec<GtfsArea>),
    StopAreas(Vec<GtfsStopArea>),
    Routes(Vec<GtfsRoute>),
    Trips(Vec<GtfsTrip>),
    Transfers(Vec<GtfsTransfer>),
    StopTimes(Vec<GtfsStopTime>),
    Shapes(Vec<GtfsShape>),
    Unkown,
}

/// The rows of the last stops table among `tables` (none if there is none).
pub open spec fn stops_in(tables: Seq<GtfsTable>) -> Seq<GtfsStop>
    decreases tables.len(),
{
    if tables.len() == 0 {
        Seq::empty()
    } else {
        match tables.last() {
            GtfsTable::Stops(v) => v@,
            _ => stops_in(tables.drop_last()),
        }
    }
}

pub open spec fn areas_in(tables: Seq<GtfsTable>) -> Seq<GtfsArea>
    decreases tables.len(),
{
    if tables.len() == 0 {
        Seq::empty()
    } else {
        match tables.last() {
            GtfsTable::Areas(v) => v@,
            _ => areas_in(tables.drop_last()),
        }
    }
}

pub open spec fn stop_areas_in(tables: Seq<GtfsTable>) -> Seq<GtfsStopArea>
    decreases tables.len(),
{
    if tables.len() == 0 {
        Seq::empty()
    } else {
        match tables.last() {
            GtfsTable::StopAreas(v) => v@,
            _ => stop_areas_in(tables.drop_last()),
        }
    }
}

pub open spec fn routes_in(tables: Seq<GtfsTable>) -> Seq<GtfsRoute>
    decreases tables.len(),
{
    if tables.len() == 0 {
        Seq::empty()
    } else {
        match tables.last() {
            GtfsTable::Routes(v) => v@,
            _ => routes_in(tables.drop_last()),
        }
    }
}

pub open spec fn trips_in(tables: Seq<GtfsTable>) -> Seq<GtfsTrip>
    decreases tables.len(),
{
    if tables.len() == 0 {
        Seq::empty()
    } else {
        match tables.last() {
            GtfsTable::Trips(v) => v@,
            _ => trips_in(tables.drop_last()),
        }
    }
}

pub open spec fn transfers_in(tables: Seq<GtfsTable>) -> Seq<GtfsTransfer>
    decreases tables.len(),
{
    if tables.len() == 0 {
        Seq::empty()
    } else {
        match tables.last() {
            GtfsTable::Transfers(v) => v@,
            _ => transfers_in(tables.drop_last()),
        }
    }
}

pub open spec fn stop_times_in(tables: Seq<GtfsTable>) -> Seq<GtfsStopTime>
    decreases tables.len(),
{
    if tables.len() == 0 {
        Seq::empty()
    } else {
        match tables.last() {
            GtfsTable::StopTimes(v) => v@,
            _ => stop_times_in(tables.drop_last()),
        }
    }
}

pub open spec fn shapes_in(tables: Seq<GtfsTable>) -> Seq<GtfsShape>
    decreases tables.len(),
{
    if tables.len() == 0 {
        Seq::empty()
    } else {
        match tables.last() {
            GtfsTable::Shapes(v) => v@,
            _ => shapes_in(tables.drop_last()),
        }
    }
}

/// The rows of the tables of a feed by id.
#[derive(Debug, Clone)]
pub struct GtfsIndex {
    pub stops: IdIndex,
    pub areas: IdIndex,
    pub routes: IdIndex,
    pub trips: IdIndex,
}

impl GtfsIndex {
    /// The index holds the ids of the feed's rows.
    pub open spec fn indexes(&self, data: GtfsData) -> bool {
        &&& self.stops.indexes(keys_of(data.stops@))
        &&& self.areas.indexes(keys_of(data.areas@))
        &&& self.routes.indexes(keys_of(data.routes@))
        &&& self.trips.indexes(keys_of(data.trips@))
    }

    /// The index of a feed.
    pub fn build(data: &GtfsData) -> (r: GtfsIndex)
        requires
            data.stops@.len() < u32::MAX,
            data.areas@.len() < u32::MAX,
            data.routes@.len() < u32::MAX,
            data.trips@.len() < u32::MAX,
        ensures
            r.indexes(*data),
    {
        GtfsIndex {
            stops: index_keys(&data.stops),
            areas: index_keys(&data.areas),
            routes: index_keys(&data.routes),
            trips: index_keys(&data.trips),
        }
    }
}

impl GtfsData {
    /// The row of the stop with id `id`; where ids repeat, the last row.
    pub open spec fn stop_row(&self, id: Seq<char>) -> int {
        last_index_of(gtfs_stop_ids(self.stops@), id)
    }

    pub open spec fn area_row(&self, id: Seq<char>) -> int {
        last_index_of(gtfs_area_ids(self.areas@), id)
    }

    pub open spec fn route_row(&self, id: Seq<char>) -> int {
        last_index_of(gtfs_route_ids(self.routes@), id)
    }

    pub open spec fn trip_row(&self, id: Seq<char>) -> int {
        last_index_of(gtfs_trip_ids(self.trips@), id)
    }

    /// The feed can be loaded into a repository: every id that a row refers
    /// to names a row of its table, every trip has a stop time, every stop
    /// time's times read as `HH:MM:SS`, every location type is at most 4, and
    /// every table has fewer rows than `u32::MAX`.
    pub open spec fn loadable(&self) -> bool {
        &&& self.stops@.len() < u32::MAX
        &&& self.areas@.len() < u32::MAX
        &&& self.stop_areas@.len() < u32::MAX
        &&& self.routes@.len() < u32::MAX
        &&& self.trips@.len() < u32::MAX
        &&& self.transfers@.len() < u32::MAX
        &&& self.stop_times@.len() < u32::MAX
        &&& self.shapes@.len() < u32::MAX
        &&& forall|i: int|
            0 <= i < self.stops@.len() ==> ((#[trigger] self.stops@[i]).location_type matches Some(lt)
                ==> lt <= 4)
        &&& forall|i: int|
            0 <= i < self.stop_areas@.len() ==> self.stop_row((#[trigger] self.stop_areas@[i]).stop_id@)
                >= 0 && self.area_row(self.stop_areas@[i].area_id@) >= 0
        &&& forall|i: int| 0 <= i < self.trips@.len() ==> self.route_row((#[trigger] self.trips@[i]).route_id@) >= 0
        &&& forall|i: int|
            0 <= i < self.transfers@.len() ==> {
                let tr = #[trigger] self.transfers@[i];
                &&& self.stop_row(tr.from_stop_id@) >= 0
                &&& self.stop_row(tr.to_stop_id@) >= 0
                &&& tr.from_trip_id matches Some(id) ==> self.trip_row(id@) >= 0
                &&& tr.to_trip_id matches Some(id) ==> self.trip_row(id@) >= 0
            }
        &&& forall|i: int|
            0 <= i < self.stop_times@.len() ==> {
                let st = #[trigger] self.stop_times@[i];
                &&& self.trip_row(st.trip_id@) >= 0
                &&& self.stop_row(st.stop_id@) >= 0
                &&& times_readable(st)
            }
        &&& forall|t: int| 0 <= t < self.trips@.len() ==> #[trigger] self.has_stop_time(t)
    }

    /// Some stop time row belongs to the trip of row `t`.
    pub open spec fn has_stop_time(&self, t: int) -> bool {
        exists|i: int|
            0 <= i < self.stop_times@.len() && #[trigger] self.trip_row(self.stop_times@[i].trip_id@) == t
    }

    /// Whether the feed can be loaded into a repository.
    pub fn is_loadable(&self) -> (b: bool)
        ensures
            b == self.loadable(),
    {
        let limit: usize = 0xffff_ffff;
        if self.stops.len() >= limit || self.areas.len() >= limit || self.stop_areas.len() >= limit
            || self.routes.len() >= limit || self.trips.len() >= limit || self.transfers.len() >= limit
            || self.stop_times.len() >= limit || self.shapes.len() >= limit {
            return false;
        }
        let index = GtfsIndex::build(self);
        let mut i: usize = 0;
        while i < self.stops.len()
            invariant
                i <= self.stops@.len(),
                forall|j: int|
                    0 <= j < i ==> ((#[trigger] self.stops@[j]).location_type matches Some(lt) ==> lt <= 4),
            decreases self.stops@.len() - i,
        {
            if let Some(lt) = self.stops[i].location_type {
                if lt > 4 {
                    return false;
                }
            }
            i = i + 1;
        }
        i = 0;
        while i < self.stop_areas.len()
            invariant
                self.stops@.len() < u32::MAX,
                self.areas@.len() < u32::MAX,
                index.indexes(*self),
                i <= self.stop_areas@.len(),
                forall|j: int|
                    0 <= j < i ==> self.stop_row((#[trigger] self.stop_areas@[j]).stop_id@) >= 0
                        && self.area_row(self.stop_areas@[j].area_id@) >= 0,
            decreases self.stop_areas@.len() - i,
        {
            let row = &self.stop_areas[i];
            if self.stop_position(&index, row.stop_id.as_str()).is_none()
                || self.area_position(&index, row.area_id.as_str()).is_none() {
                return false;
            }
            i = i + 1;
        }
        i = 0;
        while i < self.trips.len()
            invariant
                self.routes@.len() < u32::MAX,
                index.indexes(*self),
                i <= self.trips@.len(),
                forall|j: int| 0 <= j < i ==> self.route_row((#[trigger] self.trips@[j]).route_id@) >= 0,
            decreases self.trips@.len() - i,
        {
            if self.route_position(&index, self.trips[i].route_id.as_str()).is_none() {
                return false;
            }
            i = i + 1;
        }
        i = 0;
        while i < self.transfers.len()
            invariant
                self.stops@.len() < u32::MAX,
                self.trips@.len() < u32::MAX,
                index.indexes(*self),
                i <= self.transfers@.len(),
                forall|j: int|
                    0 <= j < i ==> {
                        let tr = #[trigger] self.transfers@[j];
                        &&& self.stop_row(tr.from_stop_id@) >= 0
                        &&& self.stop_row(tr.to_stop_id@) >= 0
                        &&& tr.from_trip_id matches Some(id) ==> self.trip_row(id@) >= 0
                        &&& tr.to_trip_id matches Some(id) ==> self.trip_row(id@) >= 0
                    },
            decreases self.transfers@.len() - i,
        {
            let tr = &self.transfers[i];
            if self.stop_position(&index, tr.from_stop_id.as_str()).is_none()
                || self.stop_position(&index, tr.to_stop_id.as_str()).is_none() {
                return false;
            }
            if let Some(id) = &tr.from_trip_id {
                if self.trip_position(&index, id.as_str()).is_none() {
                    return false;
                }
            }
            if let Some(id) = &tr.to_trip_id {
                if self.trip_position(&index, id.as_str()).is_none() {
                    return false;
                }
            }
            i = i + 1;
        }
        let mut seen: Vec<bool> = Vec::new();
        let mut t: usize = 0;
        while t < self.trips.len()
            invariant
                t <= self.trips@.len(),
                seen@.len() == t,
                forall|u: int| 0 <= u < t ==> !(#[trigger] seen@[u]),
            decreases self.trips@.len() - t,
        {
            seen.push(false);
            t = t + 1;
        }
        i = 0;
        while i < self.stop_times.len()
            invariant
                self.stops@.len() < u32::MAX,
                self.trips@.len() < u32::MAX,
                index.indexes(*self),
                seen@.len() == self.trips@.len(),
                i <= self.stop_times@.len(),
                forall|j: int|
                    0 <= j < i ==> {
                        let st = #[trigger] self.stop_times@[j];
                        &&& self.trip_row(st.trip_id@) >= 0
                        &&& self.stop_row(st.stop_id@) >= 0
                        &&& times_readable(st)
                    },
                forall|u: int| 0 <= u < seen@.len() ==> (#[trigger] seen@[u] <==> exists|j: int|
                    0 <= j < i && #[trigger] self.trip_row(self.stop_times@[j].trip_id@) == u),
            decreases self.stop_times@.len() - i,
        {
            let st = &self.stop_times[i];
            let trip = match self.trip_position(&index, st.trip_id.as_str()) {
                Some(t) => t,
                None => return false,
            };
            if self.stop_position(&index, st.stop_id.as_str()).is_none() {
                return false;
            }
            if !Time::hms_in_range(st.arrival_time.as_str()) || !Time::hms_in_range(
                st.departure_time.as_str(),
            ) {
                return false;
            }
            if Time::from_hms(st.arrival_time.as_str()).is_none() || Time::from_hms(
                st.departure_time.as_str(),
            ).is_none() {
                return false;
            }
            let ghost before = seen@;
            seen.set(trip as usize, true);
            proof {
                assert forall|u: int| 0 <= u < seen@.len() implies (#[trigger] seen@[u] <==> exists|j: int|
                    0 <= j < i + 1 && #[trigger] self.trip_row(self.stop_times@[j].trip_id@) == u) by {
                    if u == trip {
                        assert(self.trip_row(self.stop_times@[i as int].trip_id@) == u);
                    } else {
                        assert(seen@[u] == before[u]);
                        if exists|j: int| 0 <= j < i + 1 && #[trigger] self.trip_row(self.stop_times@[j].trip_id@) == u {
                            let j = choose|j: int| 0 <= j < i + 1 && #[trigger] self.trip_row(self.stop_times@[j].trip_id@) == u;
                            assert(j < i);
                        }
                    }
                }
            }
            i = i + 1;
        }
        t = 0;
        while t < seen.len()
            invariant
                seen@.len() == self.trips@.len(),
                t <= seen@.len(),
                forall|u: int| 0 <= u < seen@.len() ==> (#[trigger] seen@[u] <==> self.has_stop_time(u)),
                forall|u: int| 0 <= u < t ==> #[trigger] self.has_stop_time(u),
            decreases seen@.len() - t,
        {
            if !seen[t] {
                return false;
            }
            t = t + 1;
        }
        true
    }

    /// The row of the stop with id `id`.
    pub fn stop_position(&self, index: &GtfsIndex, id: &str) -> (r: Option<u32>)
        requires
            self.stops@.len() <= u32::MAX,
            index.indexes(*self),
        ensures
            r is None <==> self.stop_row(id@) < 0,
            r matches Some(i) ==> i as int == self.stop_row(id@) && i < self.stops@.len()
                && self.stops@[i as int].stop_id@ == id@,
    {
        proof {
            assert(keys_of(self.stops@) =~= gtfs_stop_ids(self.stops@));
            lemma_last_index_of_bounds(gtfs_stop_ids(self.stops@), id@);
        }
        find_last(&self.stops, &index.stops, id)
    }

    /// The row of the area with id `id`.
    pub fn area_position(&self, index: &GtfsIndex, id: &str) -> (r: Option<u32>)
        requires
            self.areas@.len() <= u32::MAX,
            index.indexes(*self),
        ensures
            r is None <==> self.area_row(id@) < 0,
            r matches Some(i) ==> i as int == self.area_row(id@) && i < self.areas@.len()
                && self.areas@[i as int].area_id@ == id@,
    {
        proof {
            assert(keys_of(self.areas@) =~= gtfs_area_ids(self.areas@));
            lemma_last_index_of_bounds(gtfs_area_ids(self.areas@), id@);
        }
        find_last(&self.areas, &index.areas, id)
    }

    /// The row of the route with id `id`.
    pub fn route_position(&self, index: &GtfsIndex, id: &str) -> (r: Option<u32>)
        requires
            self.routes@.len() <= u32::MAX,
            index.indexes(*self),
        ensures
            r is None <==> self.route_row(id@) < 0,
            r matches Some(i) ==> i as int == self.route_row(id@) && i < self.routes@.len()
                && self.routes@[i as int].route_id@ == id@,
    {
        proof {
            assert(keys_of(self.routes@) =~= gtfs_route_ids(self.routes@));
            lemma_last_index_of_bounds(gtfs_route_ids(self.routes@), id@);
        }
        find_last(&self.routes, &index.routes, id)
    }

    /// The row of the trip with id `id`.
    pub fn trip_position(&self, index: &GtfsIndex, id: &str) -> (r: Option<u32>)
        requires
            self.trips@.len() <= u32::MAX,
            index.indexes(*self),
        ensures
            r is None <==> self.trip_row(id@) < 0,
            r matches Some(i) ==> i as int == self.trip_row(id@) && i < self.trips@.len()
                && self.trips@[i as int].trip_id@ == id@,
    {
        proof {
            assert(keys_of(self.trips@) =~= gtfs_trip_ids(self.trips@));
            lemma_last_index_of_bounds(gtfs_trip_ids(self.trips@), id@);
        }
        find_last(&self.trips, &index.trips, id)
    }

    /// A feed with no rows.
    pub fn new() -> (d: GtfsData)
        ensures
            d.stops@.len() == 0,
            d.areas@.len() == 0,
            d.stop_areas@.len() == 0,
            d.routes@.len() == 0,
            d.trips@.len() == 0,
            d.transfers@.len() == 0,
            d.stop_times@.len() == 0,
            d.shapes@.len() == 0,
    {
        GtfsData {
            stops: Vec::new(),
            areas: Vec::new(),
            stop_areas: Vec::new(),
            routes: Vec::new(),
            trips: Vec::new(),
            transfers: Vec::new(),
            stop_times: Vec::new(),
            shapes: Vec::new(),
        }
    }

    /// The feed that the tables make up; where a table comes twice, the
    /// later one counts, and a table missing is empty.
    pub fn from(tables: Vec<GtfsTable>) -> (d: GtfsData)
        ensures
            d.stops@ == stops_in(tables@),
            d.areas@ == areas_in(tables@),
            d.stop_areas@ == stop_areas_in(tables@),
            d.routes@ == routes_in(tables@),
            d.trips@ == trips_in(tables@),
            d.transfers@ == transfers_in(tables@),
            d.stop_times@ == stop_times_in(tables@),
            d.shapes@ == shapes_in(tables@),
    {
        let ghost all = tables@;
        let count = tables.len();
        assert(all.len() == count);
        let mut rest = tables;
        let mut data = GtfsData::new();
        let mut k: usize = 0;
        assert(all.subrange(0, 0) =~= Seq::<GtfsTable>::empty());
        assert(all.subrange(0, all.len() as int) =~= all);
        while rest.len() > 0
            invariant
                k <= all.len() <= usize::MAX,
                rest@.len() + k == all.len(),
                rest@ == all.subrange(k as int, all.len() as int),
                data.stops@ == stops_in(all.subrange(0, k as int)),
                data.areas@ == areas_in(all.subrange(0, k as int)),
                data.stop_areas@ == stop_areas_in(all.subrange(0, k as int)),
                data.routes@ == routes_in(all.subrange(0, k as int)),
                data.trips@ == trips_in(all.subrange(0, k as int)),
                data.transfers@ == transfers_in(all.subrange(0, k as int)),
                data.stop_times@ == stop_times_in(all.subrange(0, k as int)),
                data.shapes@ == shapes_in(all.subrange(0, k as int)),
            decreases rest@.len(),
        {
            let table = rest.remove(0);
            proof {
                assert(all.subrange(0, k + 1).drop_last() =~= all.subrange(0, k as int));
                assert(all.subrange(0, k + 1).last() == table);
            }
            match table {
                GtfsTable::Stops(v) => data.stops = v,
                GtfsTable::Areas(v) => data.areas = v,
                GtfsTable::StopAreas(v) => data.stop_areas = v,
                GtfsTable::Routes(v) => data.routes = v,
                GtfsTable::Trips(v) => data.trips = v,
                GtfsTable::Transfers(v) => data.transfers = v,
                GtfsTable::StopTimes(v) => data.stop_times = v,
                GtfsTable::Shapes(v) => data.shapes = v,
                GtfsTable::Unkown => {},
            }
            k = k + 1;
            assert(rest@ =~= all.subrange(k as int, all.len() as int));
        }
        data
    }
}

} // verus!
