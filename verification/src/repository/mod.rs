//! The in-memory transit repository: flat arrays of entities and the index
//! maps between them, laid out for the RAPTOR router.


pub mod index;
pub mod loader;
mod models;

pub use models::{
    Area, LocationType, RaptorRoute, Route, Stop, StopAccessType, StopTime, StopTimeSlice,
    Timepoint, Transfer, Trip, Walk,
};

use crate::repository::index::{find_last, keys_of, IdIndex};
use crate::time::Duration;
use vstd::prelude::*;

verus! {

/// The position of the last entry of `ids` equal to `id`, or -1: an id that
/// occurs twice names its later entity, as a map filled in order would.
pub open spec fn last_index_of(ids: Seq<Seq<char>>, id: Seq<char>) -> int
    decreases ids.len(),
{
    if ids.len() == 0 {
        -1
    } else if ids.last() == id {
        ids.len() - 1
    } else {
        last_index_of(ids.drop_last(), id)
    }
}

pub proof fn lemma_last_index_of_bounds(ids: Seq<Seq<char>>, id: Seq<char>)
    ensures
        -1 <= last_index_of(ids, id) < ids.len(),
        last_index_of(ids, id) >= 0 ==> ids[last_index_of(ids, id)] == id,
        last_index_of(ids, id) == -1 ==> !ids.contains(id),
    decreases ids.len(),
{
    if ids.len() > 0 {
        lemma_last_index_of_bounds(ids.drop_last(), id);
        if ids.last() != id && last_index_of(ids, id) == -1 && ids.contains(id) {
            let k = choose|k: int| 0 <= k < ids.len() && ids[k] == id;
            assert(k < ids.len() - 1);
            assert(ids.drop_last()[k] == id);
        }
    }
}

pub open spec fn area_ids(areas: Seq<Area>) -> Seq<Seq<char>> {
    areas.map_values(|a: Area| a.id@)
}

pub open spec fn stop_ids(stops: Seq<Stop>) -> Seq<Seq<char>> {
    stops.map_values(|s: Stop| s.id@)
}

pub open spec fn trip_ids(trips: Seq<Trip>) -> Seq<Seq<char>> {
    trips.map_values(|t: Trip| t.id@)
}

pub open spec fn route_ids(routes: Seq<Route>) -> Seq<Seq<char>> {
    routes.map_values(|r: Route| r.id@)
}

/// Every index in every list is below `bound`.
pub open spec fn lists_below(lists: Seq<Vec<u32>>, bound: nat) -> bool {
    forall|i: int, k: int|
        0 <= i < lists.len() && 0 <= k < lists[i]@.len() ==> #[trigger] lists[i]@[k] < bound
}

/// The read-only repository that the router works on.
#[derive(Debug, Default, Clone)]
pub struct Repository {
    pub stops: Vec<Stop>,
    pub areas: Vec<Area>,
    pub routes: Vec<Route>,
    pub raptor_routes: Vec<RaptorRoute>,
    pub trips: Vec<Trip>,
    pub stop_times: Vec<StopTime>,
    pub transfers: Vec<Transfer>,
    /// The trips of each route.
    pub route_to_trips: Vec<Vec<u32>>,
    /// The route of each trip.
    pub trip_to_route: Vec<u32>,
    /// The stops of each area.
    pub area_to_stops: Vec<Vec<u32>>,
    /// The area of each stop, where it has one.
    pub stop_to_area: Vec<Option<u32>>,
    /// The stops whose parent station is each stop.
    pub station_to_stops: Vec<Vec<u32>>,
    /// The transfers that start at each stop.
    pub stop_to_transfers: Vec<Vec<u32>>,
    /// The trips that call at each stop (once per call).
    pub stop_to_trips: Vec<Vec<u32>>,
    /// The stop times of each trip.
    pub trip_to_stop_slice: Vec<StopTimeSlice>,
    /// The RAPTOR routes of each route.
    pub route_to_raptors: Vec<Vec<u32>>,
    /// The RAPTOR routes that serve each stop.
    pub stop_to_raptors: Vec<Vec<u32>>,
    /// The stops within walking reach of each stop.
    pub stop_to_walk_stop: Vec<Vec<Walk>>,
    /// The stops within walking reach of the middle of each area.
    pub area_to_near_stops: Vec<Vec<u32>>,
    /// The stops by id.
    pub stop_lookup: IdIndex,
    /// The areas by id.
    pub area_lookup: IdIndex,
    /// The trips by id.
    pub trip_lookup: IdIndex,
    /// The routes by id.
    pub route_lookup: IdIndex,
    /// The shape point rows of the feed, each shape's rows together and in
    /// sequence order; a row's coordinate is kept by the caller, indexed
    /// like the rows, as the stops' are.
    pub shape_points: Vec<u32>,
    /// For each shape, numbered by the last row with its id, the (start,
    /// count) of its rows in `shape_points`.
    pub shape_slices: Vec<(u32, u32)>,
    /// The shape point rows by shape id.
    pub shape_lookup: IdIndex,
    /// The shape of each trip, where it has one.
    pub trip_to_shape: Vec<Option<u32>>,
}

impl Repository {
    /// Every index stored in the repository points into the array it names,
    /// and every trip of a RAPTOR route has one stop time per stop of the
    /// route, calling at those stops in order.
    pub open spec fn wf(&self) -> bool {
        let ns = self.stops@.len();
        let na = self.areas@.len();
        let nt = self.trips@.len();
        let nr = self.routes@.len();
        let nq = self.raptor_routes@.len();
        let nst = self.stop_times@.len();
        let ntr = self.transfers@.len();
        &&& ns <= u32::MAX && na <= u32::MAX && nt <= u32::MAX && nr <= u32::MAX
        &&& nq <= u32::MAX && nst <= u32::MAX && ntr <= u32::MAX
        &&& forall|s: int| 0 <= s < ns ==> (#[trigger] self.stops@[s]).index == s
        &&& forall|s: int|
            0 <= s < ns ==> ((#[trigger] self.stops@[s]).parent_index matches Some(p) ==> p < ns)
        &&& forall|a: int| 0 <= a < na ==> (#[trigger] self.areas@[a]).index == a
        &&& forall|t: int| 0 <= t < nt ==> (#[trigger] self.trips@[t]).index == t
        &&& forall|r: int| 0 <= r < nr ==> (#[trigger] self.routes@[r]).index == r
        &&& self.route_to_trips@.len() == nr && lists_below(self.route_to_trips@, nt)
        &&& self.trip_to_route@.len() == nt
        &&& forall|t: int| 0 <= t < nt ==> #[trigger] self.trip_to_route@[t] < nr
        &&& self.area_to_stops@.len() == na && lists_below(self.area_to_stops@, ns)
        &&& self.stop_to_area@.len() == ns
        &&& forall|s: int|
            0 <= s < ns ==> (#[trigger] self.stop_to_area@[s] matches Some(a) ==> a < na)
        &&& self.station_to_stops@.len() == ns && lists_below(self.station_to_stops@, ns)
        &&& self.stop_to_transfers@.len() == ns && lists_below(self.stop_to_transfers@, ntr)
        &&& self.stop_to_trips@.len() == ns && lists_below(self.stop_to_trips@, nt)
        &&& self.route_to_raptors@.len() == nr && lists_below(self.route_to_raptors@, nq)
        &&& self.stop_to_raptors@.len() == ns && lists_below(self.stop_to_raptors@, nq)
        &&& self.area_to_near_stops@.len() == na && lists_below(self.area_to_near_stops@, ns)
        &&& self.stop_to_walk_stop@.len() == ns
        &&& forall|s: int, k: int|
            0 <= s < ns && 0 <= k < self.stop_to_walk_stop@[s]@.len()
                ==> #[trigger] self.stop_to_walk_stop@[s]@[k].to_stop_idx < ns
        &&& forall|i: int|
            0 <= i < ntr ==> (#[trigger] self.transfers@[i]).from_stop_idx < ns
                && self.transfers@[i].to_stop_idx < ns
        &&& forall|i: int|
            0 <= i < nst ==> (#[trigger] self.stop_times@[i]).stop_idx < ns
                && self.stop_times@[i].trip_idx < nt
        &&& self.trip_to_stop_slice@.len() == nt
        &&& forall|t: int|
            0 <= t < nt ==> (#[trigger] self.trip_to_stop_slice@[t]).start_idx
                + self.trip_to_stop_slice@[t].count <= nst
        &&& forall|q: int| 0 <= q < nq ==> #[trigger] self.raptor_route_wf(q)
        &&& self.stop_lookup.indexes(keys_of(self.stops@))
        &&& self.area_lookup.indexes(keys_of(self.areas@))
        &&& self.trip_lookup.indexes(keys_of(self.trips@))
        &&& self.route_lookup.indexes(keys_of(self.routes@))
    }

    /// Each station lists exactly its platforms: every stop with a parent
    /// station is listed for that station, and every stop listed for a
    /// station has that station as its parent.
    pub open spec fn stations_listed(&self) -> bool {
        &&& forall|s: int|
            0 <= s < self.stops@.len() ==> (#[trigger] self.stops@[s].parent_index matches Some(p) ==> p
                < self.station_to_stops@.len() && self.station_to_stops@[p as int]@.contains(s as u32))
        &&& forall|p: int, k: int|
            0 <= p < self.station_to_stops@.len() && 0 <= k < self.station_to_stops@[p]@.len() ==> {
                let s = #[trigger] self.station_to_stops@[p]@[k];
                &&& s < self.stops@.len()
                &&& self.stops@[s as int].parent_index == Some(p as u32)
            }
    }

    /// RAPTOR route `q` serves valid stops with valid trips, each of which
    /// calls at exactly the route's stops.
    pub open spec fn raptor_route_wf(&self, q: int) -> bool {
        let route = self.raptor_routes@[q];
        &&& route.index == q
        &&& route.route_idx < self.routes@.len()
        &&& route.stops@.len() <= u32::MAX
        &&& forall|k: int| 0 <= k < route.stops@.len() ==> #[trigger] route.stops@[k] < self.stops@.len()
        &&& forall|k: int|
            0 <= k < route.trips@.len() ==> #[trigger] self.trip_serves(route.trips@[k] as int, route.stops@)
    }

    /// Trip `t` exists and its stop times call at `stops`, in order.
    pub open spec fn trip_serves(&self, t: int, stops: Seq<u32>) -> bool {
        &&& 0 <= t < self.trips@.len()
        &&& self.trip_to_stop_slice@[t].count == stops.len()
        &&& forall|k: int|
            0 <= k < stops.len() ==> {
                let st = #[trigger] self.stop_times@[self.trip_to_stop_slice@[t].start_idx + k];
                st.stop_idx == stops[k] && st.trip_idx == t
            }
    }

    /// The stop time of trip `t` at position `k` of its stops.
    pub open spec fn stop_time_at(&self, t: int, k: int) -> StopTime {
        self.stop_times@[self.trip_to_stop_slice@[t].start_idx + k]
    }

    pub open spec fn area_index(&self, id: Seq<char>) -> int {
        last_index_of(area_ids(self.areas@), id)
    }

    pub open spec fn stop_index(&self, id: Seq<char>) -> int {
        last_index_of(stop_ids(self.stops@), id)
    }

    pub open spec fn trip_index(&self, id: Seq<char>) -> int {
        last_index_of(trip_ids(self.trips@), id)
    }

    pub open spec fn route_index(&self, id: Seq<char>) -> int {
        last_index_of(route_ids(self.routes@), id)
    }

    pub fn new() -> (repo: Repository)
        ensures
            repo.wf(),
            repo.stops@.len() == 0,
            repo.areas@.len() == 0,
            repo.trips@.len() == 0,
            repo.routes@.len() == 0,
            repo.raptor_routes@.len() == 0,
            repo.stop_times@.len() == 0,
            repo.transfers@.len() == 0,
            repo.route_to_trips@.len() == 0,
            repo.trip_to_route@.len() == 0,
            repo.area_to_stops@.len() == 0,
            repo.stop_to_area@.len() == 0,
            repo.station_to_stops@.len() == 0,
            repo.stop_to_transfers@.len() == 0,
            repo.stop_to_trips@.len() == 0,
            repo.trip_to_stop_slice@.len() == 0,
            repo.route_to_raptors@.len() == 0,
            repo.stop_to_raptors@.len() == 0,
            repo.stop_to_walk_stop@.len() == 0,
            repo.area_to_near_stops@.len() == 0,
            repo.stop_lookup.len() == 0,
            repo.area_lookup.len() == 0,
            repo.trip_lookup.len() == 0,
            repo.route_lookup.len() == 0,
            repo.shape_points@.len() == 0,
            repo.shape_slices@.len() == 0,
            repo.shape_lookup.len() == 0,
            repo.trip_to_shape@.len() == 0,
    {
        let repo = Repository {
            stops: Vec::new(),
            areas: Vec::new(),
            routes: Vec::new(),
            raptor_routes: Vec::new(),
            trips: Vec::new(),
            stop_times: Vec::new(),
            transfers: Vec::new(),
            route_to_trips: Vec::new(),
            trip_to_route: Vec::new(),
            area_to_stops: Vec::new(),
            stop_to_area: Vec::new(),
            station_to_stops: Vec::new(),
            stop_to_transfers: Vec::new(),
            stop_to_trips: Vec::new(),
            trip_to_stop_slice: Vec::new(),
            route_to_raptors: Vec::new(),
            stop_to_raptors: Vec::new(),
            stop_to_walk_stop: Vec::new(),
            area_to_near_stops: Vec::new(),
            stop_lookup: IdIndex::new(),
            area_lookup: IdIndex::new(),
            trip_lookup: IdIndex::new(),
            route_lookup: IdIndex::new(),
            shape_points: Vec::new(),
            shape_slices: Vec::new(),
            shape_lookup: IdIndex::new(),
            trip_to_shape: Vec::new(),
        };
        assert(keys_of(repo.stops@) =~= Seq::<Seq<char>>::empty());
        assert(keys_of(repo.areas@) =~= Seq::<Seq<char>>::empty());
        assert(keys_of(repo.trips@) =~= Seq::<Seq<char>>::empty());
        assert(keys_of(repo.routes@) =~= Seq::<Seq<char>>::empty());
        repo
    }

    /// The shape point rows of the shape that trip `t` follows: its slice of
    /// `shape_points`; none where the trip has no shape.
    pub open spec fn trip_shape_points(&self, t: int) -> Option<Seq<u32>> {
        if 0 <= t < self.trip_to_shape@.len() {
            match self.trip_to_shape@[t] {
                Some(c) => if c < self.shape_slices@.len() && self.shape_slices@[c as int].0
                    + self.shape_slices@[c as int].1 <= self.shape_points@.len() {
                    let sl = self.shape_slices@[c as int];
                    Some(self.shape_points@.subrange(sl.0 as int, sl.0 + sl.1))
                } else {
                    None
                },
                None => None,
            }
        } else {
            None
        }
    }

    /// The shape point rows of the shape that trip `trip_idx` follows, in
    /// sequence order; none where the trip has no shape.
    pub fn shapes_by_trip_idx(&self, trip_idx: u32) -> (r: Option<&[u32]>)
        ensures
            match r {
                Some(p) => self.trip_shape_points(trip_idx as int) == Some(p@),
                None => self.trip_shape_points(trip_idx as int) is None,
            },
    {
        if trip_idx as usize >= self.trip_to_shape.len() {
            return None;
        }
        match self.trip_to_shape[trip_idx as usize] {
            Some(c) => {
                if c as usize >= self.shape_slices.len() {
                    return None;
                }
                let (start, count) = self.shape_slices[c as usize];
                if start as usize > self.shape_points.len() || count as usize > self.shape_points.len() - start as usize {
                    return None;
                }
                Some(vstd::slice::slice_subrange(self.shape_points.as_slice(), start as usize, start as usize + count as usize))
            },
            None => None,
        }
    }

    /// The index of the area with the given id.
    pub fn area_idx_by_id(&self, id: &str) -> (r: Option<u32>)
        requires
            self.wf(),
        ensures
            r == (if self.area_index(id@) >= 0 {
                Some(self.area_index(id@) as u32)
            } else {
                None
            }),
            r is None <==> self.area_index(id@) < 0,
            r matches Some(i) ==> i as int == self.area_index(id@) && i < self.areas@.len()
                && self.areas@[i as int].id@ == id@,
    {
        proof {
            assert(keys_of(self.areas@) =~= area_ids(self.areas@));
            lemma_last_index_of_bounds(area_ids(self.areas@), id@);
        }
        find_last(&self.areas, &self.area_lookup, id)
    }

    /// The index of the stop with the given id.
    pub fn stop_idx_by_id(&self, id: &str) -> (r: Option<u32>)
        requires
            self.wf(),
        ensures
            r == (if self.stop_index(id@) >= 0 {
                Some(self.stop_index(id@) as u32)
            } else {
                None
            }),
            r is None <==> self.stop_index(id@) < 0,
            r matches Some(i) ==> i as int == self.stop_index(id@) && i < self.stops@.len()
                && self.stops@[i as int].id@ == id@,
    {
        proof {
            assert(keys_of(self.stops@) =~= stop_ids(self.stops@));
            lemma_last_index_of_bounds(stop_ids(self.stops@), id@);
        }
        find_last(&self.stops, &self.stop_lookup, id)
    }

    /// The index of the trip with the given id.
    pub fn trip_idx_by_id(&self, id: &str) -> (r: Option<u32>)
        requires
            self.wf(),
        ensures
            r == (if self.trip_index(id@) >= 0 {
                Some(self.trip_index(id@) as u32)
            } else {
                None
            }),
            r is None <==> self.trip_index(id@) < 0,
            r matches Some(i) ==> i as int == self.trip_index(id@) && i < self.trips@.len()
                && self.trips@[i as int].id@ == id@,
    {
        proof {
            assert(keys_of(self.trips@) =~= trip_ids(self.trips@));
            lemma_last_index_of_bounds(trip_ids(self.trips@), id@);
        }
        find_last(&self.trips, &self.trip_lookup, id)
    }

    /// The index of the route with the given id.
    pub fn route_idx_by_id(&self, id: &str) -> (r: Option<u32>)
        requires
            self.wf(),
        ensures
            r == (if self.route_index(id@) >= 0 {
                Some(self.route_index(id@) as u32)
            } else {
                None
            }),
            r is None <==> self.route_index(id@) < 0,
            r matches Some(i) ==> i as int == self.route_index(id@) && i < self.routes@.len()
                && self.routes@[i as int].id@ == id@,
    {
        proof {
            assert(keys_of(self.routes@) =~= route_ids(self.routes@));
            lemma_last_index_of_bounds(route_ids(self.routes@), id@);
        }
        find_last(&self.routes, &self.route_lookup, id)
    }

    /// Whether any trip calls at stop `s`.
    pub open spec fn has_trips(&self, s: int) -> bool {
        self.stop_to_trips@[s]@.len() > 0
    }

    /// The stops of `list` that exist and are served by a trip, in order.
    pub open spec fn keep_with_trips(&self, list: Seq<u32>) -> Seq<u32>
        decreases list.len(),
    {
        if list.len() == 0 {
            Seq::<u32>::empty()
        } else {
            let init = self.keep_with_trips(list.drop_last());
            let s = list.last();
            if s < self.stops@.len() && self.has_trips(s as int) {
                init.push(s)
            } else {
                init
            }
        }
    }

    pub fn stop_idx_has_trips(&self, stop_idx: u32) -> (b: bool)
        requires
            self.wf(),
            stop_idx < self.stops@.len(),
        ensures
            b == self.has_trips(stop_idx as int),
    {
        self.stop_to_trips[stop_idx as usize].len() > 0
    }

    /// The stops of `list` that exist and are served by a trip.
    pub fn filter_with_trips(&self, list: &Vec<u32>) -> (r: Vec<&Stop>)
        requires
            self.wf(),
        ensures
            r@.len() == self.keep_with_trips(list@).len(),
            forall|k: int|
                0 <= k < r@.len() ==> *#[trigger] r@[k] == self.stops@[self.keep_with_trips(
                    list@,
                )[k] as int],
    {
        let mut out: Vec<&Stop> = Vec::new();
        let mut i: usize = 0;
        while i < list.len()
            invariant
                self.wf(),
                i <= list@.len(),
                out@.len() == self.keep_with_trips(list@.subrange(0, i as int)).len(),
                forall|k: int|
                    0 <= k < out@.len() ==> *#[trigger] out@[k] == self.stops@[self.keep_with_trips(
                        list@.subrange(0, i as int),
                    )[k] as int],
            decreases list@.len() - i,
        {
            let s = list[i];
            assert(list@.subrange(0, i + 1).drop_last() =~= list@.subrange(0, i as int));
            if s < self.stops.len() as u32 && self.stop_idx_has_trips(s) {
                out.push(&self.stops[s as usize]);
            }
            i = i + 1;
        }
        assert(list@.subrange(0, list@.len() as int) =~= list@);
        out
    }

    /// The stops listed by index in `list`.
    pub fn stops_of(&self, list: &Vec<u32>) -> (r: Vec<&Stop>)
        requires
            self.wf(),
            forall|k: int| 0 <= k < list@.len() ==> #[trigger] list@[k] < self.stops@.len(),
        ensures
            r@.len() == list@.len(),
            forall|k: int| 0 <= k < r@.len() ==> *#[trigger] r@[k] == self.stops@[list@[k] as int],
    {
        let mut out: Vec<&Stop> = Vec::new();
        let mut i: usize = 0;
        while i < list.len()
            invariant
                i <= list@.len(),
                out@.len() == i,
                forall|k: int| 0 <= k < list@.len() ==> #[trigger] list@[k] < self.stops@.len(),
                forall|k: int| 0 <= k < i ==> *#[trigger] out@[k] == self.stops@[list@[k] as int],
            decreases list@.len() - i,
        {
            out.push(&self.stops[list[i] as usize]);
            i = i + 1;
        }
        out
    }

    /// The stops whose parent station is `station_idx`.
    pub fn stops_by_station(&self, station_idx: u32) -> (r: Vec<&Stop>)
        requires
            self.wf(),
            station_idx < self.stops@.len(),
        ensures
            r@.len() == self.station_to_stops@[station_idx as int]@.len(),
            forall|k: int|
                0 <= k < r@.len() ==> *#[trigger] r@[k] == self.stops@[self.station_to_stops@[station_idx as int]@[k] as int],
    {
        self.stops_of(&self.station_to_stops[station_idx as usize])
    }

    /// The stops of the area with index `area_idx`.
    pub fn stops_by_area_idx(&self, area_idx: u32) -> (r: Vec<&Stop>)
        requires
            self.wf(),
            area_idx < self.areas@.len(),
        ensures
            r@.len() == self.area_to_stops@[area_idx as int]@.len(),
            forall|k: int|
                0 <= k < r@.len() ==> *#[trigger] r@[k] == self.stops@[self.area_to_stops@[area_idx as int]@[k] as int],
    {
        self.stops_of(&self.area_to_stops[area_idx as usize])
    }

    /// The stop times of trip `trip_idx`, in calling order.
    pub fn stop_times_by_trip_idx(&self, trip_idx: u32) -> (r: &[StopTime])
        requires
            self.wf(),
            trip_idx < self.trips@.len(),
        ensures
            r@ == self.stop_times@.subrange(
                self.trip_to_stop_slice@[trip_idx as int].start_idx as int,
                self.trip_to_stop_slice@[trip_idx as int].start_idx
                    + self.trip_to_stop_slice@[trip_idx as int].count,
            ),
    {
        let slice = self.trip_to_stop_slice[trip_idx as usize];
        let start = slice.start_idx as usize;
        let end = start + slice.count as usize;
        vstd::slice::slice_subrange(self.stop_times.as_slice(), start, end)
    }
}

/// The RAPTOR routes of a repository stay well formed when nothing they
/// read changes.
pub proof fn lemma_wf_frame(a: Repository, b: Repository)
    requires
        a.wf(),
        b.stops == a.stops,
        b.routes == a.routes,
        b.trips == a.trips,
        b.raptor_routes == a.raptor_routes,
        b.stop_times == a.stop_times,
        b.trip_to_stop_slice == a.trip_to_stop_slice,
    ensures
        forall|q: int| 0 <= q < b.raptor_routes@.len() ==> #[trigger] b.raptor_route_wf(q),
{
    assert forall|q: int| 0 <= q < b.raptor_routes@.len() implies #[trigger] b.raptor_route_wf(q) by {
        assert(a.raptor_route_wf(q));
        let route = b.raptor_routes@[q];
        assert forall|k: int| 0 <= k < route.trips@.len() implies #[trigger] b.trip_serves(
            route.trips@[k] as int,
            route.stops@,
        ) by {
            assert(a.trip_serves(route.trips@[k] as int, route.stops@));
        }
    }
}

/// The walks of `list` that lead away from stop `s`, in order.
pub open spec fn away_from(list: Seq<Walk>, s: int) -> Seq<Walk>
    decreases list.len(),
{
    if list.len() == 0 {
        Seq::empty()
    } else {
        let init = away_from(list.drop_last(), s);
        if list.last().to_stop_idx != s {
            init.push(list.last())
        } else {
            init
        }
    }
}

pub proof fn lemma_away_from_below(list: Seq<Walk>, s: int, bound: int)
    requires
        forall|i: int| 0 <= i < list.len() ==> #[trigger] list[i].to_stop_idx < bound,
    ensures
        forall|k: int| 0 <= k < away_from(list, s).len() ==> #[trigger] away_from(list, s)[k].to_stop_idx < bound,
    decreases list.len(),
{
    if list.len() > 0 {
        let init = away_from(list.drop_last(), s);
        assert forall|i: int| 0 <= i < list.drop_last().len() implies #[trigger] list.drop_last()[i].to_stop_idx
            < bound by {
            assert(list.drop_last()[i] == list[i]);
        }
        lemma_away_from_below(list.drop_last(), s, bound);
        assert(list[list.len() - 1].to_stop_idx < bound);
        assert forall|k: int| 0 <= k < away_from(list, s).len() implies #[trigger] away_from(list, s)[k].to_stop_idx
            < bound by {
            if k < init.len() {
                assert(init[k].to_stop_idx < bound);
            }
        }
    }
}

/// The entries of `items` at the positions listed in `list`, in order.
pub fn refs_of<'a, T>(items: &'a Vec<T>, list: &Vec<u32>) -> (r: Vec<&'a T>)
    requires
        forall|k: int| 0 <= k < list@.len() ==> #[trigger] list@[k] < items@.len(),
    ensures
        r@.len() == list@.len(),
        forall|k: int| 0 <= k < r@.len() ==> *#[trigger] r@[k] == items@[list@[k] as int],
{
    let mut out: Vec<&'a T> = Vec::new();
    let mut i: usize = 0;
    while i < list.len()
        invariant
            i <= list@.len(),
            out@.len() == i,
            forall|k: int| 0 <= k < list@.len() ==> #[trigger] list@[k] < items@.len(),
            forall|k: int| 0 <= k < i ==> *#[trigger] out@[k] == items@[list@[k] as int],
        decreases list@.len() - i,
    {
        out.push(&items[list[i] as usize]);
        i = i + 1;
    }
    out
}

impl Repository {
    /// The area with the given id.
    pub fn area_by_id(&self, id: &str) -> (r: Option<&Area>)
        requires
            self.wf(),
        ensures
            r is None <==> self.area_index(id@) < 0,
            r matches Some(a) ==> *a == self.areas@[self.area_index(id@)],
    {
        match self.area_idx_by_id(id) {
            Some(a) => Some(&self.areas[a as usize]),
            None => None,
        }
    }

    /// The stop with the given id.
    pub fn stop_by_id(&self, id: &str) -> (r: Option<&Stop>)
        requires
            self.wf(),
        ensures
            r is None <==> self.stop_index(id@) < 0,
            r matches Some(s) ==> *s == self.stops@[self.stop_index(id@)],
    {
        match self.stop_idx_by_id(id) {
            Some(s) => Some(&self.stops[s as usize]),
            None => None,
        }
    }

    /// The stops of the area with the given id.
    pub fn stops_by_area_id(&self, area_id: &str) -> (r: Option<Vec<&Stop>>)
        requires
            self.wf(),
        ensures
            r is None <==> self.area_index(area_id@) < 0,
            r matches Some(v) ==> {
                let list = self.area_to_stops@[self.area_index(area_id@)]@;
                &&& v@.len() == list.len()
                &&& forall|k: int| 0 <= k < v@.len() ==> *#[trigger] v@[k] == self.stops@[list[k] as int]
            },
    {
        match self.area_idx_by_id(area_id) {
            Some(a) => Some(self.stops_by_area_idx(a)),
            None => None,
        }
    }

    /// The area that stop `stop_idx` belongs to, if it belongs to one.
    pub fn area_by_stop_idx(&self, stop_idx: u32) -> (r: Option<&Area>)
        requires
            self.wf(),
            stop_idx < self.stops@.len(),
        ensures
            match self.stop_to_area@[stop_idx as int] {
                Some(a) => r == Some(&self.areas@[a as int]),
                None => r is None,
            },
    {
        match self.stop_to_area[stop_idx as usize] {
            Some(a) => Some(&self.areas[a as usize]),
            None => None,
        }
    }

    /// The area of the stop with the given id.
    pub fn area_by_stop_id(&self, stop_id: &str) -> (r: Option<&Area>)
        requires
            self.wf(),
        ensures
            self.stop_index(stop_id@) < 0 ==> r is None,
            self.stop_index(stop_id@) >= 0 ==> match self.stop_to_area@[self.stop_index(stop_id@)] {
                Some(a) => r == Some(&self.areas@[a as int]),
                None => r is None,
            },
    {
        match self.stop_idx_by_id(stop_id) {
            Some(s) => self.area_by_stop_idx(s),
            None => None,
        }
    }

    /// The transfers that start at stop `stop_idx`.
    pub fn transfers_by_stop_idx(&self, stop_idx: u32) -> (r: Vec<&Transfer>)
        requires
            self.wf(),
            stop_idx < self.stops@.len(),
        ensures
            r@.len() == self.stop_to_transfers@[stop_idx as int]@.len(),
            forall|k: int|
                0 <= k < r@.len() ==> *#[trigger] r@[k] == self.transfers@[self.stop_to_transfers@[stop_idx as int]@[k] as int],
    {
        refs_of(&self.transfers, &self.stop_to_transfers[stop_idx as usize])
    }

    /// The transfers that start at the stop with the given id.
    pub fn transfers_by_stop_id(&self, stop_id: &str) -> (r: Option<Vec<&Transfer>>)
        requires
            self.wf(),
        ensures
            r is None <==> self.stop_index(stop_id@) < 0,
            r matches Some(v) ==> {
                let list = self.stop_to_transfers@[self.stop_index(stop_id@)]@;
                &&& v@.len() == list.len()
                &&& forall|k: int| 0 <= k < v@.len() ==> *#[trigger] v@[k] == self.transfers@[list[k] as int]
            },
    {
        match self.stop_idx_by_id(stop_id) {
            Some(s) => Some(self.transfers_by_stop_idx(s)),
            None => None,
        }
    }

    /// The trip with the given id.
    pub fn trip_by_id(&self, id: &str) -> (r: Option<&Trip>)
        requires
            self.wf(),
        ensures
            r is None <==> self.trip_index(id@) < 0,
            r matches Some(t) ==> *t == self.trips@[self.trip_index(id@)],
    {
        match self.trip_idx_by_id(id) {
            Some(t) => Some(&self.trips[t as usize]),
            None => None,
        }
    }

    /// The trips that call at stop `stop_idx`, once per call.
    pub fn trips_by_stop_idx(&self, stop_idx: u32) -> (r: Vec<&Trip>)
        requires
            self.wf(),
            stop_idx < self.stops@.len(),
        ensures
            r@.len() == self.stop_to_trips@[stop_idx as int]@.len(),
            forall|k: int|
                0 <= k < r@.len() ==> *#[trigger] r@[k] == self.trips@[self.stop_to_trips@[stop_idx as int]@[k] as int],
    {
        refs_of(&self.trips, &self.stop_to_trips[stop_idx as usize])
    }

    /// The trips that call at the stop with the given id.
    pub fn trips_by_stop_id(&self, stop_id: &str) -> (r: Option<Vec<&Trip>>)
        requires
            self.wf(),
        ensures
            r is None <==> self.stop_index(stop_id@) < 0,
            r matches Some(v) ==> {
                let list = self.stop_to_trips@[self.stop_index(stop_id@)]@;
                &&& v@.len() == list.len()
                &&& forall|k: int| 0 <= k < v@.len() ==> *#[trigger] v@[k] == self.trips@[list[k] as int]
            },
    {
        match self.stop_idx_by_id(stop_id) {
            Some(s) => Some(self.trips_by_stop_idx(s)),
            None => None,
        }
    }

    /// The route with the given id.
    pub fn route_by_id(&self, id: &str) -> (r: Option<&Route>)
        requires
            self.wf(),
        ensures
            r is None <==> self.route_index(id@) < 0,
            r matches Some(q) ==> *q == self.routes@[self.route_index(id@)],
    {
        match self.route_idx_by_id(id) {
            Some(q) => Some(&self.routes[q as usize]),
            None => None,
        }
    }

    /// The route of trip `trip_idx`.
    pub fn route_by_trip_idx(&self, trip_idx: u32) -> (r: &Route)
        requires
            self.wf(),
            trip_idx < self.trips@.len(),
        ensures
            *r == self.routes@[self.trip_to_route@[trip_idx as int] as int],
    {
        &self.routes[self.trip_to_route[trip_idx as usize] as usize]
    }

    /// The route of the trip with the given id.
    pub fn route_by_trip_id(&self, trip_id: &str) -> (r: Option<&Route>)
        requires
            self.wf(),
        ensures
            r is None <==> self.trip_index(trip_id@) < 0,
            r matches Some(q) ==> *q == self.routes@[self.trip_to_route@[self.trip_index(trip_id@)] as int],
    {
        match self.trip_idx_by_id(trip_id) {
            Some(t) => Some(self.route_by_trip_idx(t)),
            None => None,
        }
    }

    /// The trips of route `route_idx`.
    pub fn trips_by_route_idx(&self, route_idx: u32) -> (r: Vec<&Trip>)
        requires
            self.wf(),
            route_idx < self.routes@.len(),
        ensures
            r@.len() == self.route_to_trips@[route_idx as int]@.len(),
            forall|k: int|
                0 <= k < r@.len() ==> *#[trigger] r@[k] == self.trips@[self.route_to_trips@[route_idx as int]@[k] as int],
    {
        refs_of(&self.trips, &self.route_to_trips[route_idx as usize])
    }

    /// The trips of the route with the given id.
    pub fn trips_by_route_id(&self, route_id: &str) -> (r: Option<Vec<&Trip>>)
        requires
            self.wf(),
        ensures
            r is None <==> self.route_index(route_id@) < 0,
            r matches Some(v) ==> {
                let list = self.route_to_trips@[self.route_index(route_id@)]@;
                &&& v@.len() == list.len()
                &&& forall|k: int| 0 <= k < v@.len() ==> *#[trigger] v@[k] == self.trips@[list[k] as int]
            },
    {
        match self.route_idx_by_id(route_id) {
            Some(q) => Some(self.trips_by_route_idx(q)),
            None => None,
        }
    }

    /// The stop times of every trip of route `route_idx`.
    pub fn stop_times_by_route_idx(&self, route_idx: u32) -> (r: Vec<&[StopTime]>)
        requires
            self.wf(),
            route_idx < self.routes@.len(),
        ensures
            r@.len() == self.route_to_trips@[route_idx as int]@.len(),
            forall|k: int|
                0 <= k < r@.len() ==> {
                    let t = self.route_to_trips@[route_idx as int]@[k] as int;
                    let sl = self.trip_to_stop_slice@[t];
                    (#[trigger] r@[k])@ == self.stop_times@.subrange(sl.start_idx as int, sl.start_idx + sl.count)
                },
    {
        let trips = &self.route_to_trips[route_idx as usize];
        let mut out: Vec<&[StopTime]> = Vec::new();
        let mut i: usize = 0;
        while i < trips.len()
            invariant
                self.wf(),
                route_idx < self.routes@.len(),
                trips == &self.route_to_trips@[route_idx as int],
                i <= trips@.len(),
                out@.len() == i,
                forall|k: int|
                    0 <= k < i ==> {
                        let t = self.route_to_trips@[route_idx as int]@[k] as int;
                        let sl = self.trip_to_stop_slice@[t];
                        (#[trigger] out@[k])@ == self.stop_times@.subrange(sl.start_idx as int, sl.start_idx + sl.count)
                    },
            decreases trips@.len() - i,
        {
            out.push(self.stop_times_by_trip_idx(trips[i]));
            i = i + 1;
        }
        out
    }

    /// The stop times of every trip of the route with the given id.
    pub fn stop_times_by_route_id(&self, route_id: &str) -> (r: Option<Vec<&[StopTime]>>)
        requires
            self.wf(),
        ensures
            r is None <==> self.route_index(route_id@) < 0,
            r matches Some(v) ==> {
                let q = self.route_index(route_id@);
                &&& v@.len() == self.route_to_trips@[q]@.len()
                &&& forall|k: int|
                    0 <= k < v@.len() ==> {
                        let t = self.route_to_trips@[q]@[k] as int;
                        let sl = self.trip_to_stop_slice@[t];
                        (#[trigger] v@[k])@ == self.stop_times@.subrange(sl.start_idx as int, sl.start_idx + sl.count)
                    }
            },
    {
        match self.route_idx_by_id(route_id) {
            Some(q) => Some(self.stop_times_by_route_idx(q)),
            None => None,
        }
    }

    /// The stop times of the trip with the given id.
    pub fn stop_times_by_trip_id(&self, trip_id: &str) -> (r: Option<&[StopTime]>)
        requires
            self.wf(),
        ensures
            r is None <==> self.trip_index(trip_id@) < 0,
            r matches Some(v) ==> {
                let sl = self.trip_to_stop_slice@[self.trip_index(trip_id@)];
                v@ == self.stop_times@.subrange(sl.start_idx as int, sl.start_idx + sl.count)
            },
    {
        match self.trip_idx_by_id(trip_id) {
            Some(t) => Some(self.stop_times_by_trip_idx(t)),
            None => None,
        }
    }

    /// The routes of the trips that call at the stop with the given id, one
    /// per call; each trip is looked up again by its id.
    pub fn routes_by_stop_id(&self, stop_id: &str) -> (r: Option<Vec<&Route>>)
        requires
            self.wf(),
        ensures
            r is None <==> self.stop_index(stop_id@) < 0,
            r matches Some(v) ==> {
                let list = self.stop_to_trips@[self.stop_index(stop_id@)]@;
                &&& v@.len() == list.len()
                &&& forall|k: int|
                    0 <= k < v@.len() ==> *#[trigger] v@[k] == self.routes@[self.trip_to_route@[self.trip_index(
                        self.trips@[list[k] as int].id@,
                    )] as int]
            },
    {
        let trips = match self.trips_by_stop_id(stop_id) {
            Some(v) => v,
            None => return None,
        };
        let ghost list = self.stop_to_trips@[self.stop_index(stop_id@)]@;
        let mut out: Vec<&Route> = Vec::new();
        let mut i: usize = 0;
        while i < trips.len()
            invariant
                self.wf(),
                self.stop_index(stop_id@) >= 0,
                list == self.stop_to_trips@[self.stop_index(stop_id@)]@,
                trips@.len() == list.len(),
                forall|k: int| 0 <= k < trips@.len() ==> *#[trigger] trips@[k] == self.trips@[list[k] as int],
                i <= trips@.len(),
                out@.len() == i,
                forall|k: int|
                    0 <= k < i ==> *#[trigger] out@[k] == self.routes@[self.trip_to_route@[self.trip_index(
                        self.trips@[list[k] as int].id@,
                    )] as int],
            decreases trips@.len() - i,
        {
            let trip = trips[i];
            match self.route_by_trip_id(trip.id.as_str()) {
                Some(route) => out.push(route),
                None => {
                    proof {
                        let s = self.stop_index(stop_id@);
                        lemma_last_index_of_bounds(stop_ids(self.stops@), stop_id@);
                        assert(list[i as int] == self.stop_to_trips@[s]@[i as int]);
                        assert(list[i as int] < self.trips@.len());
                        assert(*trips@[i as int] == self.trips@[list[i as int] as int]);
                        lemma_last_index_of_bounds(trip_ids(self.trips@), trip.id@);
                        assert(trip_ids(self.trips@)[list[i as int] as int] == trip.id@);
                        assert(trip_ids(self.trips@).contains(trip.id@));
                    }
                    return None;
                },
            }
            i = i + 1;
        }
        Some(out)
    }

    /// The RAPTOR routes of route `route_idx`.
    pub fn raptors_by_route_idx(&self, route_idx: u32) -> (r: Vec<&RaptorRoute>)
        requires
            self.wf(),
            route_idx < self.routes@.len(),
        ensures
            r@.len() == self.route_to_raptors@[route_idx as int]@.len(),
            forall|k: int|
                0 <= k < r@.len() ==> *#[trigger] r@[k] == self.raptor_routes@[self.route_to_raptors@[route_idx as int]@[k] as int],
    {
        refs_of(&self.raptor_routes, &self.route_to_raptors[route_idx as usize])
    }

    /// The RAPTOR routes of the route with the given id.
    pub fn raptors_by_route_id(&self, route_id: &str) -> (r: Option<Vec<&RaptorRoute>>)
        requires
            self.wf(),
        ensures
            r is None <==> self.route_index(route_id@) < 0,
            r matches Some(v) ==> {
                let q = self.route_index(route_id@);
                &&& v@.len() == self.route_to_raptors@[q]@.len()
                &&& forall|k: int|
                    0 <= k < v@.len() ==> *#[trigger] v@[k] == self.raptor_routes@[self.route_to_raptors@[q]@[k] as int]
            },
    {
        match self.route_idx_by_id(route_id) {
            Some(q) => Some(self.raptors_by_route_idx(q)),
            None => None,
        }
    }

    /// The RAPTOR routes that serve stop `stop_idx`.
    pub fn raptors_by_stop_idx(&self, stop_idx: u32) -> (r: Vec<&RaptorRoute>)
        requires
            self.wf(),
            stop_idx < self.stops@.len(),
        ensures
            r@.len() == self.stop_to_raptors@[stop_idx as int]@.len(),
            forall|k: int|
                0 <= k < r@.len() ==> *#[trigger] r@[k] == self.raptor_routes@[self.stop_to_raptors@[stop_idx as int]@[k] as int],
    {
        refs_of(&self.raptor_routes, &self.stop_to_raptors[stop_idx as usize])
    }

    /// The RAPTOR routes that serve the stop with the given id.
    pub fn raptors_by_stop_id(&self, stop_id: &str) -> (r: Option<Vec<&RaptorRoute>>)
        requires
            self.wf(),
        ensures
            r is None <==> self.stop_index(stop_id@) < 0,
            r matches Some(v) ==> {
                let st = self.stop_index(stop_id@);
                &&& v@.len() == self.stop_to_raptors@[st]@.len()
                &&& forall|k: int|
                    0 <= k < v@.len() ==> *#[trigger] v@[k] == self.raptor_routes@[self.stop_to_raptors@[st]@[k] as int]
            },
    {
        match self.stop_idx_by_id(stop_id) {
            Some(s) => Some(self.raptors_by_stop_idx(s)),
            None => None,
        }
    }

    /// Sets, for every stop, the stops within walking reach and how long
    /// the walk takes; a walk from a stop to itself is left out.
    pub fn set_walks(&mut self, walks: Vec<Vec<Walk>>)
        requires
            old(self).wf(),
            walks@.len() == old(self).stops@.len(),
            forall|s: int, k: int|
                0 <= s < walks@.len() && 0 <= k < walks@[s]@.len() ==> #[trigger] walks@[s]@[k].to_stop_idx
                    < old(self).stops@.len(),
        ensures
            final(self).wf(),
            final(self).stop_to_walk_stop@.len() == walks@.len(),
            forall|s: int|
                0 <= s < walks@.len() ==> (#[trigger] final(self).stop_to_walk_stop@[s])@ == away_from(
                    walks@[s]@,
                    s,
                ),
            *final(self) == (Repository { stop_to_walk_stop: final(self).stop_to_walk_stop, ..*old(self) }),
    {
        let n = walks.len();
        let mut out: Vec<Vec<Walk>> = Vec::new();
        let mut s: usize = 0;
        while s < n
            invariant
                n == walks@.len(),
                s <= n,
                out@.len() == s,
                forall|j: int| 0 <= j < s ==> (#[trigger] out@[j])@ == away_from(walks@[j]@, j),
            decreases n - s,
        {
            let list = &walks[s];
            let mut kept: Vec<Walk> = Vec::new();
            let mut k: usize = 0;
            while k < list.len()
                invariant
                    list == &walks@[s as int],
                    k <= list@.len(),
                    kept@ == away_from(list@.subrange(0, k as int), s as int),
                decreases list@.len() - k,
            {
                let w = list[k];
                proof {
                    assert(list@.subrange(0, k + 1).drop_last() =~= list@.subrange(0, k as int));
                }
                if w.to_stop_idx as usize != s {
                    kept.push(w);
                }
                k = k + 1;
            }
            assert(list@.subrange(0, list@.len() as int) =~= list@);
            out.push(kept);
            s = s + 1;
        }
        proof {
            assert forall|j: int, k: int|
                0 <= j < out@.len() && 0 <= k < out@[j]@.len() implies #[trigger] out@[j]@[k].to_stop_idx
                    < self.stops@.len() by {
                assert forall|i: int| 0 <= i < walks@[j]@.len() implies #[trigger] walks@[j]@[i].to_stop_idx
                    < self.stops@.len() by {
                    assert(walks@[j]@[i].to_stop_idx < self.stops@.len());
                }
                lemma_away_from_below(walks@[j]@, j, self.stops@.len() as int);
            }
        }
        let ghost before = *self;
        self.stop_to_walk_stop = out;
        proof {
            lemma_wf_frame(before, *self);
        }
    }

    /// Sets the stops near the middle of every area, used for an area
    /// without stops of its own.
    pub fn set_area_near_stops(&mut self, near: Vec<Vec<u32>>)
        requires
            old(self).wf(),
            near@.len() == old(self).areas@.len(),
            lists_below(near@, old(self).stops@.len()),
        ensures
            final(self).wf(),
            final(self).area_to_near_stops == near,
            *final(self) == (Repository { area_to_near_stops: near, ..*old(self) }),
    {
        let ghost before = *self;
        self.area_to_near_stops = near;
        proof {
            lemma_wf_frame(before, *self);
        }
    }

    /// Sets how long walking each transfer takes, used for a transfer
    /// without a minimum transfer time.
    pub fn set_transfer_walk_times(&mut self, times: &Vec<Duration>)
        requires
            old(self).wf(),
            times@.len() == old(self).transfers@.len(),
        ensures
            final(self).wf(),
            final(self).transfers@.len() == old(self).transfers@.len(),
            forall|i: int|
                0 <= i < times@.len() ==> (#[trigger] final(self).transfers@[i]).walk_time == times@[i]
                    && final(self).transfers@[i].from_stop_idx == old(self).transfers@[i].from_stop_idx
                    && final(self).transfers@[i].to_stop_idx == old(self).transfers@[i].to_stop_idx
                    && final(self).transfers@[i].from_trip_idx == old(self).transfers@[i].from_trip_idx
                    && final(self).transfers@[i].to_trip_idx == old(self).transfers@[i].to_trip_idx
                    && final(self).transfers@[i].min_transfer_time == old(self).transfers@[i].min_transfer_time,
            *final(self) == (Repository { transfers: final(self).transfers, ..*old(self) }),
    {
        let mut out: Vec<Transfer> = Vec::new();
        let mut i: usize = 0;
        while i < times.len()
            invariant
                times@.len() == self.transfers@.len(),
                i <= times@.len(),
                out@.len() == i,
                forall|j: int|
                    0 <= j < i ==> (#[trigger] out@[j]).walk_time == times@[j] && out@[j].from_stop_idx
                        == self.transfers@[j].from_stop_idx && out@[j].to_stop_idx == self.transfers@[j].to_stop_idx
                        && out@[j].from_trip_idx == self.transfers@[j].from_trip_idx && out@[j].to_trip_idx
                        == self.transfers@[j].to_trip_idx && out@[j].min_transfer_time
                        == self.transfers@[j].min_transfer_time,
            decreases times@.len() - i,
        {
            let t = &self.transfers[i];
            out.push(
                Transfer {
                    from_stop_idx: t.from_stop_idx,
                    to_stop_idx: t.to_stop_idx,
                    from_trip_idx: t.from_trip_idx,
                    to_trip_idx: t.to_trip_idx,
                    min_transfer_time: t.min_transfer_time,
                    walk_time: times[i],
                },
            );
            i = i + 1;
        }
        let ghost before = *self;
        self.transfers = out;
        proof {
            lemma_wf_frame(before, *self);
        }
    }
}

} // verus!
