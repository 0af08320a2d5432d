//! Building a repository from the tables of a GTFS feed.

use crate::gtfs::data::{
    gtfs_area_ids, gtfs_route_ids, gtfs_stop_ids, gtfs_trip_ids, GtfsData, GtfsIndex,
};
use crate::repository::index::{find_last, index_keys, keys_of, IdIndex};
use crate::raptor::itinerary::{call_ids, trip_stop_ids};
use crate::gtfs::models::{location_type_of, times_readable, GtfsArea, GtfsRoute, GtfsStop};
use crate::repository::models::{
    Area, RaptorRoute, Route, Stop, StopAccessType, StopTime, StopTimeSlice, Timepoint, Transfer, Trip, Walk,
};
use crate::repository::{last_index_of, lemma_last_index_of_bounds, lists_below, Repository};
use crate::time::{from_hms_spec, Duration};
use rayon::slice::ParallelSliceMut;
use crate::text::lowercase;
use vstd::prelude::*;

verus! {

/// The values of the first `n` rows whose key is `b`, in row order: what
/// pushing each row's value onto the list of its key gives.
pub open spec fn bucket(keys: Seq<u32>, vals: Seq<u32>, n: nat, b: int) -> Seq<u32>
    decreases n,
{
    if n == 0 {
        Seq::empty()
    } else {
        let init = bucket(keys, vals, (n - 1) as nat, b);
        if keys[n - 1] == b {
            init.push(vals[n - 1])
        } else {
            init
        }
    }
}

/// The value of the last of the first `n` rows whose key is `k`, if any:
/// what writing each row's value at its key gives.
pub open spec fn last_match(keys: Seq<u32>, vals: Seq<u32>, n: nat, k: int) -> Option<u32>
    decreases n,
{
    if n == 0 {
        None
    } else if keys[n - 1] == k {
        Some(vals[n - 1])
    } else {
        last_match(keys, vals, (n - 1) as nat, k)
    }
}

pub proof fn lemma_bucket_below(keys: Seq<u32>, vals: Seq<u32>, n: nat, b: int, bound: int)
    requires
        n <= vals.len(),
        forall|i: int| 0 <= i < n ==> #[trigger] vals[i] < bound,
    ensures
        forall|j: int| 0 <= j < bucket(keys, vals, n, b).len() ==> #[trigger] bucket(keys, vals, n, b)[j] < bound,
    decreases n,
{
    if n > 0 {
        let m = (n - 1) as nat;
        lemma_bucket_below(keys, vals, m, b, bound);
        assert(vals[n - 1] < bound);
        let init = bucket(keys, vals, m, b);
        assert forall|j: int| 0 <= j < bucket(keys, vals, n, b).len() implies #[trigger] bucket(
            keys,
            vals,
            n,
            b,
        )[j] < bound by {
            if j < init.len() {
                assert(init[j] < bound);
            }
        }
    }
}

pub proof fn lemma_last_match_below(keys: Seq<u32>, vals: Seq<u32>, n: nat, k: int, bound: int)
    requires
        n <= vals.len(),
        forall|i: int| 0 <= i < n ==> #[trigger] vals[i] < bound,
    ensures
        last_match(keys, vals, n, k) matches Some(v) ==> v < bound,
    decreases n,
{
    if n > 0 {
        lemma_last_match_below(keys, vals, (n - 1) as nat, k, bound);
    }
}

/// One list per key below `nb`, holding the values of the rows with that
/// key in row order; rows with a larger key are left out.
pub fn bucketize(keys: &Vec<u32>, vals: &Vec<u32>, nb: usize) -> (r: Vec<Vec<u32>>)
    requires
        keys@.len() == vals@.len(),
    ensures
        r@.len() == nb,
        forall|b: int| 0 <= b < nb ==> (#[trigger] r@[b])@ == bucket(keys@, vals@, keys@.len(), b),
{
    let mut out: Vec<Vec<u32>> = Vec::new();
    let mut b: usize = 0;
    while b < nb
        invariant
            b <= nb,
            out@.len() == b,
            forall|c: int| 0 <= c < b ==> (#[trigger] out@[c])@ == Seq::<u32>::empty(),
        decreases nb - b,
    {
        out.push(Vec::new());
        b = b + 1;
    }
    let mut i: usize = 0;
    while i < keys.len()
        invariant
            keys@.len() == vals@.len(),
            i <= keys@.len(),
            out@.len() == nb,
            forall|c: int| 0 <= c < nb ==> (#[trigger] out@[c])@ == bucket(keys@, vals@, i as nat, c),
        decreases keys@.len() - i,
    {
        let k = keys[i] as usize;
        if k < nb {
            out[k].push(vals[i]);
        }
        i = i + 1;
    }
    out
}

/// One entry per key below `n`: the value of the last row with that key.
pub fn last_matches(keys: &Vec<u32>, vals: &Vec<u32>, n: usize) -> (r: Vec<Option<u32>>)
    requires
        keys@.len() == vals@.len(),
    ensures
        r@.len() == n,
        forall|k: int| 0 <= k < n ==> #[trigger] r@[k] == last_match(keys@, vals@, keys@.len(), k),
{
    let mut out: Vec<Option<u32>> = Vec::new();
    let mut b: usize = 0;
    while b < n
        invariant
            b <= n,
            out@.len() == b,
            forall|c: int| 0 <= c < b ==> #[trigger] out@[c] == None::<u32>,
        decreases n - b,
    {
        out.push(None);
        b = b + 1;
    }
    let mut i: usize = 0;
    while i < keys.len()
        invariant
            keys@.len() == vals@.len(),
            i <= keys@.len(),
            out@.len() == n,
            forall|c: int| 0 <= c < n ==> #[trigger] out@[c] == last_match(keys@, vals@, i as nat, c),
        decreases keys@.len() - i,
    {
        let k = keys[i] as usize;
        if k < n {
            out.set(k, Some(vals[i]));
        }
        i = i + 1;
    }
    out
}

/// The row numbers `0..n`.
pub open spec fn rows(n: nat) -> Seq<u32> {
    Seq::new(n, |i: int| i as u32)
}

/// The row of a stop as the loader converts it: its parent station is taken
/// out first.
pub open spec fn without_parent(v: GtfsStop) -> GtfsStop {
    GtfsStop {
        stop_id: v.stop_id,
        stop_name: v.stop_name,
        location_type: v.location_type,
        parent_station: None,
        platform_code: v.platform_code,
    }
}

/// The stop that the parent station of stop row `i` names, if it names one.
pub open spec fn parent_of(data: GtfsData, i: int) -> Option<u32> {
    match data.stops@[i].parent_station {
        Some(ps) => {
            let p = data.stop_row(ps@);
            if p >= 0 {
                Some(p as u32)
            } else {
                None
            }
        },
        None => None,
    }
}

/// The key under which stop row `i` is listed among the stops of its
/// station (`u32::MAX`: none).
pub open spec fn parent_keys(data: GtfsData) -> Seq<u32> {
    Seq::new(
        data.stops@.len(),
        |i: int|
            match parent_of(data, i) {
                Some(p) => p,
                None => u32::MAX,
            },
    )
}

/// Stop `s` is the stop of row `i`.
pub open spec fn stop_loaded(data: GtfsData, s: Stop, i: int) -> bool {
    let v = data.stops@[i];
    &&& s.index == i
    &&& s.id@ == v.stop_id@
    &&& s.name@ == v.stop_name@
    &&& s.normalized_name@ == lowercase(v.stop_name@)
    &&& s.parent_index == parent_of(data, i)
    &&& location_type_of(s.location_type, without_parent(v))
}

fn clone_text(o: &Option<String>) -> (r: Option<String>)
    ensures
        r == *o,
{
    match o {
        Some(s) => Some(s.clone()),
        None => None,
    }
}

/// The stops, one per row, each with the stop its parent station names,
/// and for every stop the stops whose parent station it is.
fn load_stops(data: &GtfsData, index: &GtfsIndex) -> (r: (Vec<Stop>, Vec<Vec<u32>>))
    requires
        data.loadable(),
        index.indexes(*data),
    ensures
        r.0@.len() == data.stops@.len(),
        forall|i: int| 0 <= i < data.stops@.len() ==> stop_loaded(*data, #[trigger] r.0@[i], i),
        r.1@.len() == data.stops@.len(),
        forall|p: int|
            0 <= p < data.stops@.len() ==> (#[trigger] r.1@[p])@ == bucket(
                parent_keys(*data),
                rows(data.stops@.len()),
                data.stops@.len(),
                p,
            ),
{
    let n = data.stops.len();
    let mut stops: Vec<Stop> = Vec::new();
    let mut keys: Vec<u32> = Vec::new();
    let mut vals: Vec<u32> = Vec::new();
    let mut i: usize = 0;
    while i < n
        invariant
            data.loadable(),
            index.indexes(*data),
            n == data.stops@.len(),
            i <= n,
            stops@.len() == i,
            keys@ == parent_keys(*data).subrange(0, i as int),
            vals@ == rows(n as nat).subrange(0, i as int),
            forall|j: int| 0 <= j < i ==> stop_loaded(*data, #[trigger] stops@[j], j),
        decreases n - i,
    {
        let row = &data.stops[i];
        assert(row.location_type matches Some(lt) ==> lt <= 4);
        let parent = match &row.parent_station {
            Some(ps) => data.stop_position(index, ps.as_str()),
            None => None,
        };
        let value = GtfsStop {
            stop_id: row.stop_id.clone(),
            stop_name: row.stop_name.clone(),
            location_type: row.location_type,
            parent_station: None,
            platform_code: clone_text(&row.platform_code),
        };
        assert(value == without_parent(*row));
        let mut stop = Stop::from(value);
        stop.index = i as u32;
        stop.parent_index = parent;
        stops.push(stop);
        keys.push(
            match parent {
                Some(p) => p,
                None => u32::MAX,
            },
        );
        vals.push(i as u32);
        i = i + 1;
        assert(keys@ =~= parent_keys(*data).subrange(0, i as int));
        assert(vals@ =~= rows(n as nat).subrange(0, i as int));
    }
    assert(keys@ =~= parent_keys(*data));
    assert(vals@ =~= rows(n as nat));
    let stations = bucketize(&keys, &vals, n);
    (stops, stations)
}

/// Area `a` is the area of row `i`.
pub open spec fn area_loaded(data: GtfsData, a: Area, i: int) -> bool {
    let v = data.areas@[i];
    &&& a.index == i
    &&& a.id@ == v.area_id@
    &&& a.name@ == v.area_name@
    &&& a.normalized_name@ == lowercase(v.area_name@)
}

/// The areas, one per row.
fn load_areas(data: &GtfsData, index: &GtfsIndex) -> (r: Vec<Area>)
    requires
        data.loadable(),
        index.indexes(*data),
    ensures
        r@.len() == data.areas@.len(),
        forall|i: int| 0 <= i < data.areas@.len() ==> area_loaded(*data, #[trigger] r@[i], i),
{
    let n = data.areas.len();
    let mut areas: Vec<Area> = Vec::new();
    let mut i: usize = 0;
    while i < n
        invariant
            data.loadable(),
            index.indexes(*data),
            n == data.areas@.len(),
            i <= n,
            areas@.len() == i,
            forall|j: int| 0 <= j < i ==> area_loaded(*data, #[trigger] areas@[j], j),
        decreases n - i,
    {
        let row = GtfsArea {
            area_id: data.areas[i].area_id.clone(),
            area_name: data.areas[i].area_name.clone(),
            samtrafiken_area_type: data.areas[i].samtrafiken_area_type.clone(),
        };
        let mut area = Area::from(row);
        area.index = i as u32;
        areas.push(area);
        i = i + 1;
    }
    areas
}

/// Route `r` is the route of row `i`.
pub open spec fn route_loaded(data: GtfsData, r: Route, i: int) -> bool {
    let v = data.routes@[i];
    &&& r.index == i
    &&& r.id@ == v.route_id@
    &&& r.agency_id@ == v.agency_id@
    &&& r.short_name == v.route_short_name
    &&& r.long_name == v.route_long_name
    &&& r.route_type == v.route_type
    &&& r.route_desc == v.route_desc
}

/// The routes, one per row.
fn load_routes(data: &GtfsData, index: &GtfsIndex) -> (r: Vec<Route>)
    requires
        data.loadable(),
        index.indexes(*data),
    ensures
        r@.len() == data.routes@.len(),
        forall|i: int| 0 <= i < data.routes@.len() ==> route_loaded(*data, #[trigger] r@[i], i),
{
    let n = data.routes.len();
    let mut routes: Vec<Route> = Vec::new();
    let mut i: usize = 0;
    while i < n
        invariant
            data.loadable(),
            index.indexes(*data),
            n == data.routes@.len(),
            i <= n,
            routes@.len() == i,
            forall|j: int| 0 <= j < i ==> route_loaded(*data, #[trigger] routes@[j], j),
        decreases n - i,
    {
        let src = &data.routes[i];
        let row = GtfsRoute {
            route_id: src.route_id.clone(),
            agency_id: src.agency_id.clone(),
            route_short_name: clone_text(&src.route_short_name),
            route_long_name: clone_text(&src.route_long_name),
            route_type: src.route_type,
            route_desc: clone_text(&src.route_desc),
        };
        let mut route = Route::from(row);
        route.index = i as u32;
        routes.push(route);
        i = i + 1;
    }
    routes
}

/// The area row of each stop-area row.
pub open spec fn member_areas(data: GtfsData) -> Seq<u32> {
    Seq::new(data.stop_areas@.len(), |i: int| data.area_row(data.stop_areas@[i].area_id@) as u32)
}

/// The stop row of each stop-area row.
pub open spec fn member_stops(data: GtfsData) -> Seq<u32> {
    Seq::new(data.stop_areas@.len(), |i: int| data.stop_row(data.stop_areas@[i].stop_id@) as u32)
}

/// The stops of every area, in the order of the stop-area rows, and the
/// area of every stop: the last row that lists it.
fn load_area_to_stops(data: &GtfsData, index: &GtfsIndex) -> (r: (Vec<Vec<u32>>, Vec<Option<u32>>))
    requires
        data.loadable(),
        index.indexes(*data),
    ensures
        r.0@.len() == data.areas@.len(),
        forall|a: int|
            0 <= a < data.areas@.len() ==> (#[trigger] r.0@[a])@ == bucket(
                member_areas(*data),
                member_stops(*data),
                data.stop_areas@.len(),
                a,
            ),
        r.1@.len() == data.stops@.len(),
        forall|s: int|
            0 <= s < data.stops@.len() ==> #[trigger] r.1@[s] == last_match(
                member_stops(*data),
                member_areas(*data),
                data.stop_areas@.len(),
                s,
            ),
{
    let n = data.stop_areas.len();
    let mut areas: Vec<u32> = Vec::new();
    let mut stops: Vec<u32> = Vec::new();
    let mut i: usize = 0;
    while i < n
        invariant
            data.loadable(),
            index.indexes(*data),
            n == data.stop_areas@.len(),
            i <= n,
            areas@ == member_areas(*data).subrange(0, i as int),
            stops@ == member_stops(*data).subrange(0, i as int),
        decreases n - i,
    {
        let row = &data.stop_areas[i];
        let stop_idx = match data.stop_position(index, row.stop_id.as_str()) {
            Some(s) => s,
            None => 0,
        };
        let area_idx = match data.area_position(index, row.area_id.as_str()) {
            Some(a) => a,
            None => 0,
        };
        stops.push(stop_idx);
        areas.push(area_idx);
        i = i + 1;
        assert(areas@ =~= member_areas(*data).subrange(0, i as int));
        assert(stops@ =~= member_stops(*data).subrange(0, i as int));
    }
    assert(areas@ =~= member_areas(*data));
    assert(stops@ =~= member_stops(*data));
    let area_to_stops = bucketize(&areas, &stops, data.areas.len());
    let stop_to_area = last_matches(&stops, &areas, data.stops.len());
    (area_to_stops, stop_to_area)
}

/// The route row of each trip row.
pub open spec fn trip_routes(data: GtfsData) -> Seq<u32> {
    Seq::new(data.trips@.len(), |i: int| data.route_row(data.trips@[i].route_id@) as u32)
}

/// Trip `t` is the trip of row `i`.
pub open spec fn trip_loaded(data: GtfsData, t: Trip, i: int) -> bool {
    let v = data.trips@[i];
    &&& t.index == i
    &&& t.id@ == v.trip_id@
    &&& t.route_idx == trip_routes(data)[i]
    &&& t.raptor_route_idx == 0
    &&& t.headsign == v.trip_headsign
    &&& t.short_name == v.trip_short_name
}

/// The trips, one per row, the trips of every route in row order, and the
/// route of every trip.
fn load_trips(data: &GtfsData, index: &GtfsIndex) -> (r: (Vec<Trip>, Vec<Vec<u32>>, Vec<u32>))
    requires
        data.loadable(),
        index.indexes(*data),
    ensures
        r.0@.len() == data.trips@.len(),
        forall|i: int| 0 <= i < data.trips@.len() ==> trip_loaded(*data, #[trigger] r.0@[i], i),
        r.1@.len() == data.routes@.len(),
        forall|q: int|
            0 <= q < data.routes@.len() ==> (#[trigger] r.1@[q])@ == bucket(
                trip_routes(*data),
                rows(data.trips@.len()),
                data.trips@.len(),
                q,
            ),
        r.2@ == trip_routes(*data),
{
    let n = data.trips.len();
    let mut trips: Vec<Trip> = Vec::new();
    let mut routes: Vec<u32> = Vec::new();
    let mut vals: Vec<u32> = Vec::new();
    let mut i: usize = 0;
    while i < n
        invariant
            data.loadable(),
            index.indexes(*data),
            n == data.trips@.len(),
            i <= n,
            trips@.len() == i,
            routes@ == trip_routes(*data).subrange(0, i as int),
            vals@ == rows(n as nat).subrange(0, i as int),
            forall|j: int| 0 <= j < i ==> trip_loaded(*data, #[trigger] trips@[j], j),
        decreases n - i,
    {
        let row = &data.trips[i];
        let route_idx = match data.route_position(index, row.route_id.as_str()) {
            Some(q) => q,
            None => 0,
        };
        trips.push(
            Trip {
                index: i as u32,
                id: row.trip_id.clone(),
                route_idx,
                raptor_route_idx: 0,
                headsign: clone_text(&row.trip_headsign),
                short_name: clone_text(&row.trip_short_name),
            },
        );
        routes.push(route_idx);
        vals.push(i as u32);
        i = i + 1;
        assert(routes@ =~= trip_routes(*data).subrange(0, i as int));
        assert(vals@ =~= rows(n as nat).subrange(0, i as int));
    }
    assert(routes@ =~= trip_routes(*data));
    assert(vals@ =~= rows(n as nat));
    let route_to_trips = bucketize(&routes, &vals, data.routes.len());
    (trips, route_to_trips, routes)
}

/// The stop row where each transfer row starts.
pub open spec fn transfer_froms(data: GtfsData) -> Seq<u32> {
    Seq::new(data.transfers@.len(), |i: int| data.stop_row(data.transfers@[i].from_stop_id@) as u32)
}

/// The trip row that an optional trip id names.
pub open spec fn trip_ref(data: GtfsData, id: Option<String>) -> Option<u32> {
    match id {
        Some(s) => Some(data.trip_row(s@) as u32),
        None => None,
    }
}

/// Transfer `t` is the transfer of row `i`; its walking time is left at
/// zero for the caller to fill in.
pub open spec fn transfer_loaded(data: GtfsData, t: Transfer, i: int) -> bool {
    let v = data.transfers@[i];
    &&& t.from_stop_idx == data.stop_row(v.from_stop_id@)
    &&& t.to_stop_idx == data.stop_row(v.to_stop_id@)
    &&& t.from_trip_idx == trip_ref(data, v.from_trip_id)
    &&& t.to_trip_idx == trip_ref(data, v.to_trip_id)
    &&& t.min_transfer_time == (match v.min_transfer_time {
        Some(s) => Some(Duration(s)),
        None => None,
    })
    &&& t.walk_time == Duration(0)
}

/// The trip index of an optional trip id.
fn trip_position_of(data: &GtfsData, index: &GtfsIndex, id: &Option<String>) -> (r: Option<u32>)
    requires
        data.loadable(),
        index.indexes(*data),
        id matches Some(s) ==> data.trip_row(s@) >= 0,
    ensures
        r == trip_ref(*data, *id),
{
    match id {
        Some(s) => data.trip_position(index, s.as_str()),
        None => None,
    }
}

/// The transfers, one per row, and the transfers that start at every stop.
fn load_transfers(data: &GtfsData, index: &GtfsIndex) -> (r: (Vec<Transfer>, Vec<Vec<u32>>))
    requires
        data.loadable(),
        index.indexes(*data),
    ensures
        r.0@.len() == data.transfers@.len(),
        forall|i: int| 0 <= i < data.transfers@.len() ==> transfer_loaded(*data, #[trigger] r.0@[i], i),
        r.1@.len() == data.stops@.len(),
        forall|s: int|
            0 <= s < data.stops@.len() ==> (#[trigger] r.1@[s])@ == bucket(
                transfer_froms(*data),
                rows(data.transfers@.len()),
                data.transfers@.len(),
                s,
            ),
{
    let n = data.transfers.len();
    let mut transfers: Vec<Transfer> = Vec::new();
    let mut froms: Vec<u32> = Vec::new();
    let mut vals: Vec<u32> = Vec::new();
    let mut i: usize = 0;
    while i < n
        invariant
            data.loadable(),
            index.indexes(*data),
            n == data.transfers@.len(),
            i <= n,
            transfers@.len() == i,
            froms@ == transfer_froms(*data).subrange(0, i as int),
            vals@ == rows(n as nat).subrange(0, i as int),
            forall|j: int| 0 <= j < i ==> transfer_loaded(*data, #[trigger] transfers@[j], j),
        decreases n - i,
    {
        let row = &data.transfers[i];
        let from_stop_idx = match data.stop_position(index, row.from_stop_id.as_str()) {
            Some(s) => s,
            None => 0,
        };
        let to_stop_idx = match data.stop_position(index, row.to_stop_id.as_str()) {
            Some(s) => s,
            None => 0,
        };
        let from_trip_idx = trip_position_of(data, index, &row.from_trip_id);
        let to_trip_idx = trip_position_of(data, index, &row.to_trip_id);
        let min_transfer_time = match row.min_transfer_time {
            Some(secs) => Some(Duration::from_seconds(secs)),
            None => None,
        };
        transfers.push(
            Transfer {
                from_stop_idx,
                to_stop_idx,
                from_trip_idx,
                to_trip_idx,
                min_transfer_time,
                walk_time: Duration(0),
            },
        );
        froms.push(from_stop_idx);
        vals.push(i as u32);
        i = i + 1;
        assert(froms@ =~= transfer_froms(*data).subrange(0, i as int));
        assert(vals@ =~= rows(n as nat).subrange(0, i as int));
    }
    assert(froms@ =~= transfer_froms(*data));
    assert(vals@ =~= rows(n as nat));
    let stop_to_transfers = bucketize(&froms, &vals, data.stops.len());
    (transfers, stop_to_transfers)
}

/// Sorts pairs by their first component.
///
/// Trusted: rayon's `ParallelSliceMut::par_sort_by_key`, a stable merge
/// sort: the result holds the same pairs, ordered by the key, and pairs
/// with equal keys keep their order (so, where the second components
/// increase beforehand, they increase among equal keys afterwards).
#[verifier::external_body]
fn sort_by_first(v: &mut Vec<(u32, u32)>)
    ensures
        final(v)@.len() == old(v)@.len(),
        final(v)@.to_multiset() == old(v)@.to_multiset(),
        forall|i: int, j: int| 0 <= i <= j < final(v)@.len() ==> final(v)@[i].0 <= final(v)@[j].0,
        (forall|i: int, j: int| 0 <= i < j < old(v)@.len() ==> old(v)@[i].1 < old(v)@[j].1) ==> (forall|
            i: int,
            j: int,
        | 0 <= i < j < final(v)@.len() && final(v)@[i].0 == final(v)@[j].0 ==> final(v)@[i].1
            < final(v)@[j].1),
{
    v.par_sort_by_key(|p| p.0);
}

/// The trip row of each stop time row.
pub open spec fn row_trips(data: GtfsData) -> Seq<u32> {
    Seq::new(data.stop_times@.len(), |i: int| data.trip_row(data.stop_times@[i].trip_id@) as u32)
}

/// The stop row of each stop time row.
pub open spec fn row_stops(data: GtfsData) -> Seq<u32> {
    Seq::new(data.stop_times@.len(), |i: int| data.stop_row(data.stop_times@[i].stop_id@) as u32)
}

/// Stop time `st` is read from row `j`: its trip and stop, sequence, times
/// and headsign; it is picked up and dropped off regularly, at exact times.
pub open spec fn from_row(data: GtfsData, st: StopTime, j: int) -> bool {
    let v = data.stop_times@[j];
    &&& 0 <= j < data.stop_times@.len()
    &&& st.trip_idx == row_trips(data)[j]
    &&& st.stop_idx == row_stops(data)[j]
    &&& st.sequence == v.stop_sequence
    &&& Some(st.arrival_time.0) == from_hms_spec(v.arrival_time@)
    &&& Some(st.departure_time.0) == from_hms_spec(v.departure_time@)
    &&& st.headsign == v.stop_headsign
    &&& st.pickup_type == StopAccessType::Regularly
    &&& st.drop_off_type == StopAccessType::Regularly
    &&& st.timepoint == Timepoint::Exact
}

/// The first row of the run (consecutive rows of one trip) that holds row
/// `i`.
pub open spec fn run_start(rt: Seq<u32>, i: int) -> int
    decreases i,
{
    if i <= 0 || rt[i - 1] != rt[i] {
        i
    } else {
        run_start(rt, i - 1)
    }
}

/// One past the last row of the run that holds row `i`.
pub open spec fn run_end(rt: Seq<u32>, i: int) -> int
    decreases rt.len() - i,
{
    if i + 1 >= rt.len() || rt[i + 1] != rt[i] {
        i + 1
    } else {
        run_end(rt, i + 1)
    }
}

/// The slice of the run that holds row `i`.
pub open spec fn run_slice(rt: Seq<u32>, i: int) -> StopTimeSlice {
    StopTimeSlice { start_idx: run_start(rt, i) as u32, count: (run_end(rt, i) - run_start(rt, i)) as u32 }
}

/// The last row, below `i`, of trip `t` (or -1 if there is none).
pub open spec fn last_row(rt: Seq<u32>, t: int, i: int) -> int
    decreases i,
{
    if i <= 0 {
        -1
    } else if rt[i - 1] == t {
        i - 1
    } else {
        last_row(rt, t, i - 1)
    }
}

/// Row `j1` comes before row `j2` within a run: by sequence, then by row.
pub open spec fn row_before(data: GtfsData, j1: int, j2: int) -> bool {
    let s1 = data.stop_times@[j1].stop_sequence;
    let s2 = data.stop_times@[j2].stop_sequence;
    s1 < s2 || (s1 == s2 && j1 < j2)
}

/// The stop times `sts` hold the rows of `data` run by run: position `k`
/// holds the stop time read from row `src[k]` of the same run, knows its
/// place and its run's slice, and within a run the rows come by sequence,
/// then in row order.
pub open spec fn placed(data: GtfsData, sts: Seq<StopTime>, src: Seq<int>) -> bool {
    let rt = row_trips(data);
    &&& src.len() == sts.len()
    &&& forall|k: int|
        0 <= k < sts.len() ==> {
            &&& from_row(data, #[trigger] sts[k], src[k])
            &&& run_start(rt, src[k]) == run_start(rt, k)
            &&& sts[k].index == k
            &&& sts[k].slice == run_slice(rt, k)
            &&& sts[k].internal_idx == k - run_start(rt, k)
        }
    &&& forall|k1: int, k2: int|
        0 <= k1 < k2 < sts.len() && run_start(rt, k1) == run_start(rt, k2) ==> row_before(
            data,
            #[trigger] src[k1],
            #[trigger] src[k2],
        )
}

/// Rows `a..b`, all of one trip, form a whole run: each of them has the
/// run's start and end.
pub proof fn lemma_run_bounds(rt: Seq<u32>, a: int, b: int)
    requires
        0 <= a < b <= rt.len(),
        forall|r: int| a <= r < b ==> #[trigger] rt[r] == rt[a],
        a == 0 || rt[a - 1] != rt[a],
        b == rt.len() || rt[b] != rt[a],
    ensures
        forall|k: int| a <= k < b ==> run_start(rt, k) == a && run_end(rt, k) == b,
{
    assert forall|k: int| a <= k < b implies run_start(rt, k) == a by {
        lemma_run_start_at(rt, a, k);
    }
    assert forall|k: int| a <= k < b implies run_end(rt, k) == b by {
        lemma_run_end_at(rt, b, k);
    }
}

/// Rows `a..b` of trip `trip`, after rows of another trip (or at the
/// start) and before a row of another trip (or at the end), form a run.
proof fn lemma_run_closed(rt: Seq<u32>, a: int, b: int, trip: u32)
    requires
        0 <= a < b <= rt.len(),
        forall|m: int| 0 <= m < b - a ==> #[trigger] rt[a + m] == trip,
        a == 0 || rt[a - 1] != trip,
        b == rt.len() || rt[b] != trip,
    ensures
        forall|k: int| a <= k < b ==> run_start(rt, k) == a && run_end(rt, k) == b,
{
    assert forall|r: int| a <= r < b implies #[trigger] rt[r] == rt[a] by {
        assert(rt[a + (r - a)] == trip);
        assert(rt[a + 0] == trip);
    }
    assert(rt[a + 0] == trip);
    lemma_run_bounds(rt, a, b);
}

/// Appending a whole run of rows `a..b`, read in order from the rows
/// `added` of that run ordered by sequence then row, keeps the stop times
/// placed.
proof fn lemma_placed_extend(
    data: GtfsData,
    old_sts: Seq<StopTime>,
    sts: Seq<StopTime>,
    src: Seq<int>,
    added: Seq<int>,
    a: int,
    b: int,
)
    requires
        placed(data, old_sts, src),
        old_sts.len() == a,
        sts.len() == b,
        0 <= a < b <= data.stop_times@.len(),
        data.stop_times@.len() < u32::MAX,
        sts.subrange(0, a) == old_sts,
        added.len() == b - a,
        forall|k: int| a <= k < b ==> run_start(row_trips(data), k) == a && run_end(row_trips(data), k) == b,
        forall|m: int|
            0 <= m < b - a ==> {
                let st = #[trigger] sts[a + m];
                &&& from_row(data, st, added[m])
                &&& a <= added[m] < b
                &&& st.index == a + m
                &&& st.internal_idx == m
                &&& st.slice == (StopTimeSlice { start_idx: a as u32, count: (b - a) as u32 })
            },
        forall|m1: int, m2: int| 0 <= m1 < m2 < b - a ==> row_before(data, #[trigger] added[m1], #[trigger] added[m2]),
    ensures
        placed(data, sts, src + added),
{
    let rt = row_trips(data);
    let src2 = src + added;
    assert forall|k: int| 0 <= k < sts.len() implies {
        &&& from_row(data, #[trigger] sts[k], src2[k])
        &&& run_start(rt, src2[k]) == run_start(rt, k)
        &&& sts[k].index == k
        &&& sts[k].slice == run_slice(rt, k)
        &&& sts[k].internal_idx == k - run_start(rt, k)
    } by {
        if k < a {
            assert(sts.subrange(0, a)[k] == sts[k]);
            assert(src2[k] == src[k]);
        } else {
            let m = k - a;
            assert(sts[a + m] == sts[k]);
            assert(src2[k] == added[m]);
        }
    }
    assert forall|k1: int, k2: int|
        0 <= k1 < k2 < sts.len() && run_start(rt, k1) == run_start(rt, k2) implies row_before(
        data,
        #[trigger] src2[k1],
        #[trigger] src2[k2],
    ) by {
        if k2 < a {
            assert(src2[k1] == src[k1] && src2[k2] == src[k2]);
        } else if k1 < a {
            lemma_run_contains(rt, k1);
        } else {
            assert(src2[k1] == added[k1 - a] && src2[k2] == added[k2 - a]);
        }
    }
}

/// After the run `a..i` of trip `current` became its slice, the trips whose
/// last row below `i` lies in a finished run have that run as their slice.
proof fn lemma_slices_after_flush(
    rt: Seq<u32>,
    old_slices: Seq<StopTimeSlice>,
    slices: Seq<StopTimeSlice>,
    nt: int,
    a: int,
    i: int,
    current: u32,
)
    requires
        0 <= a < i <= rt.len(),
        rt.len() < u32::MAX,
        current < nt,
        old_slices.len() == nt,
        forall|m: int| 0 <= m < i - a ==> #[trigger] rt[a + m] == current,
        forall|k: int| a <= k < i ==> run_start(rt, k) == a && run_end(rt, k) == i,
        slices == old_slices.update(current as int, StopTimeSlice { start_idx: a as u32, count: (i - a) as u32 }),
        forall|u: int|
            0 <= u < nt && 0 <= last_row(rt, u, i) < a ==> #[trigger] old_slices[u] == run_slice(
                rt,
                last_row(rt, u, i),
            ),
    ensures
        forall|u: int|
            0 <= u < nt && 0 <= last_row(rt, u, i) < i ==> #[trigger] slices[u] == run_slice(rt, last_row(rt, u, i)),
{
    assert(rt[a + (i - 1 - a)] == current);
    assert forall|u: int| 0 <= u < nt && 0 <= last_row(rt, u, i) < i implies #[trigger] slices[u] == run_slice(
        rt,
        last_row(rt, u, i),
    ) by {
        let l = last_row(rt, u, i);
        lemma_last_row(rt, u, i);
        if u == current {
            assert(l >= i - 1);
        } else if l >= a {
            assert(rt[a + (l - a)] == current);
        }
    }
}

/// Moving on past row `i`, the claim about the slices of trips whose last
/// row lies before `a` (with `a <= i`) carries over.
proof fn lemma_slices_next_row(rt: Seq<u32>, slices: Seq<StopTimeSlice>, nt: int, i: int, a: int)
    requires
        0 <= a <= i < rt.len(),
        forall|u: int|
            0 <= u < nt && 0 <= last_row(rt, u, i) < a ==> #[trigger] slices[u] == run_slice(rt, last_row(rt, u, i)),
    ensures
        forall|u: int|
            0 <= u < nt && 0 <= last_row(rt, u, i + 1) < a ==> #[trigger] slices[u] == run_slice(
                rt,
                last_row(rt, u, i + 1),
            ),
{
    assert forall|u: int| 0 <= u < nt && 0 <= last_row(rt, u, i + 1) < a implies #[trigger] slices[u] == run_slice(
        rt,
        last_row(rt, u, i + 1),
    ) by {
        assert(last_row(rt, u, i + 1) == if rt[i] == u {
            i
        } else {
            last_row(rt, u, i)
        });
    }
}

/// A row lies in its run, which lies within the rows.
pub proof fn lemma_run_contains(rt: Seq<u32>, k: int)
    requires
        0 <= k < rt.len(),
    ensures
        0 <= run_start(rt, k) <= k < run_end(rt, k) <= rt.len(),
    decreases rt.len() - k,
{
    lemma_run_start_le(rt, k);
    if !(k + 1 >= rt.len() || rt[k + 1] != rt[k]) {
        lemma_run_contains(rt, k + 1);
    }
}

proof fn lemma_run_start_le(rt: Seq<u32>, k: int)
    requires
        0 <= k < rt.len(),
    ensures
        0 <= run_start(rt, k) <= k,
    decreases k,
{
    if !(k <= 0 || rt[k - 1] != rt[k]) {
        lemma_run_start_le(rt, k - 1);
    }
}

/// The last row of trip `t` below `i` is a row of `t`, and no later row
/// below `i` is.
pub proof fn lemma_last_row(rt: Seq<u32>, t: int, i: int)
    requires
        0 <= i <= rt.len(),
    ensures
        -1 <= last_row(rt, t, i) < i,
        last_row(rt, t, i) >= 0 ==> rt[last_row(rt, t, i)] == t,
        forall|j: int| 0 <= j < i && rt[j] == t ==> j <= last_row(rt, t, i),
    decreases i,
{
    if i > 0 && rt[i - 1] != t {
        lemma_last_row(rt, t, i - 1);
    }
}

proof fn lemma_run_start_at(rt: Seq<u32>, a: int, k: int)
    requires
        0 <= a <= k < rt.len(),
        forall|r: int| a <= r <= k ==> #[trigger] rt[r] == rt[a],
        a == 0 || rt[a - 1] != rt[a],
    ensures
        run_start(rt, k) == a,
    decreases k - a,
{
    if k > a {
        assert(rt[k - 1] == rt[k]);
        lemma_run_start_at(rt, a, k - 1);
    }
}

proof fn lemma_run_end_at(rt: Seq<u32>, b: int, k: int)
    requires
        0 <= k < b <= rt.len(),
        forall|r: int| k <= r < b ==> #[trigger] rt[r] == rt[k],
        b == rt.len() || rt[b] != rt[k],
    ensures
        run_end(rt, k) == b,
    decreases b - k,
{
    if k + 1 < b {
        assert(rt[k + 1] == rt[k]);
        lemma_run_end_at(rt, b, k + 1);
    }
}

/// Every stop time is read from some row.
pub open spec fn read_from_rows(data: GtfsData, sts: Seq<StopTime>) -> bool {
    forall|k: int| 0 <= k < sts.len() ==> #[trigger] read_from_some_row(data, sts[k])
}

/// Stop time `st` is read from some row.
pub open spec fn read_from_some_row(data: GtfsData, st: StopTime) -> bool {
    exists|j: int| from_row(data, st, j)
}

/// The slice of trip `t` lies within `sts`, and its stop times belong to
/// `t`, know their place, and are ordered by sequence.
pub open spec fn slice_holds(sts: Seq<StopTime>, sl: StopTimeSlice, t: int) -> bool {
    &&& sl.start_idx + sl.count <= sts.len()
    &&& forall|k: int|
        0 <= k < sl.count ==> {
            let st = #[trigger] sts[sl.start_idx + k];
            &&& st.trip_idx == t
            &&& st.internal_idx == k
            &&& st.slice == sl
            &&& st.index == sl.start_idx + k
        }
    &&& forall|k1: int, k2: int|
        0 <= k1 <= k2 < sl.count ==> (#[trigger] sts[sl.start_idx + k1]).sequence <= (#[trigger] sts[sl.start_idx
            + k2]).sequence
}

pub open spec fn slices_hold(sts: Seq<StopTime>, slices: Seq<StopTimeSlice>) -> bool {
    forall|t: int| 0 <= t < slices.len() ==> slice_holds(sts, #[trigger] slices[t], t)
}

/// A run of rows, sorted stably by sequence, holds the same rows ordered by
/// sequence, then by row.
proof fn lemma_sorted_run(data: GtfsData, before: Seq<(u32, u32)>, sorted: Seq<(u32, u32)>, a: int)
    requires
        buffer_is_run(data, before, a),
        0 <= a,
        a + before.len() <= data.stop_times@.len(),
        sorted.len() == before.len(),
        sorted.to_multiset() == before.to_multiset(),
        forall|i: int, j: int| 0 <= i <= j < sorted.len() ==> sorted[i].0 <= sorted[j].0,
        forall|i: int, j: int| 0 <= i < j < sorted.len() && sorted[i].0 == sorted[j].0 ==> sorted[i].1 < sorted[j].1,
    ensures
        forall|m: int|
            0 <= m < sorted.len() ==> a <= (#[trigger] sorted[m]).1 < a + sorted.len() && sorted[m].0
                == data.stop_times@[sorted[m].1 as int].stop_sequence,
        forall|m1: int, m2: int|
            0 <= m1 < m2 < sorted.len() ==> row_before(data, (#[trigger] sorted[m1]).1 as int, (#[trigger] sorted[m2]).1 as int),
{
    assert forall|m: int| 0 <= m < sorted.len() implies a <= (#[trigger] sorted[m]).1 < a + sorted.len()
        && sorted[m].0 == data.stop_times@[sorted[m].1 as int].stop_sequence by {
        vstd::seq_lib::to_multiset_contains(sorted, sorted[m]);
        vstd::seq_lib::to_multiset_contains(before, sorted[m]);
        let m0 = choose|m0: int| 0 <= m0 < before.len() && before[m0] == sorted[m];
        assert(before[m0].1 == a + m0);
    }
    assert forall|m1: int, m2: int| 0 <= m1 < m2 < sorted.len() implies row_before(
        data,
        (#[trigger] sorted[m1]).1 as int,
        (#[trigger] sorted[m2]).1 as int,
    ) by {
        assert(sorted[m1].0 <= sorted[m2].0);
        if sorted[m1].0 == sorted[m2].0 {
            assert(sorted[m1].1 < sorted[m2].1);
        }
        assert(a <= sorted[m1].1 < a + sorted.len());
        assert(a <= sorted[m2].1 < a + sorted.len());
    }
}

/// The buffer holds rows `a..` in order, each with its sequence.
pub open spec fn buffer_is_run(data: GtfsData, buffer: Seq<(u32, u32)>, a: int) -> bool {
    forall|m: int|
        0 <= m < buffer.len() ==> {
            let p = #[trigger] buffer[m];
            &&& p.1 == a + m
            &&& p.0 == data.stop_times@[a + m].stop_sequence
        }
}

/// Appends the stop times of the buffered run of rows of trip `trip`,
/// ordered by sequence (rows of equal sequence in row order), as the trip's
/// slice. Gives the rows that the appended stop times are read from, in
/// order.
fn flush(
    data: &GtfsData,
    row_trip: &Vec<u32>,
    row_stop: &Vec<u32>,
    buffer: &mut Vec<(u32, u32)>,
    trip: u32,
    stop_times: &mut Vec<StopTime>,
    slices: &mut Vec<StopTimeSlice>,
) -> (added: Ghost<Seq<int>>)
    requires
        data.loadable(),
        row_trip@ == row_trips(*data),
        row_stop@ == row_stops(*data),
        trip < old(slices)@.len(),
        old(buffer)@.len() >= 1,
        old(stop_times)@.len() + old(buffer)@.len() <= data.stop_times@.len(),
        buffer_is_run(*data, old(buffer)@, old(stop_times)@.len() as int),
        forall|m: int| 0 <= m < old(buffer)@.len() ==> #[trigger] row_trips(*data)[old(stop_times)@.len() + m] == trip,
        read_from_rows(*data, old(stop_times)@),
        slices_hold(old(stop_times)@, old(slices)@),
    ensures
        final(buffer)@.len() == 0,
        final(stop_times)@.len() == old(stop_times)@.len() + old(buffer)@.len(),
        final(stop_times)@.subrange(0, old(stop_times)@.len() as int) == old(stop_times)@,
        read_from_rows(*data, final(stop_times)@),
        slices_hold(final(stop_times)@, final(slices)@),
        final(slices)@ == old(slices)@.update(
            trip as int,
            StopTimeSlice { start_idx: old(stop_times)@.len() as u32, count: old(buffer)@.len() as u32 },
        ),
        added@.len() == old(buffer)@.len(),
        forall|m: int|
            0 <= m < old(buffer)@.len() ==> {
                let st = #[trigger] final(stop_times)@[old(stop_times)@.len() + m];
                &&& from_row(*data, st, added@[m])
                &&& old(stop_times)@.len() <= added@[m] < old(stop_times)@.len() + old(buffer)@.len()
                &&& st.index == old(stop_times)@.len() + m
                &&& st.internal_idx == m
                &&& st.slice == (StopTimeSlice {
                    start_idx: old(stop_times)@.len() as u32,
                    count: old(buffer)@.len() as u32,
                })
            },
        forall|m1: int, m2: int|
            0 <= m1 < m2 < old(buffer)@.len() ==> row_before(*data, #[trigger] added@[m1], #[trigger] added@[m2]),
{
    let ghost before = buffer@;
    let ghost a = stop_times@.len() as int;
    assert forall|i: int, j: int| 0 <= i < j < before.len() implies before[i].1 < before[j].1 by {
        assert(before[i].1 == a + i && before[j].1 == a + j);
    }
    sort_by_first(buffer);
    let ghost sorted = buffer@;
    proof {
        lemma_sorted_run(*data, before, sorted, a);
    }
    let ghost rows_of = Seq::new(sorted.len(), |m: int| sorted[m].1 as int);
    let start = stop_times.len() as u32;
    let count = buffer.len() as u32;
    let slice = StopTimeSlice { start_idx: start, count };
    let ghost old_sts = stop_times@;
    let mut j: usize = 0;
    while j < buffer.len()
        invariant
            data.loadable(),
            row_trip@ == row_trips(*data),
            row_stop@ == row_stops(*data),
            buffer@ == sorted,
            forall|m: int|
                0 <= m < sorted.len() ==> a <= (#[trigger] sorted[m]).1 < a + sorted.len() && sorted[m].0
                    == data.stop_times@[sorted[m].1 as int].stop_sequence,
            forall|m: int| 0 <= m < before.len() ==> #[trigger] row_trips(*data)[a + m] == trip,
            forall|x: int, y: int| 0 <= x <= y < sorted.len() ==> sorted[x].0 <= sorted[y].0,
            j <= sorted.len(),
            a == old_sts.len(),
            start == old_sts.len(),
            count == sorted.len(),
            sorted.len() == before.len(),
            rows_of == Seq::new(sorted.len(), |m: int| sorted[m].1 as int),
            old_sts.len() + sorted.len() <= data.stop_times@.len(),
            slice == (StopTimeSlice { start_idx: start, count }),
            stop_times@.len() == old_sts.len() + j,
            stop_times@.subrange(0, old_sts.len() as int) == old_sts,
            read_from_rows(*data, stop_times@),
            forall|k: int|
                0 <= k < j ==> {
                    let st = #[trigger] stop_times@[start + k];
                    &&& st.trip_idx == trip
                    &&& st.internal_idx == k
                    &&& st.slice == slice
                    &&& st.index == start + k
                    &&& st.sequence == sorted[k].0
                    &&& from_row(*data, st, rows_of[k])
                    &&& a <= rows_of[k] < a + sorted.len()
                },
        decreases sorted.len() - j,
    {
        let (_, row) = buffer[j];
        assert(a <= row < a + sorted.len());
        assert(row_trips(*data)[a + (row - a)] == trip);
        let row_idx = row as usize;
        let src = &data.stop_times[row_idx];
        assert(times_readable(*src));
        let mut st = StopTime::from(src);
        st.trip_idx = row_trip[row_idx];
        st.stop_idx = row_stop[row_idx];
        st.internal_idx = j as u32;
        st.slice = slice;
        st.index = start + j as u32;
        assert(from_row(*data, st, row as int));
        let ghost prev = stop_times@;
        stop_times.push(st);
        proof {
            assert forall|k: int| 0 <= k < stop_times@.len() implies #[trigger] read_from_some_row(
                *data,
                stop_times@[k],
            ) by {
                if k < stop_times@.len() - 1 {
                    assert(stop_times@[k] == prev[k]);
                    assert(read_from_some_row(*data, prev[k]));
                } else {
                    assert(from_row(*data, stop_times@[k], row as int));
                }
            }
            assert(read_from_rows(*data, stop_times@));
            assert(stop_times@.subrange(0, old_sts.len() as int) =~= old_sts);
            assert(rows_of[j as int] == row as int);
        }
        j = j + 1;
    }
    buffer.clear();
    slices.set(trip as usize, slice);
    proof {
        let sts = stop_times@;
        assert forall|t: int| 0 <= t < slices@.len() implies slice_holds(sts, #[trigger] slices@[t], t) by {
            if t == trip {
                assert forall|k1: int, k2: int| 0 <= k1 <= k2 < slice.count implies (#[trigger] sts[slice.start_idx
                    + k1]).sequence <= (#[trigger] sts[slice.start_idx + k2]).sequence by {
                    assert(sts[start + k1].sequence == sorted[k1].0);
                    assert(sts[start + k2].sequence == sorted[k2].0);
                }
            } else {
                let sl = slices@[t];
                assert(slice_holds(old_sts, sl, t));
                assert forall|k: int| 0 <= k < sl.count implies #[trigger] sts[sl.start_idx + k] == old_sts[sl.start_idx + k] by {
                    assert(sts.subrange(0, old_sts.len() as int)[sl.start_idx + k] == old_sts[sl.start_idx + k]);
                }
            }
        }
        assert forall|m1: int, m2: int| 0 <= m1 < m2 < before.len() implies row_before(
            *data,
            #[trigger] rows_of[m1],
            #[trigger] rows_of[m2],
        ) by {
            assert(row_before(*data, sorted[m1].1 as int, sorted[m2].1 as int));
        }
    }
    Ghost(rows_of)
}

/// The stop times of every trip, grouped: each run of consecutive rows of
/// one trip becomes a slice ordered by sequence, and a trip whose rows come
/// in several runs keeps the last one as its slice. Also the trips that
/// call at every stop, once per call, in row order.
#[verifier::spinoff_prover]
#[verifier::rlimit(40)]
fn load_stop_times(data: &GtfsData, index: &GtfsIndex) -> (r: (Vec<StopTime>, Vec<StopTimeSlice>, Vec<Vec<u32>>))
    requires
        data.loadable(),
        index.indexes(*data),
    ensures
        r.0@.len() == data.stop_times@.len(),
        read_from_rows(*data, r.0@),
        r.1@.len() == data.trips@.len(),
        slices_hold(r.0@, r.1@),
        forall|t: int| 0 <= t < data.trips@.len() ==> (#[trigger] r.1@[t]).count >= 1,
        forall|t: int|
            0 <= t < data.trips@.len() ==> #[trigger] r.1@[t] == run_slice(
                row_trips(*data),
                last_row(row_trips(*data), t, data.stop_times@.len() as int),
            ),
        exists|src: Seq<int>| #[trigger] placed(*data, r.0@, src),
        r.2@.len() == data.stops@.len(),
        forall|s: int|
            0 <= s < data.stops@.len() ==> (#[trigger] r.2@[s])@ == bucket(
                row_stops(*data),
                row_trips(*data),
                data.stop_times@.len(),
                s,
            ),
{
    let n = data.stop_times.len();
    let nt = data.trips.len();
    let mut row_trip: Vec<u32> = Vec::new();
    let mut row_stop: Vec<u32> = Vec::new();
    let mut i: usize = 0;
    while i < n
        invariant
            data.loadable(),
            index.indexes(*data),
            n == data.stop_times@.len(),
            i <= n,
            row_trip@ == row_trips(*data).subrange(0, i as int),
            row_stop@ == row_stops(*data).subrange(0, i as int),
        decreases n - i,
    {
        let row = &data.stop_times[i];
        let t = match data.trip_position(index, row.trip_id.as_str()) {
            Some(t) => t,
            None => 0,
        };
        let s = match data.stop_position(index, row.stop_id.as_str()) {
            Some(s) => s,
            None => 0,
        };
        row_trip.push(t);
        row_stop.push(s);
        i = i + 1;
        assert(row_trip@ =~= row_trips(*data).subrange(0, i as int));
        assert(row_stop@ =~= row_stops(*data).subrange(0, i as int));
    }
    assert(row_trip@ =~= row_trips(*data));
    assert(row_stop@ =~= row_stops(*data));
    let ghost rt = row_trips(*data);
    proof {
        assert forall|j: int| 0 <= j < n implies #[trigger] rt[j] < nt by {
            assert(data.trip_row(data.stop_times@[j].trip_id@) >= 0);
            crate::repository::lemma_last_index_of_bounds(
                crate::gtfs::data::gtfs_trip_ids(data.trips@),
                data.stop_times@[j].trip_id@,
            );
        }
    }
    let mut stop_times: Vec<StopTime> = Vec::new();
    let mut slices: Vec<StopTimeSlice> = Vec::new();
    let mut t: usize = 0;
    while t < nt
        invariant
            t <= nt,
            slices@.len() == t,
            forall|u: int| 0 <= u < t ==> #[trigger] slices@[u] == (StopTimeSlice { start_idx: 0, count: 0 }),
        decreases nt - t,
    {
        slices.push(StopTimeSlice { start_idx: 0, count: 0 });
        t = t + 1;
    }
    let mut buffer: Vec<(u32, u32)> = Vec::new();
    let mut current: u32 = 0;
    let mut has_current = false;
    let ghost mut src: Seq<int> = Seq::empty();
    i = 0;
    while i < n
        invariant
            data.loadable(),
            index.indexes(*data),
            n == data.stop_times@.len(),
            nt == data.trips@.len(),
            row_trip@ == rt,
            rt == row_trips(*data),
            row_stop@ == row_stops(*data),
            forall|j: int| 0 <= j < n ==> #[trigger] rt[j] < nt,
            i <= n,
            stop_times@.len() + buffer@.len() == i,
            slices@.len() == nt,
            has_current ==> buffer@.len() >= 1 && current < nt,
            !has_current ==> i == 0 && buffer@.len() == 0,
            buffer_is_run(*data, buffer@, stop_times@.len() as int),
            forall|m: int| 0 <= m < buffer@.len() ==> #[trigger] rt[stop_times@.len() + m] == current,
            has_current ==> stop_times@.len() == 0 || rt[stop_times@.len() - 1] != current,
            read_from_rows(*data, stop_times@),
            slices_hold(stop_times@, slices@),
            placed(*data, stop_times@, src),
            forall|u: int|
                0 <= u < nt && 0 <= last_row(rt, u, i as int) < stop_times@.len() ==> #[trigger] slices@[u]
                    == run_slice(rt, last_row(rt, u, i as int)),
        decreases n - i,
    {
        let t = row_trip[i];
        if has_current && current != t {
            let ghost a = stop_times@.len() as int;
            let ghost old_sts = stop_times@;
            let ghost old_slices = slices@;
            assert(rt[a + (i - 1 - a)] == current);
            let added = flush(data, &row_trip, &row_stop, &mut buffer, current, &mut stop_times, &mut slices);
            proof {
                lemma_run_closed(rt, a, i as int, current);
                lemma_placed_extend(*data, old_sts, stop_times@, src, added@, a, i as int);
                src = src + added@;
                lemma_slices_after_flush(rt, old_slices, slices@, nt as int, a, i as int, current);
            }
        }
        let ghost a = stop_times@.len() as int;
        proof {
            lemma_slices_next_row(rt, slices@, nt as int, i as int, a);
        }
        current = t;
        has_current = true;
        let ghost before_buffer = buffer@;
        buffer.push((data.stop_times[i].stop_sequence as u32, i as u32));
        proof {
            assert forall|m: int| 0 <= m < buffer@.len() implies #[trigger] rt[stop_times@.len() + m] == current && {
                let p = buffer@[m];
                &&& p.1 == a + m
                &&& p.0 == data.stop_times@[a + m].stop_sequence
            } by {
                if m < before_buffer.len() {
                    assert(buffer@[m] == before_buffer[m]);
                }
            }
        }
        i = i + 1;
    }
    if has_current {
        let ghost a = stop_times@.len() as int;
        let ghost old_sts = stop_times@;
        let ghost old_slices = slices@;
        let added = flush(data, &row_trip, &row_stop, &mut buffer, current, &mut stop_times, &mut slices);
        proof {
            lemma_run_closed(rt, a, n as int, current);
            lemma_placed_extend(*data, old_sts, stop_times@, src, added@, a, n as int);
            src = src + added@;
            lemma_slices_after_flush(rt, old_slices, slices@, nt as int, a, n as int, current);
        }
    }
    proof {
        assert(stop_times@.len() == n);
        assert forall|u: int| 0 <= u < nt implies (#[trigger] slices@[u]).count >= 1 && slices@[u] == run_slice(
            rt,
            last_row(rt, u, n as int),
        ) by {
            assert(data.has_stop_time(u));
            let j = choose|j: int|
                0 <= j < data.stop_times@.len() && #[trigger] data.trip_row(data.stop_times@[j].trip_id@) == u;
            assert(rt[j] == u);
            lemma_last_row(rt, u, n as int);
            lemma_run_contains(rt, last_row(rt, u, n as int));
        }
    }
    let stop_to_trips = bucketize(&row_stop, &row_trip, data.stops.len());
    (stop_times, slices, stop_to_trips)
}

/// The stops that trip `t` calls at, by its slice.
pub open spec fn trip_sig(sts: Seq<StopTime>, slices: Seq<StopTimeSlice>, t: int) -> Seq<u32> {
    let sl = slices[t];
    call_ids(sts.subrange(sl.start_idx as int, sl.start_idx + sl.count))
}

/// Trip `t` calls, by its slice, at exactly `stops`, and its stop times are
/// its own.
pub open spec fn trip_on(sts: Seq<StopTime>, slices: Seq<StopTimeSlice>, t: int, stops: Seq<u32>) -> bool {
    let sl = slices[t];
    &&& 0 <= t < slices.len()
    &&& sl.count == stops.len()
    &&& forall|k: int|
        0 <= k < stops.len() ==> {
            let st = #[trigger] sts[sl.start_idx + k];
            st.stop_idx == stops[k] && st.trip_idx == t
        }
}

/// When trip `t` leaves its first stop.
pub open spec fn first_departure(sts: Seq<StopTime>, slices: Seq<StopTimeSlice>, t: int) -> u32 {
    sts[slices[t].start_idx as int].departure_time.0
}

/// The stops that a trip calls at.
fn trip_signature(stop_times: &Vec<StopTime>, slice: StopTimeSlice) -> (r: Vec<u32>)
    requires
        slice.start_idx + slice.count <= stop_times@.len(),
    ensures
        r@ == call_ids(stop_times@.subrange(slice.start_idx as int, slice.start_idx + slice.count)),
{
    let mut out: Vec<u32> = Vec::new();
    let start = slice.start_idx as usize;
    let mut k: usize = 0;
    let ghost calls = stop_times@.subrange(slice.start_idx as int, slice.start_idx + slice.count);
    let total = stop_times.len();
    while k < slice.count as usize
        invariant
            total == stop_times@.len(),
            slice.start_idx + slice.count <= stop_times@.len(),
            start == slice.start_idx,
            calls == stop_times@.subrange(slice.start_idx as int, slice.start_idx + slice.count),
            k <= slice.count,
            out@ == call_ids(calls).subrange(0, k as int),
        decreases slice.count - k,
    {
        assert(start + k < total);
        out.push(stop_times[start + k].stop_idx);
        k = k + 1;
        assert(out@ =~= call_ids(calls).subrange(0, k as int));
    }
    assert(out@ =~= call_ids(calls));
    out
}

/// Whether two lists of stops are the same.
fn same_ids(a: &Vec<u32>, b: &Vec<u32>) -> (r: bool)
    ensures
        r == (a@ == b@),
{
    if a.len() != b.len() {
        return false;
    }
    let mut k: usize = 0;
    while k < a.len()
        invariant
            a@.len() == b@.len(),
            k <= a@.len(),
            forall|j: int| 0 <= j < k ==> a@[j] == b@[j],
        decreases a@.len() - k,
    {
        if a[k] != b[k] {
            return false;
        }
        k = k + 1;
    }
    assert(a@ =~= b@);
    true
}

/// `x` is in one of the groups.
pub open spec fn in_groups(groups: Seq<Vec<u32>>, x: u32) -> bool {
    exists|g: int, m: int| 0 <= g < groups.len() && 0 <= m < groups[g]@.len() && groups[g]@[m] == x
}

/// Splits the trips of one route by the stops they call at: one group per
/// list of stops, in the order in which the lists first occur.
fn group_trips(trips: &Vec<u32>, stop_times: &Vec<StopTime>, slices: &Vec<StopTimeSlice>) -> (r: (
    Vec<Vec<u32>>,
    Vec<Vec<u32>>,
))
    requires
        forall|k: int| 0 <= k < trips@.len() ==> #[trigger] trips@[k] < slices@.len(),
        slices_hold(stop_times@, slices@),
    ensures
        r.0@.len() == r.1@.len(),
        r.0@.len() <= trips@.len(),
        forall|g: int| 0 <= g < r.1@.len() ==> (#[trigger] r.1@[g])@.len() >= 1,
        forall|g: int, m: int|
            0 <= g < r.1@.len() && 0 <= m < r.1@[g]@.len() ==> {
                let t = #[trigger] r.1@[g]@[m];
                &&& t < slices@.len()
                &&& trip_sig(stop_times@, slices@, t as int) == r.0@[g]@
                &&& trips@.contains(t)
            },
        forall|k: int| 0 <= k < trips@.len() ==> in_groups(r.1@, #[trigger] trips@[k]),
        forall|g1: int, g2: int| 0 <= g1 < g2 < r.0@.len() ==> (#[trigger] r.0@[g1])@ != (#[trigger] r.0@[g2])@,
{
    let mut sigs: Vec<Vec<u32>> = Vec::new();
    let mut groups: Vec<Vec<u32>> = Vec::new();
    let mut k: usize = 0;
    while k < trips.len()
        invariant
            forall|j: int| 0 <= j < trips@.len() ==> #[trigger] trips@[j] < slices@.len(),
            slices_hold(stop_times@, slices@),
            k <= trips@.len(),
            sigs@.len() == groups@.len(),
            sigs@.len() <= k,
            forall|g: int| 0 <= g < groups@.len() ==> (#[trigger] groups@[g])@.len() >= 1,
            forall|g: int, m: int|
                0 <= g < groups@.len() && 0 <= m < groups@[g]@.len() ==> {
                    let t = #[trigger] groups@[g]@[m];
                    &&& t < slices@.len()
                    &&& trip_sig(stop_times@, slices@, t as int) == sigs@[g]@
                    &&& trips@.contains(t)
                },
            forall|j: int| 0 <= j < k ==> in_groups(groups@, #[trigger] trips@[j]),
            forall|g1: int, g2: int| 0 <= g1 < g2 < sigs@.len() ==> (#[trigger] sigs@[g1])@ != (#[trigger] sigs@[g2])@,
        decreases trips@.len() - k,
    {
        let t = trips[k];
        let slice = slices[t as usize];
        assert(slice_holds(stop_times@, slices@[t as int], t as int));
        let sig = trip_signature(stop_times, slice);
        let mut g: usize = 0;
        let mut found = false;
        while g < sigs.len()
            invariant_except_break
                !found,
            invariant
                g <= sigs@.len(),
                forall|h: int| 0 <= h < g ==> (#[trigger] sigs@[h])@ != sig@,
            ensures
                found ==> g < sigs@.len() && sigs@[g as int]@ == sig@,
                !found ==> forall|h: int| 0 <= h < sigs@.len() ==> (#[trigger] sigs@[h])@ != sig@,
            decreases sigs@.len() - g,
        {
            if same_ids(&sigs[g], &sig) {
                found = true;
                break;
            }
            g = g + 1;
        }
        let ghost old_groups = groups@;
        if found {
            groups[g].push(t);
            proof {
                assert(groups@[g as int]@ == old_groups[g as int]@.push(t));
                assert forall|gg: int| 0 <= gg < groups@.len() && gg != g implies groups@[gg] == old_groups[gg] by {}
                assert forall|j: int| 0 <= j < k + 1 implies in_groups(groups@, #[trigger] trips@[j]) by {
                    if j < k {
                        let (gg, m) = choose|gg: int, m: int|
                            0 <= gg < old_groups.len() && 0 <= m < old_groups[gg]@.len() && old_groups[gg]@[m]
                                == trips@[j];
                        if gg == g {
                            assert(groups@[gg]@[m] == old_groups[gg]@[m]);
                        } else {
                            assert(groups@[gg] == old_groups[gg]);
                        }
                        assert(in_groups(groups@, trips@[j]));
                    } else {
                        assert(groups@[g as int]@[old_groups[g as int]@.len() as int] == trips@[j]);
                    }
                }
                assert forall|gg: int, m: int|
                    0 <= gg < groups@.len() && 0 <= m < groups@[gg]@.len() implies {
                        let tt = #[trigger] groups@[gg]@[m];
                        &&& tt < slices@.len()
                        &&& trip_sig(stop_times@, slices@, tt as int) == sigs@[gg]@
                        &&& trips@.contains(tt)
                    } by {
                    if gg != g {
                        assert(groups@[gg] == old_groups[gg]);
                    } else if m < old_groups[gg]@.len() {
                        assert(groups@[gg]@[m] == old_groups[gg]@[m]);
                    } else {
                        assert(trips@[k as int] == t);
                    }
                }
            }
        } else {
            let mut one: Vec<u32> = Vec::new();
            one.push(t);
            sigs.push(sig);
            groups.push(one);
            proof {
                assert forall|j: int| 0 <= j < k + 1 implies in_groups(groups@, #[trigger] trips@[j]) by {
                    if j < k {
                        let (gg, m) = choose|gg: int, m: int|
                            0 <= gg < old_groups.len() && 0 <= m < old_groups[gg]@.len() && old_groups[gg]@[m]
                                == trips@[j];
                        assert(groups@[gg] == old_groups[gg]);
                        assert(groups@[gg]@[m] == trips@[j]);
                    } else {
                        assert(groups@[old_groups.len() as int]@[0] == trips@[j]);
                    }
                }
                assert forall|gg: int, m: int|
                    0 <= gg < groups@.len() && 0 <= m < groups@[gg]@.len() implies {
                        let tt = #[trigger] groups@[gg]@[m];
                        &&& tt < slices@.len()
                        &&& trip_sig(stop_times@, slices@, tt as int) == sigs@[gg]@
                        &&& trips@.contains(tt)
                    } by {
                    if gg < old_groups.len() {
                        assert(groups@[gg] == old_groups[gg]);
                    } else {
                        assert(trips@[k as int] == t);
                    }
                }
            }
        }
        k = k + 1;
    }
    (sigs, groups)
}

/// The trips of a group, ordered by when they leave their first stop.
fn order_trips(group: &Vec<u32>, stop_times: &Vec<StopTime>, slices: &Vec<StopTimeSlice>) -> (r: Vec<u32>)
    requires
        forall|m: int| 0 <= m < group@.len() ==> #[trigger] group@[m] < slices@.len(),
        slices_hold(stop_times@, slices@),
        forall|t: int| 0 <= t < slices@.len() ==> (#[trigger] slices@[t]).count >= 1,
    ensures
        r@.len() == group@.len(),
        forall|m: int| 0 <= m < r@.len() ==> group@.contains(#[trigger] r@[m]),
        forall|m: int| 0 <= m < group@.len() ==> r@.contains(#[trigger] group@[m]),
        forall|a: int, b: int|
            0 <= a <= b < r@.len() ==> first_departure(stop_times@, slices@, #[trigger] r@[a] as int)
                <= first_departure(stop_times@, slices@, #[trigger] r@[b] as int),
{
    let mut pairs: Vec<(u32, u32)> = Vec::new();
    let mut m: usize = 0;
    while m < group.len()
        invariant
            forall|j: int| 0 <= j < group@.len() ==> #[trigger] group@[j] < slices@.len(),
            slices_hold(stop_times@, slices@),
            forall|t: int| 0 <= t < slices@.len() ==> (#[trigger] slices@[t]).count >= 1,
            m <= group@.len(),
            pairs@.len() == m,
            forall|j: int|
                0 <= j < m ==> (#[trigger] pairs@[j]).1 == group@[j] && pairs@[j].0 == first_departure(
                    stop_times@,
                    slices@,
                    group@[j] as int,
                ),
        decreases group@.len() - m,
    {
        let t = group[m];
        let slice = slices[t as usize];
        assert(slice_holds(stop_times@, slices@[t as int], t as int));
        assert(slices@[t as int].count >= 1);
        let departure = stop_times[slice.start_idx as usize].departure_time.0;
        pairs.push((departure, t));
        m = m + 1;
    }
    let ghost before = pairs@;
    sort_by_first(&mut pairs);
    let ghost sorted = pairs@;
    assert forall|j: int| 0 <= j < sorted.len() implies exists|j0: int|
        0 <= j0 < before.len() && before[j0] == #[trigger] sorted[j] by {
        vstd::seq_lib::to_multiset_contains(sorted, sorted[j]);
        vstd::seq_lib::to_multiset_contains(before, sorted[j]);
    }
    let mut out: Vec<u32> = Vec::new();
    let mut j: usize = 0;
    while j < pairs.len()
        invariant
            pairs@ == sorted,
            sorted.len() == group@.len(),
            forall|a: int, b: int| 0 <= a <= b < sorted.len() ==> sorted[a].0 <= sorted[b].0,
            forall|jj: int|
                0 <= jj < sorted.len() ==> exists|j0: int|
                    0 <= j0 < before.len() && before[j0] == #[trigger] sorted[jj],
            forall|jj: int|
                0 <= jj < before.len() ==> (#[trigger] before[jj]).1 == group@[jj] && before[jj].0
                    == first_departure(stop_times@, slices@, group@[jj] as int),
            j <= sorted.len(),
            out@.len() == j,
            forall|jj: int| 0 <= jj < j ==> #[trigger] out@[jj] == sorted[jj].1,
        decreases sorted.len() - j,
    {
        out.push(pairs[j].1);
        j = j + 1;
    }
    proof {
        assert forall|jj: int|
            0 <= jj < sorted.len() implies group@.contains(sorted[jj].1) && sorted[jj].0 == first_departure(
                stop_times@,
                slices@,
                #[trigger] sorted[jj].1 as int,
            ) by {
            let j0 = choose|j0: int| 0 <= j0 < before.len() && before[j0] == sorted[jj];
            assert(before[j0].1 == group@[j0]);
        }
        assert forall|mm: int| 0 <= mm < out@.len() implies group@.contains(#[trigger] out@[mm]) by {
            assert(out@[mm] == sorted[mm].1);
        }
        assert forall|mm: int| 0 <= mm < group@.len() implies out@.contains(#[trigger] group@[mm]) by {
            vstd::seq_lib::to_multiset_contains(before, before[mm]);
            vstd::seq_lib::to_multiset_contains(sorted, before[mm]);
            let jj = choose|jj: int| 0 <= jj < sorted.len() && sorted[jj] == before[mm];
            assert(out@[jj] == group@[mm]);
        }
        assert forall|a: int, b: int|
            0 <= a <= b < out@.len() implies first_departure(stop_times@, slices@, #[trigger] out@[a] as int)
                <= first_departure(stop_times@, slices@, #[trigger] out@[b] as int) by {
            assert(out@[a] == sorted[a].1);
            assert(out@[b] == sorted[b].1);
            assert(sorted[a].0 <= sorted[b].0);
        }
    }
    out
}

/// The total length of the first `m` lists.
pub open spec fn sum_lens(lists: Seq<Vec<u32>>, m: nat) -> nat
    decreases m,
{
    if m == 0 {
        0
    } else {
        sum_lens(lists, (m - 1) as nat) + lists[m - 1]@.len()
    }
}

/// The shape id of each shape point row.
pub open spec fn shape_ids(keys: Seq<(u32, u32)>) -> Seq<u32> {
    Seq::new(keys.len(), |i: int| keys[i].0)
}

/// One more than the largest shape id (0 when there are no rows): the
/// number of shape ids the rows are grouped under.
pub open spec fn shape_count(keys: Seq<(u32, u32)>) -> nat
    decreases keys.len(),
{
    if keys.len() == 0 {
        0
    } else {
        let m = shape_count(keys.drop_last());
        if keys.last().0 + 1 > m {
            (keys.last().0 + 1) as nat
        } else {
            m
        }
    }
}

/// Shape point row `r1` comes before row `r2` of the same shape: by
/// sequence, then in row order.
pub open spec fn shape_before(keys: Seq<(u32, u32)>, r1: int, r2: int) -> bool {
    keys[r1].1 < keys[r2].1 || (keys[r1].1 == keys[r2].1 && r1 < r2)
}

/// The rows of `bucket(keys, rows(..), n, b)` are the rows below `n` with
/// key `b`, in increasing order.
pub proof fn lemma_bucket_rows(keys: Seq<u32>, total: nat, n: nat, b: int)
    requires
        n <= total,
        total <= u32::MAX,
    ensures
        forall|i: int|
            0 <= i < bucket(keys, rows(total), n, b).len() ==> {
                let v = #[trigger] bucket(keys, rows(total), n, b)[i];
                &&& v < n
                &&& keys[v as int] == b
            },
        forall|i: int, j: int|
            0 <= i < j < bucket(keys, rows(total), n, b).len() ==> #[trigger] bucket(keys, rows(total), n, b)[i]
                < #[trigger] bucket(keys, rows(total), n, b)[j],
        forall|r: int| 0 <= r < n && keys[r] == b ==> #[trigger] bucket(keys, rows(total), n, b).contains(r as u32),
    decreases n,
{
    if n > 0 {
        let m = (n - 1) as nat;
        lemma_bucket_rows(keys, total, m, b);
        let init = bucket(keys, rows(total), m, b);
        let cur = bucket(keys, rows(total), n, b);
        assert(rows(total)[m as int] == m as u32);
        assert forall|i: int| 0 <= i < cur.len() implies {
            let v = #[trigger] cur[i];
            &&& v < n
            &&& keys[v as int] == b
        } by {
            if i < init.len() {
                assert(cur[i] == init[i]);
            }
        }
        assert forall|i: int, j: int| 0 <= i < j < cur.len() implies #[trigger] cur[i] < #[trigger] cur[j] by {
            if j < init.len() {
                assert(cur[i] == init[i] && cur[j] == init[j]);
            } else {
                assert(cur[i] == init[i]);
                assert(init[i] < m);
            }
        }
        assert forall|r: int| 0 <= r < n && keys[r] == b implies #[trigger] cur.contains(r as u32) by {
            if r < m {
                assert(init.contains(r as u32));
                let k = choose|k: int| 0 <= k < init.len() && init[k] == r as u32;
                assert(cur[k] == init[k]);
            } else {
                assert(cur[init.len() as int] == m as u32);
            }
        }
    }
}

/// The rows `order[sl.0 .. sl.0 + sl.1]` are exactly the rows of shape `c`,
/// ordered by sequence, then in row order.
pub open spec fn group_ok(keys: Seq<(u32, u32)>, order: Seq<u32>, sl: (u32, u32), c: int) -> bool {
    &&& sl.0 + sl.1 <= order.len()
    &&& forall|i: int|
        0 <= i < sl.1 ==> {
            let row = #[trigger] order[sl.0 + i];
            row < keys.len() && keys[row as int].0 == c
        }
    &&& forall|i: int, j: int|
        0 <= i < j < sl.1 ==> shape_before(keys, #[trigger] order[sl.0 + i] as int, #[trigger] order[sl.0 + j] as int)
    &&& forall|x: int|
        0 <= x < keys.len() && keys[x].0 == c ==> exists|i: int| 0 <= i < sl.1 && #[trigger] order[sl.0 + i] == x as u32
}

/// A group stays in place when rows are appended after it.
proof fn lemma_group_kept(keys: Seq<(u32, u32)>, old_order: Seq<u32>, order: Seq<u32>, sl: (u32, u32), c: int)
    requires
        group_ok(keys, old_order, sl, c),
        old_order.len() <= order.len(),
        order.subrange(0, old_order.len() as int) == old_order,
    ensures
        group_ok(keys, order, sl, c),
{
    assert forall|i: int| 0 <= i < sl.1 implies #[trigger] order[sl.0 + i] == old_order[sl.0 + i] by {
        assert(order.subrange(0, old_order.len() as int)[sl.0 + i] == old_order[sl.0 + i]);
    }
    assert forall|x: int| 0 <= x < keys.len() && keys[x].0 == c implies exists|i: int|
        0 <= i < sl.1 && #[trigger] order[sl.0 + i] == x as u32 by {
        let i = choose|i: int| 0 <= i < sl.1 && #[trigger] old_order[sl.0 + i] == x as u32;
        assert(order[sl.0 + i] == old_order[sl.0 + i]);
    }
}

/// The rows of shape `c` (`bk`, in row order) paired with their sequences
/// and sorted stably by sequence, then appended at `start`, form the group
/// of shape `c`.
proof fn lemma_group_new(
    keys: Seq<(u32, u32)>,
    bk: Seq<u32>,
    before: Seq<(u32, u32)>,
    sorted: Seq<(u32, u32)>,
    order: Seq<u32>,
    start: int,
    c: int,
)
    requires
        keys.len() <= u32::MAX,
        forall|i: int|
            0 <= i < bk.len() ==> {
                let v = #[trigger] bk[i];
                &&& v < keys.len()
                &&& keys[v as int].0 == c
            },
        forall|r: int| 0 <= r < keys.len() && keys[r].0 == c ==> #[trigger] bk.contains(r as u32),
        before.len() == bk.len(),
        forall|x: int| 0 <= x < bk.len() ==> #[trigger] before[x] == (keys[bk[x] as int].1, bk[x]),
        sorted.len() == before.len(),
        forall|x: int| 0 <= x < sorted.len() ==> before.contains(#[trigger] sorted[x]),
        forall|x: int| 0 <= x < before.len() ==> sorted.contains(#[trigger] before[x]),
        forall|i: int, j: int| 0 <= i <= j < sorted.len() ==> sorted[i].0 <= sorted[j].0,
        forall|i: int, j: int| 0 <= i < j < sorted.len() && sorted[i].0 == sorted[j].0 ==> sorted[i].1 < sorted[j].1,
        0 <= start,
        start + sorted.len() == order.len(),
        order.len() <= u32::MAX,
        forall|x: int| 0 <= x < sorted.len() ==> #[trigger] order[start + x] == sorted[x].1,
    ensures
        group_ok(keys, order, (start as u32, sorted.len() as u32), c),
{
    assert forall|x: int| 0 <= x < sorted.len() implies (#[trigger] sorted[x]).1 < keys.len() && keys[sorted[x].1 as int].0
        == c && sorted[x].0 == keys[sorted[x].1 as int].1 by {
        let y = choose|y: int| 0 <= y < before.len() && before[y] == sorted[x];
        assert(before[y] == (keys[bk[y] as int].1, bk[y]));
    }
    let sl = (start as u32, sorted.len() as u32);
    assert forall|i: int| 0 <= i < sl.1 implies {
        let row = #[trigger] order[sl.0 + i];
        row < keys.len() && keys[row as int].0 == c
    } by {
        assert(order[start + i] == sorted[i].1);
    }
    assert forall|i: int, j: int| 0 <= i < j < sl.1 implies shape_before(
        keys,
        #[trigger] order[sl.0 + i] as int,
        #[trigger] order[sl.0 + j] as int,
    ) by {
        assert(order[start + i] == sorted[i].1);
        assert(order[start + j] == sorted[j].1);
        if sorted[i].0 == sorted[j].0 {
            assert(sorted[i].1 < sorted[j].1);
        }
    }
    assert forall|x: int| 0 <= x < keys.len() && keys[x].0 == c implies exists|i: int|
        0 <= i < sl.1 && #[trigger] order[sl.0 + i] == x as u32 by {
        assert(bk.contains(x as u32));
        let y = choose|y: int| 0 <= y < bk.len() && bk[y] == x as u32;
        assert(before[y] == (keys[bk[y] as int].1, bk[y]));
        assert(sorted.contains(before[y]));
        let i = choose|i: int| 0 <= i < sorted.len() && sorted[i] == before[y];
        assert(sl.0 + i == start + i);
        assert(order[sl.0 + i] == x as u32);
        assert(0 <= i < sl.1);
    }
}

/// `order` is a permutation of the shape point rows in which each shape's
/// rows stand together, ordered by sequence (rows of equal sequence in row
/// order), and `slices` gives for each shape id, in the order of the ids,
/// the (start, count) of its rows in `order`; the slices follow each other
/// and cover `order`.
pub open spec fn shapes_grouped(keys: Seq<(u32, u32)>, order: Seq<u32>, slices: Seq<(u32, u32)>) -> bool {
    &&& order.len() == keys.len()
    &&& slices.len() == shape_count(keys)
    &&& forall|j: int| 0 <= j < keys.len() ==> #[trigger] order.contains(j as u32)
    &&& forall|b: int|
        0 <= b < slices.len() ==> {
            let sl = #[trigger] slices[b];
            &&& sl.1 == bucket(shape_ids(keys), rows(keys.len()), keys.len(), b).len()
            &&& sl.0 == (if b == 0 {
                0
            } else {
                slices[b - 1].0 + slices[b - 1].1
            })
            &&& group_ok(keys, order, sl, b)
        }
    &&& slices.len() > 0 ==> slices.last().0 + slices.last().1 == keys.len()
}

/// Groups shape point rows by shape, from the (shape id, sequence) of each
/// row: gives an order of the rows in which each shape's rows are together,
/// ordered by sequence (rows of equal sequence in row order), and for each
/// shape id the (start, count) of its rows in that order. Shapes come in
/// the order of their ids.
#[verifier::spinoff_prover]
#[verifier::rlimit(40)]
fn load_shapes(shape_keys: &Vec<(u32, u32)>) -> (r: (Vec<u32>, Vec<(u32, u32)>))
    requires
        shape_keys@.len() <= u32::MAX,
        forall|k: int| 0 <= k < shape_keys@.len() ==> #[trigger] shape_keys@[k].0 < u32::MAX,
    ensures
        shapes_grouped(shape_keys@, r.0@, r.1@),
{
    let n = shape_keys.len();
    let ghost keys = shape_keys@;
    let ghost ids_spec = shape_ids(keys);
    let mut ids: Vec<u32> = Vec::new();
    let mut vals: Vec<u32> = Vec::new();
    let mut m: u32 = 0;
    let mut i: usize = 0;
    while i < n
        invariant
            n == keys.len(),
            keys == shape_keys@,
            ids_spec == shape_ids(keys),
            n <= u32::MAX,
            forall|k: int| 0 <= k < n ==> #[trigger] keys[k].0 < u32::MAX,
            i <= n,
            ids@ == ids_spec.subrange(0, i as int),
            vals@ == rows(n as nat).subrange(0, i as int),
            m == shape_count(keys.subrange(0, i as int)),
            forall|k: int| 0 <= k < i ==> #[trigger] keys[k].0 < m,
        decreases n - i,
    {
        proof {
            let nxt = keys.subrange(0, i + 1);
            assert(nxt.drop_last() =~= keys.subrange(0, i as int));
            assert(nxt.last() == keys[i as int]);
        }
        let id = shape_keys[i].0;
        ids.push(id);
        vals.push(i as u32);
        if id + 1 > m {
            m = id + 1;
        }
        i = i + 1;
        assert(ids@ =~= ids_spec.subrange(0, i as int));
        assert(vals@ =~= rows(n as nat).subrange(0, i as int));
    }
    assert(ids@ =~= ids_spec);
    assert(vals@ =~= rows(n as nat));
    assert(keys.subrange(0, n as int) =~= keys);
    let buckets = bucketize(&ids, &vals, m as usize);
    proof {
        assert forall|k: int| 0 <= k < n implies #[trigger] ids_spec[k] < m by {
            assert(keys[k].0 < m);
        }
        lemma_bucket_total(ids_spec, rows(n as nat), n as nat, m as nat);
    }
    let mut order: Vec<u32> = Vec::new();
    let mut slices: Vec<(u32, u32)> = Vec::new();
    let mut b: usize = 0;
    while b < m as usize
        invariant
            n == keys.len(),
            keys == shape_keys@,
            ids_spec == shape_ids(keys),
            n <= u32::MAX,
            forall|k: int| 0 <= k < n ==> #[trigger] keys[k].0 < m,
            buckets@.len() == m,
            forall|c: int| 0 <= c < m ==> (#[trigger] buckets@[c])@ == bucket(ids_spec, rows(n as nat), n as nat, c),
            bucket_total(ids_spec, rows(n as nat), n as nat, m as nat) == n,
            b <= m,
            slices@.len() == b,
            order@.len() == bucket_total(ids_spec, rows(n as nat), n as nat, b as nat),
            forall|c: int|
                0 <= c < b ==> {
                    let sl = #[trigger] slices@[c];
                    &&& sl.1 == bucket(ids_spec, rows(n as nat), n as nat, c).len()
                    &&& sl.0 == (if c == 0 {
                        0
                    } else {
                        slices@[c - 1].0 + slices@[c - 1].1
                    })
                    &&& group_ok(keys, order@, sl, c)
                },
            b > 0 ==> slices@[b - 1].0 + slices@[b - 1].1 == order@.len(),
        decreases m - b,
    {
        let rows_b = &buckets[b];
        let ghost bk = bucket(ids_spec, rows(n as nat), n as nat, b as int);
        proof {
            lemma_bucket_rows(ids_spec, n as nat, n as nat, b as int);
            assert(bucket_total(ids_spec, rows(n as nat), n as nat, (b + 1) as nat) == order@.len() + bk.len());
            lemma_bucket_total_mono(ids_spec, rows(n as nat), n as nat, (b + 1) as nat, m as nat);
        }
        let mut pairs: Vec<(u32, u32)> = Vec::new();
        let mut k: usize = 0;
        while k < rows_b.len()
            invariant
                n == keys.len(),
                keys == shape_keys@,
                rows_b@ == bk,
                forall|x: int| 0 <= x < bk.len() ==> #[trigger] bk[x] < n,
                k <= rows_b@.len(),
                pairs@.len() == k,
                forall|x: int| 0 <= x < k ==> #[trigger] pairs@[x] == (keys[bk[x] as int].1, bk[x]),
            decreases rows_b@.len() - k,
        {
            let row = rows_b[k];
            pairs.push((shape_keys[row as usize].1, row));
            k = k + 1;
        }
        let ghost before = pairs@;
        assert forall|x: int, y: int| 0 <= x < y < before.len() implies before[x].1 < before[y].1 by {
            assert(before[x].1 == bk[x] && before[y].1 == bk[y]);
        }
        sort_by_first(&mut pairs);
        let ghost sorted = pairs@;
        proof {
            assert forall|x: int| 0 <= x < sorted.len() implies before.contains(#[trigger] sorted[x]) by {
                vstd::seq_lib::to_multiset_contains(sorted, sorted[x]);
                vstd::seq_lib::to_multiset_contains(before, sorted[x]);
            }
            assert forall|x: int| 0 <= x < before.len() implies sorted.contains(#[trigger] before[x]) by {
                vstd::seq_lib::to_multiset_contains(before, before[x]);
                vstd::seq_lib::to_multiset_contains(sorted, before[x]);
            }
        }
        let start = order.len();
        let ghost old_order = order@;
        let mut k: usize = 0;
        while k < pairs.len()
            invariant
                pairs@ == sorted,
                k <= sorted.len(),
                order@.len() == old_order.len() + k,
                order@.subrange(0, old_order.len() as int) == old_order,
                start == old_order.len(),
                forall|x: int| 0 <= x < k ==> #[trigger] order@[start + x] == sorted[x].1,
            decreases sorted.len() - k,
        {
            order.push(pairs[k].1);
            k = k + 1;
            assert(order@.subrange(0, old_order.len() as int) =~= old_order);
        }
        proof {
            assert(order@.len() <= n);
            lemma_group_new(keys, bk, before, sorted, order@, start as int, b as int);
            assert forall|c: int| 0 <= c < b implies group_ok(keys, order@, #[trigger] slices@[c], c) by {
                lemma_group_kept(keys, old_order, order@, slices@[c], c);
            }
        }
        slices.push((start as u32, pairs.len() as u32));
        proof {
            assert forall|c: int| 0 <= c < b + 1 implies {
                let sl = #[trigger] slices@[c];
                &&& sl.1 == bucket(ids_spec, rows(n as nat), n as nat, c).len()
                &&& sl.0 == (if c == 0 {
                    0
                } else {
                    slices@[c - 1].0 + slices@[c - 1].1
                })
                &&& group_ok(keys, order@, sl, c)
            } by {
                if c == b && c == 0 {
                    assert(start == 0);
                }
            }
        }
        b = b + 1;
    }
    proof {
        assert forall|j: int| 0 <= j < n implies #[trigger] order@.contains(j as u32) by {
            let c = keys[j].0 as int;
            assert(keys[j].0 < m);
            let sl = slices@[c];
            assert(group_ok(keys, order@, sl, c));
            let i = choose|i: int| 0 <= i < sl.1 && #[trigger] order@[sl.0 + i] == j as u32;
        }
    }
    (order, slices)
}

/// The buckets of the keys below `b` hold no more than those below `m`.
proof fn lemma_bucket_total_mono(keys: Seq<u32>, vals: Seq<u32>, n: nat, b: nat, m: nat)
    requires
        b <= m,
    ensures
        bucket_total(keys, vals, n, b) <= bucket_total(keys, vals, n, m),
    decreases m - b,
{
    if b < m {
        lemma_bucket_total_mono(keys, vals, n, b, (m - 1) as nat);
    }
}

/// The total length of the buckets of the keys below `m`.
pub open spec fn bucket_total(keys: Seq<u32>, vals: Seq<u32>, n: nat, m: nat) -> nat
    decreases m,
{
    if m == 0 {
        0
    } else {
        bucket_total(keys, vals, n, (m - 1) as nat) + bucket(keys, vals, n, m - 1).len()
    }
}

proof fn lemma_bucket_total_step(keys: Seq<u32>, vals: Seq<u32>, n: nat, m: nat)
    requires
        n >= 1,
    ensures
        bucket_total(keys, vals, n, m) == bucket_total(keys, vals, (n - 1) as nat, m) + (if keys[n - 1]
            < m {
            1nat
        } else {
            0nat
        }),
    decreases m,
{
    if m > 0 {
        lemma_bucket_total_step(keys, vals, n, (m - 1) as nat);
    }
}

/// Every row lands in exactly one bucket: the buckets of all keys hold
/// `n` values together.
pub proof fn lemma_bucket_total(keys: Seq<u32>, vals: Seq<u32>, n: nat, nb: nat)
    requires
        forall|i: int| 0 <= i < n ==> #[trigger] keys[i] < nb,
    ensures
        bucket_total(keys, vals, n, nb) == n,
    decreases n,
{
    if n == 0 {
        lemma_bucket_total_empty(keys, vals, nb);
    } else {
        lemma_bucket_total(keys, vals, (n - 1) as nat, nb);
        lemma_bucket_total_step(keys, vals, n, nb);
        assert(keys[n - 1] < nb);
    }
}

proof fn lemma_bucket_total_empty(keys: Seq<u32>, vals: Seq<u32>, m: nat)
    ensures
        bucket_total(keys, vals, 0, m) == 0,
    decreases m,
{
    if m > 0 {
        lemma_bucket_total_empty(keys, vals, (m - 1) as nat);
    }
}

proof fn lemma_sum_lens_buckets(lists: Seq<Vec<u32>>, keys: Seq<u32>, vals: Seq<u32>, n: nat, m: nat)
    requires
        m <= lists.len(),
        forall|b: int| 0 <= b < m ==> (#[trigger] lists[b])@ == bucket(keys, vals, n, b),
    ensures
        sum_lens(lists, m) == bucket_total(keys, vals, n, m),
    decreases m,
{
    if m > 0 {
        lemma_sum_lens_buckets(lists, keys, vals, n, (m - 1) as nat);
        assert(lists[m - 1]@ == bucket(keys, vals, n, m - 1));
    }
}

proof fn lemma_sum_lens_mono(lists: Seq<Vec<u32>>, a: nat, b: nat)
    requires
        a <= b,
    ensures
        sum_lens(lists, a) <= sum_lens(lists, b),
    decreases b,
{
    if a < b {
        lemma_sum_lens_mono(lists, a, (b - 1) as nat);
    }
}

/// A trip that calls at `sig` by its slice runs on `sig`.
proof fn lemma_trip_on(sts: Seq<StopTime>, slices: Seq<StopTimeSlice>, t: int, sig: Seq<u32>)
    requires
        slices_hold(sts, slices),
        0 <= t < slices.len(),
        trip_sig(sts, slices, t) == sig,
    ensures
        trip_on(sts, slices, t, sig),
{
    assert(slice_holds(sts, slices[t], t));
    let sl = slices[t];
    assert forall|k: int| 0 <= k < sig.len() implies {
        let st = #[trigger] sts[sl.start_idx + k];
        st.stop_idx == sig[k] && st.trip_idx == t
    } by {
        assert(sts.subrange(sl.start_idx as int, sl.start_idx + sl.count)[k] == sts[sl.start_idx + k]);
    }
}

/// RAPTOR route `rr` sits at position `q`, belongs to a route, calls at
/// stops of the repository, and each of its trips calls at exactly its
/// stops, the trips ordered by when they leave the first stop.
pub open spec fn raptor_built(
    rr: RaptorRoute,
    q: int,
    n_routes: nat,
    n_stops: nat,
    sts: Seq<StopTime>,
    slices: Seq<StopTimeSlice>,
) -> bool {
    &&& rr.index == q
    &&& rr.route_idx < n_routes
    &&& rr.stops@.len() <= u32::MAX
    &&& forall|k: int| 0 <= k < rr.stops@.len() ==> #[trigger] rr.stops@[k] < n_stops
    &&& forall|k: int| 0 <= k < rr.trips@.len() ==> #[trigger] trip_on(sts, slices, rr.trips@[k] as int, rr.stops@)
    &&& forall|a: int, b: int|
        0 <= a <= b < rr.trips@.len() ==> first_departure(sts, slices, #[trigger] rr.trips@[a] as int)
            <= first_departure(sts, slices, #[trigger] rr.trips@[b] as int)
}

/// Trip `t` is one of the trips of some RAPTOR route of route `q`.
pub open spec fn trip_in_raptor(rrs: Seq<RaptorRoute>, q: int, t: u32) -> bool {
    exists|r: int| 0 <= r < rrs.len() && rrs[r].route_idx == q && (#[trigger] rrs[r]).trips@.contains(t)
}

/// The indices, in ascending order, of the RAPTOR routes among `rrs` that
/// belong to route `q`.
pub open spec fn raptors_of_route(rrs: Seq<RaptorRoute>, q: int) -> Seq<u32>
    decreases rrs.len(),
{
    if rrs.len() == 0 {
        Seq::empty()
    } else {
        let rest = raptors_of_route(rrs.drop_last(), q);
        if rrs.last().route_idx == q {
            rest.push((rrs.len() - 1) as u32)
        } else {
            rest
        }
    }
}

/// `r` once for each call of `stops` at stop `s`.
pub open spec fn calls_at(stops: Seq<u32>, s: int, r: u32) -> Seq<u32>
    decreases stops.len(),
{
    if stops.len() == 0 {
        Seq::empty()
    } else {
        let rest = calls_at(stops.drop_last(), s, r);
        if stops.last() == s {
            rest.push(r)
        } else {
            rest
        }
    }
}

/// The indices, in ascending order, of the RAPTOR routes among `rrs` that
/// call at stop `s`, once per call.
pub open spec fn raptors_at_stop(rrs: Seq<RaptorRoute>, s: int) -> Seq<u32>
    decreases rrs.len(),
{
    if rrs.len() == 0 {
        Seq::empty()
    } else {
        raptors_at_stop(rrs.drop_last(), s) + calls_at(rrs.last().stops@, s, (rrs.len() - 1) as u32)
    }
}

/// Two RAPTOR routes of one route call at different lists of stops.
pub open spec fn raptors_apart(rrs: Seq<RaptorRoute>) -> bool {
    forall|r1: int, r2: int|
        0 <= r1 < r2 < rrs.len() && (#[trigger] rrs[r1]).route_idx == (#[trigger] rrs[r2]).route_idx ==> rrs[r1].stops@
            != rrs[r2].stops@
}

/// Appending a RAPTOR route adds its index to the lists of its route and
/// of the stops it calls at.
proof fn lemma_raptor_lists_push(rrs: Seq<RaptorRoute>, rr: RaptorRoute, c: int)
    ensures
        raptors_of_route(rrs.push(rr), c) == if rr.route_idx == c {
            raptors_of_route(rrs, c).push(rrs.len() as u32)
        } else {
            raptors_of_route(rrs, c)
        },
        raptors_at_stop(rrs.push(rr), c) == raptors_at_stop(rrs, c) + calls_at(rr.stops@, c, rrs.len() as u32),
{
    assert(rrs.push(rr).drop_last() =~= rrs);
}

/// One more call looked at.
proof fn lemma_calls_at_step(stops: Seq<u32>, k: int, s: int, r: u32)
    requires
        0 <= k < stops.len(),
    ensures
        calls_at(stops.subrange(0, k + 1), s, r) == if stops[k] == s {
            calls_at(stops.subrange(0, k), s, r).push(r)
        } else {
            calls_at(stops.subrange(0, k), s, r)
        },
{
    assert(stops.subrange(0, k + 1).drop_last() =~= stops.subrange(0, k));
}

/// Splits every route into RAPTOR routes, whose trips all call at the same
/// stops, and lists the RAPTOR routes of every route and of every stop.
fn generate_raptor_routes(
    n_routes: usize,
    n_stops: usize,
    route_to_trips: &Vec<Vec<u32>>,
    stop_times: &Vec<StopTime>,
    slices: &Vec<StopTimeSlice>,
) -> (r: (Vec<RaptorRoute>, Vec<Vec<u32>>, Vec<Vec<u32>>))
    requires
        route_to_trips@.len() == n_routes,
        n_routes <= u32::MAX,
        lists_below(route_to_trips@, slices@.len() as nat),
        sum_lens(route_to_trips@, n_routes as nat) < u32::MAX,
        slices_hold(stop_times@, slices@),
        forall|t: int| 0 <= t < slices@.len() ==> (#[trigger] slices@[t]).count >= 1,
        forall|i: int| 0 <= i < stop_times@.len() ==> (#[trigger] stop_times@[i]).stop_idx < n_stops,
        stop_times@.len() <= u32::MAX,
    ensures
        r.0@.len() < u32::MAX,
        forall|q: int|
            0 <= q < r.0@.len() ==> raptor_built(
                #[trigger] r.0@[q],
                q,
                n_routes as nat,
                n_stops as nat,
                stop_times@,
                slices@,
            ),
        forall|q: int, k: int|
            0 <= q < n_routes && 0 <= k < route_to_trips@[q]@.len() ==> trip_in_raptor(
                r.0@,
                q,
                #[trigger] route_to_trips@[q]@[k],
            ),
        r.1@.len() == n_routes,
        lists_below(r.1@, r.0@.len()),
        r.2@.len() == n_stops,
        lists_below(r.2@, r.0@.len()),
        forall|c: int| 0 <= c < n_routes ==> (#[trigger] r.1@[c])@ == raptors_of_route(r.0@, c),
        forall|c: int| 0 <= c < n_stops ==> (#[trigger] r.2@[c])@ == raptors_at_stop(r.0@, c),
        raptors_apart(r.0@),
        forall|x: int, k: int|
            0 <= x < r.0@.len() && 0 <= k < r.0@[x].trips@.len() ==> route_to_trips@[r.0@[x].route_idx as int]@.contains(
                #[trigger] r.0@[x].trips@[k],
            ),
{
    let mut raptor_routes: Vec<RaptorRoute> = Vec::new();
    let mut route_to_raptors: Vec<Vec<u32>> = Vec::new();
    let mut stop_to_raptors: Vec<Vec<u32>> = Vec::new();
    let mut b: usize = 0;
    while b < n_routes
        invariant
            b <= n_routes,
            route_to_raptors@.len() == b,
            forall|c: int| 0 <= c < b ==> (#[trigger] route_to_raptors@[c])@.len() == 0,
        decreases n_routes - b,
    {
        route_to_raptors.push(Vec::new());
        b = b + 1;
    }
    b = 0;
    while b < n_stops
        invariant
            b <= n_stops,
            stop_to_raptors@.len() == b,
            forall|c: int| 0 <= c < b ==> (#[trigger] stop_to_raptors@[c])@.len() == 0,
        decreases n_stops - b,
    {
        stop_to_raptors.push(Vec::new());
        b = b + 1;
    }
    assert forall|c: int| 0 <= c < n_routes implies (#[trigger] route_to_raptors@[c])@ == raptors_of_route(
        raptor_routes@,
        c,
    ) by {
        assert(route_to_raptors@[c]@ =~= Seq::<u32>::empty());
    }
    assert forall|c: int| 0 <= c < n_stops implies (#[trigger] stop_to_raptors@[c])@ == raptors_at_stop(
        raptor_routes@,
        c,
    ) by {
        assert(stop_to_raptors@[c]@ =~= Seq::<u32>::empty());
    }
    let mut q: usize = 0;
    while q < n_routes
        invariant
            forall|x: int| 0 <= x < raptor_routes@.len() ==> (#[trigger] raptor_routes@[x]).route_idx < q,
            raptors_apart(raptor_routes@),
            forall|x: int, k: int|
                0 <= x < raptor_routes@.len() && 0 <= k < raptor_routes@[x].trips@.len()
                    ==> route_to_trips@[raptor_routes@[x].route_idx as int]@.contains(#[trigger] raptor_routes@[x].trips@[k]),
            forall|c: int| 0 <= c < n_routes ==> (#[trigger] route_to_raptors@[c])@ == raptors_of_route(raptor_routes@, c),
            forall|c: int| 0 <= c < n_stops ==> (#[trigger] stop_to_raptors@[c])@ == raptors_at_stop(raptor_routes@, c),
            route_to_trips@.len() == n_routes,
            n_routes <= u32::MAX,
            lists_below(route_to_trips@, slices@.len() as nat),
            sum_lens(route_to_trips@, n_routes as nat) < u32::MAX,
            slices_hold(stop_times@, slices@),
            forall|t: int| 0 <= t < slices@.len() ==> (#[trigger] slices@[t]).count >= 1,
            forall|i: int| 0 <= i < stop_times@.len() ==> (#[trigger] stop_times@[i]).stop_idx < n_stops,
            stop_times@.len() <= u32::MAX,
            q <= n_routes,
            raptor_routes@.len() <= sum_lens(route_to_trips@, q as nat),
            forall|r: int|
                0 <= r < raptor_routes@.len() ==> raptor_built(
                    #[trigger] raptor_routes@[r],
                    r,
                    n_routes as nat,
                    n_stops as nat,
                    stop_times@,
                    slices@,
                ),
            forall|qq: int, k: int|
                0 <= qq < q && 0 <= k < route_to_trips@[qq]@.len() ==> trip_in_raptor(
                    raptor_routes@,
                    qq,
                    #[trigger] route_to_trips@[qq]@[k],
                ),
            route_to_raptors@.len() == n_routes,
            lists_below(route_to_raptors@, raptor_routes@.len() as nat),
            stop_to_raptors@.len() == n_stops,
            lists_below(stop_to_raptors@, raptor_routes@.len() as nat),
        decreases n_routes - q,
    {
        let trips = &route_to_trips[q];
        proof {
            assert forall|k: int| 0 <= k < trips@.len() implies #[trigger] trips@[k] < slices@.len() by {
                assert(route_to_trips@[q as int]@[k] < slices@.len());
            }
        }
        let (sigs, groups) = group_trips(trips, stop_times, slices);
        let ghost base = raptor_routes@;
        let mut g: usize = 0;
        while g < groups.len()
            invariant
                forall|x: int| 0 <= x < base.len() ==> (#[trigger] raptor_routes@[x]).route_idx < q,
                forall|gg: int| 0 <= gg < g ==> (#[trigger] raptor_routes@[base.len() + gg]).stops@ == sigs@[gg]@,
                forall|g1: int, g2: int| 0 <= g1 < g2 < sigs@.len() ==> (#[trigger] sigs@[g1])@ != (#[trigger] sigs@[g2])@,
                raptors_apart(raptor_routes@),
                forall|x: int, k: int|
                    0 <= x < raptor_routes@.len() && 0 <= k < raptor_routes@[x].trips@.len()
                        ==> route_to_trips@[raptor_routes@[x].route_idx as int]@.contains(#[trigger] raptor_routes@[x].trips@[k]),
                n_stops == stop_to_raptors@.len(),
                forall|c: int| 0 <= c < n_routes ==> (#[trigger] route_to_raptors@[c])@ == raptors_of_route(raptor_routes@, c),
                forall|c: int| 0 <= c < n_stops ==> (#[trigger] stop_to_raptors@[c])@ == raptors_at_stop(raptor_routes@, c),
                slices_hold(stop_times@, slices@),
                forall|t: int| 0 <= t < slices@.len() ==> (#[trigger] slices@[t]).count >= 1,
                forall|i: int| 0 <= i < stop_times@.len() ==> (#[trigger] stop_times@[i]).stop_idx < n_stops,
                stop_times@.len() <= u32::MAX,
                route_to_trips@.len() == n_routes,
                n_routes <= u32::MAX,
                sum_lens(route_to_trips@, n_routes as nat) < u32::MAX,
                q < n_routes,
                trips == &route_to_trips@[q as int],
                sigs@.len() == groups@.len(),
                sigs@.len() <= trips@.len(),
                forall|gg: int| 0 <= gg < groups@.len() ==> (#[trigger] groups@[gg])@.len() >= 1,
                forall|gg: int, m: int|
                    0 <= gg < groups@.len() && 0 <= m < groups@[gg]@.len() ==> {
                        let t = #[trigger] groups@[gg]@[m];
                        &&& t < slices@.len()
                        &&& trip_sig(stop_times@, slices@, t as int) == sigs@[gg]@
                        &&& trips@.contains(t)
                    },
                forall|k: int| 0 <= k < trips@.len() ==> in_groups(groups@, #[trigger] trips@[k]),
                base.len() <= sum_lens(route_to_trips@, q as nat),
                g <= groups@.len(),
                raptor_routes@.len() == base.len() + g,
                raptor_routes@.subrange(0, base.len() as int) == base,
                forall|gg: int|
                    0 <= gg < g ==> (#[trigger] raptor_routes@[base.len() + gg]).route_idx == q,
                forall|gg: int, m: int|
                    0 <= gg < g && 0 <= m < groups@[gg]@.len() ==> raptor_routes@[base.len()
                        + gg].trips@.contains(#[trigger] groups@[gg]@[m]),
                forall|qq: int, k: int|
                    0 <= qq < q && 0 <= k < route_to_trips@[qq]@.len() ==> trip_in_raptor(
                        raptor_routes@,
                        qq,
                        #[trigger] route_to_trips@[qq]@[k],
                    ),
                forall|r: int|
                    0 <= r < raptor_routes@.len() ==> raptor_built(
                        #[trigger] raptor_routes@[r],
                        r,
                        n_routes as nat,
                        n_stops as nat,
                        stop_times@,
                        slices@,
                    ),
                route_to_raptors@.len() == n_routes,
                lists_below(route_to_raptors@, raptor_routes@.len() as nat),
                stop_to_raptors@.len() == n_stops,
                lists_below(stop_to_raptors@, raptor_routes@.len() as nat),
            decreases groups@.len() - g,
        {
            proof {
                assert(sum_lens(route_to_trips@, (q + 1) as nat) == sum_lens(route_to_trips@, q as nat)
                    + trips@.len());
                lemma_sum_lens_mono(route_to_trips@, (q + 1) as nat, n_routes as nat);
            }
            let index = raptor_routes.len() as u32;
            let sig = &sigs[g];
            let group = &groups[g];
            proof {
                assert forall|m: int| 0 <= m < group@.len() implies #[trigger] group@[m] < slices@.len() by {
                    assert(groups@[g as int]@[m] < slices@.len());
                }
            }
            let ordered = order_trips(group, stop_times, slices);
            let mut k: usize = 0;
            while k < sig.len()
                invariant
                    stop_to_raptors@.len() == n_stops,
                    lists_below(stop_to_raptors@, (index + 1) as nat),
                    forall|i: int| 0 <= i < stop_times@.len() ==> (#[trigger] stop_times@[i]).stop_idx < n_stops,
                    sig@ == trip_sig(stop_times@, slices@, group@[0] as int),
                    group@[0] < slices@.len(),
                    slices_hold(stop_times@, slices@),
                    k <= sig@.len(),
                    forall|c: int|
                        0 <= c < n_stops ==> (#[trigger] stop_to_raptors@[c])@ == raptors_at_stop(raptor_routes@, c)
                            + calls_at(sig@.subrange(0, k as int), c, index),
                decreases sig@.len() - k,
            {
                let s = sig[k] as usize;
                proof {
                    let t = group@[0] as int;
                    assert(slice_holds(stop_times@, slices@[t], t));
                    let sl = slices@[t];
                    assert(sig@[k as int] == stop_times@[sl.start_idx + k].stop_idx);
                }
                let ghost before = stop_to_raptors@;
                stop_to_raptors[s].push(index);
                proof {
                    assert forall|c: int| 0 <= c < n_stops implies (#[trigger] stop_to_raptors@[c])@ == raptors_at_stop(
                        raptor_routes@,
                        c,
                    ) + calls_at(sig@.subrange(0, k + 1), c, index) by {
                        lemma_calls_at_step(sig@, k as int, c, index);
                        if c != s {
                            assert(stop_to_raptors@[c] == before[c]);
                        }
                    }
                }
                k = k + 1;
            }
            proof {
                assert(sig@.subrange(0, sig@.len() as int) =~= sig@);
            }
            route_to_raptors[q].push(index);
            let ghost t0 = group@[0];
            proof {
                assert(groups@[g as int]@[0] == t0);
                assert(slice_holds(stop_times@, slices@[t0 as int], t0 as int));
            }
            let ghost old_rrs = raptor_routes@;
            let stops = sig.clone();
            let rr = RaptorRoute { index, route_idx: q as u32, stops, trips: ordered };
            proof {
                assert(rr.stops@ == sig@);
                let t0 = group@[0] as int;
                assert(sig@ == trip_sig(stop_times@, slices@, t0));
                assert(slice_holds(stop_times@, slices@[t0], t0));
                assert forall|m: int| 0 <= m < rr.trips@.len() implies #[trigger] trip_on(
                    stop_times@,
                    slices@,
                    rr.trips@[m] as int,
                    rr.stops@,
                ) by {
                    assert(group@.contains(rr.trips@[m]));
                    let idx = choose|idx: int| 0 <= idx < group@.len() && group@[idx] == rr.trips@[m];
                    assert(groups@[g as int]@[idx] == rr.trips@[m]);
                    lemma_trip_on(stop_times@, slices@, rr.trips@[m] as int, sig@);
                }
                assert forall|kk: int| 0 <= kk < rr.stops@.len() implies #[trigger] rr.stops@[kk] < n_stops by {
                    let sl = slices@[t0];
                    assert(stop_times@.subrange(sl.start_idx as int, sl.start_idx + sl.count)[kk]
                        == stop_times@[sl.start_idx + kk]);
                }
                assert(raptor_built(rr, old_rrs.len() as int, n_routes as nat, n_stops as nat, stop_times@, slices@));
            }
            raptor_routes.push(rr);
            proof {
                let rrs = raptor_routes@;
                assert(rrs == old_rrs.push(rr));
                assert(old_rrs.len() == index);
                assert forall|x: int| 0 <= x < base.len() implies (#[trigger] rrs[x]).route_idx < q by {
                    assert(rrs[x] == old_rrs[x]);
                }
                assert forall|gg: int| 0 <= gg < g + 1 implies (#[trigger] rrs[base.len() + gg]).stops@ == sigs@[gg]@ by {
                    if gg < g {
                        assert(rrs[base.len() + gg] == old_rrs[base.len() + gg]);
                    }
                }
                assert forall|r1: int, r2: int|
                    0 <= r1 < r2 < rrs.len() && (#[trigger] rrs[r1]).route_idx == (#[trigger] rrs[r2]).route_idx implies rrs[r1].stops@
                        != rrs[r2].stops@ by {
                    if r2 < old_rrs.len() {
                        assert(rrs[r1] == old_rrs[r1] && rrs[r2] == old_rrs[r2]);
                    } else if r1 >= base.len() {
                        let gg = r1 - base.len();
                        assert(rrs[base.len() + gg].stops@ == sigs@[gg]@);
                        assert(rrs[r2].stops@ == sigs@[g as int]@);
                    } else {
                        assert(rrs[r1] == old_rrs[r1]);
                    }
                }
                assert forall|x: int, kk: int|
                    0 <= x < rrs.len() && 0 <= kk < rrs[x].trips@.len() implies route_to_trips@[rrs[x].route_idx as int]@.contains(
                        #[trigger] rrs[x].trips@[kk],
                    ) by {
                    if x < old_rrs.len() {
                        assert(rrs[x] == old_rrs[x]);
                    } else {
                        assert(group@.contains(rr.trips@[kk]));
                        let idx = choose|idx: int| 0 <= idx < group@.len() && group@[idx] == rr.trips@[kk];
                        assert(groups@[g as int]@[idx] == rr.trips@[kk]);
                    }
                }
                assert forall|c: int| 0 <= c < n_routes implies (#[trigger] route_to_raptors@[c])@ == raptors_of_route(
                    rrs,
                    c,
                ) by {
                    lemma_raptor_lists_push(old_rrs, rr, c);
                }
                assert forall|c: int| 0 <= c < n_stops implies (#[trigger] stop_to_raptors@[c])@ == raptors_at_stop(
                    rrs,
                    c,
                ) by {
                    lemma_raptor_lists_push(old_rrs, rr, c);
                }
                assert forall|r: int| 0 <= r < old_rrs.len() implies #[trigger] rrs[r] == old_rrs[r] by {}
                assert forall|qq: int, kk: int|
                    0 <= qq < q && 0 <= kk < route_to_trips@[qq]@.len() implies trip_in_raptor(
                    rrs,
                    qq,
                    #[trigger] route_to_trips@[qq]@[kk],
                ) by {
                    let x = route_to_trips@[qq]@[kk];
                    assert(trip_in_raptor(old_rrs, qq, x));
                    let r = choose|r: int|
                        0 <= r < old_rrs.len() && old_rrs[r].route_idx == qq && (#[trigger] old_rrs[r]).trips@.contains(x);
                    assert(rrs[r] == old_rrs[r]);
                }
                assert forall|gg: int| 0 <= gg < g + 1 implies (#[trigger] rrs[base.len() + gg]).route_idx == q by {
                    if gg < g {
                        assert(rrs[base.len() + gg] == old_rrs[base.len() + gg]);
                    }
                }
                assert forall|gg: int, m: int|
                    0 <= gg < g + 1 && 0 <= m < groups@[gg]@.len() implies rrs[base.len()
                        + gg].trips@.contains(#[trigger] groups@[gg]@[m]) by {
                    if gg < g {
                        assert(rrs[base.len() + gg] == old_rrs[base.len() + gg]);
                    } else {
                        assert(group@[m] == groups@[gg]@[m]);
                    }
                }
                assert(rrs.subrange(0, base.len() as int) =~= base);
            }
            g = g + 1;
        }
        proof {
            assert forall|x: int| 0 <= x < raptor_routes@.len() implies (#[trigger] raptor_routes@[x]).route_idx < q + 1 by {
                if x >= base.len() {
                    let gg = x - base.len();
                    assert(raptor_routes@[base.len() + gg].route_idx == q);
                }
            }
        }
        q = q + 1;
    }
    (raptor_routes, route_to_raptors, stop_to_raptors)
}

/// A trip of a RAPTOR route calls at exactly the route's stops.
proof fn lemma_raptor_trip_stops(r: Repository, x: int, t: u32)
    requires
        r.wf(),
        0 <= x < r.raptor_routes@.len(),
        r.raptor_routes@[x].trips@.contains(t),
    ensures
        trip_stop_ids(r, t as int) == r.raptor_routes@[x].stops@,
{
    let rr = r.raptor_routes@[x];
    assert(r.raptor_route_wf(x));
    let k = choose|k: int| 0 <= k < rr.trips@.len() && rr.trips@[k] == t;
    assert(r.trip_serves(rr.trips@[k] as int, rr.stops@));
    let sl = r.trip_to_stop_slice@[t as int];
    assert forall|i: int| 0 <= i < rr.stops@.len() implies #[trigger] trip_stop_ids(r, t as int)[i] == rr.stops@[i] by {
        assert(r.stop_times@.subrange(sl.start_idx as int, sl.start_idx + sl.count)[i] == r.stop_times@[sl.start_idx + i]);
    }
    assert(trip_stop_ids(r, t as int) =~= rr.stops@);
}

/// In a repository loaded from a feed, every trip of a route is in some
/// RAPTOR route of that route, and two trips of the route that call at the
/// same stops are in the same one, so that each trip is in exactly one.
pub proof fn lemma_raptor_route_of_trip(r: Repository, data: GtfsData, q: int, t1: u32, t2: u32, x1: int, x2: int)
    requires
        r.wf(),
        loaded_from(r, data),
        0 <= q < data.routes@.len(),
        r.route_to_trips@[q]@.contains(t1),
        r.route_to_trips@[q]@.contains(t2),
        trip_stop_ids(r, t1 as int) == trip_stop_ids(r, t2 as int),
        0 <= x1 < r.raptor_routes@.len(),
        0 <= x2 < r.raptor_routes@.len(),
        r.raptor_routes@[x1].route_idx == q,
        r.raptor_routes@[x2].route_idx == q,
        r.raptor_routes@[x1].trips@.contains(t1),
        r.raptor_routes@[x2].trips@.contains(t2),
    ensures
        trip_in_raptor(r.raptor_routes@, q, t1),
        x1 == x2,
{
    let k = choose|k: int| 0 <= k < r.route_to_trips@[q]@.len() && r.route_to_trips@[q]@[k] == t1;
    assert(trip_in_raptor(r.raptor_routes@, q, r.route_to_trips@[q]@[k]));
    lemma_raptor_trip_stops(r, x1, t1);
    lemma_raptor_trip_stops(r, x2, t2);
    if x1 < x2 {
        assert(raptors_apart(r.raptor_routes@));
        assert(r.raptor_routes@[x1].stops@ != r.raptor_routes@[x2].stops@);
    } else if x2 < x1 {
        assert(r.raptor_routes@[x2].stops@ != r.raptor_routes@[x1].stops@);
    }
}

/// `r` is among the calls it is given for a stop the list holds.
proof fn lemma_calls_at_has(stops: Seq<u32>, s: int, r: u32, k: int)
    requires
        0 <= k < stops.len(),
        stops[k] == s,
    ensures
        calls_at(stops, s, r).contains(r),
    decreases stops.len(),
{
    let rest = calls_at(stops.drop_last(), s, r);
    if k == stops.len() - 1 {
        assert(calls_at(stops, s, r) == rest.push(r));
        assert(calls_at(stops, s, r)[rest.len() as int] == r);
    } else {
        assert(stops.drop_last()[k] == stops[k]);
        lemma_calls_at_has(stops.drop_last(), s, r, k);
        let m = choose|m: int| 0 <= m < rest.len() && rest[m] == r;
        if stops.last() == s {
            assert(calls_at(stops, s, r)[m] == r);
        }
    }
}

/// A RAPTOR route is listed for every stop it calls at.
proof fn lemma_raptors_at_stop_has(rrs: Seq<RaptorRoute>, q: int, k: int)
    requires
        0 <= q < rrs.len() < u32::MAX,
        0 <= k < rrs[q].stops@.len(),
    ensures
        raptors_at_stop(rrs, rrs[q].stops@[k] as int).contains(q as u32),
    decreases rrs.len(),
{
    let s = rrs[q].stops@[k] as int;
    let init = rrs.drop_last();
    let pre = raptors_at_stop(init, s);
    let here = calls_at(rrs.last().stops@, s, (rrs.len() - 1) as u32);
    assert(raptors_at_stop(rrs, s) == pre + here);
    if q == rrs.len() - 1 {
        lemma_calls_at_has(rrs.last().stops@, s, q as u32, k);
        let m = choose|m: int| 0 <= m < here.len() && here[m] == q as u32;
        assert((pre + here)[pre.len() + m] == q as u32);
    } else {
        assert(init[q] == rrs[q]);
        lemma_raptors_at_stop_has(init, q, k);
        let m = choose|m: int| 0 <= m < pre.len() && pre[m] == q as u32;
        assert((pre + here)[m] == q as u32);
    }
}

/// In a repository loaded from a feed, every RAPTOR route is listed for
/// each stop it calls at, so that a ride on it can start or end there.
pub proof fn lemma_loaded_lists_routes(r: Repository, data: GtfsData, q: int, k: int)
    requires
        r.wf(),
        loaded_from(r, data),
        0 <= q < r.raptor_routes@.len(),
        0 <= k < r.raptor_routes@[q].stops@.len(),
    ensures
        r.stop_to_raptors@[r.raptor_routes@[q].stops@[k] as int]@.contains(q as u32),
{
    assert(r.raptor_route_wf(q));
    let s = r.raptor_routes@[q].stops@[k] as int;
    assert(r.stop_to_raptors@[s]@ == raptors_at_stop(r.raptor_routes@, s));
    lemma_raptors_at_stop_has(r.raptor_routes@, q, k);
}

/// Every id that a loadable feed refers to resolves to a row of its table.
proof fn lemma_refs_resolve(data: GtfsData)
    requires
        data.loadable(),
    ensures
        forall|i: int| 0 <= i < data.stops@.len() ==> (#[trigger] parent_of(data, i) matches Some(p) ==> p
            < data.stops@.len()),
        forall|i: int| 0 <= i < data.stop_areas@.len() ==> #[trigger] member_areas(data)[i] < data.areas@.len(),
        forall|i: int| 0 <= i < data.stop_areas@.len() ==> #[trigger] member_stops(data)[i] < data.stops@.len(),
        forall|i: int| 0 <= i < data.trips@.len() ==> #[trigger] trip_routes(data)[i] < data.routes@.len(),
        forall|i: int|
            0 <= i < data.transfers@.len() ==> {
                let tr = #[trigger] data.transfers@[i];
                &&& 0 <= data.stop_row(tr.from_stop_id@) < data.stops@.len()
                &&& 0 <= data.stop_row(tr.to_stop_id@) < data.stops@.len()
            },
        forall|i: int| 0 <= i < data.transfers@.len() ==> #[trigger] transfer_froms(data)[i] < data.stops@.len(),
        forall|i: int| 0 <= i < data.stop_times@.len() ==> #[trigger] row_trips(data)[i] < data.trips@.len(),
        forall|i: int| 0 <= i < data.stop_times@.len() ==> #[trigger] row_stops(data)[i] < data.stops@.len(),
{
    assert forall|i: int| 0 <= i < data.stops@.len() implies (#[trigger] parent_of(data, i) matches Some(p) ==> p
        < data.stops@.len()) by {
        if let Some(ps) = data.stops@[i].parent_station {
            lemma_last_index_of_bounds(gtfs_stop_ids(data.stops@), ps@);
        }
    }
    assert forall|i: int| 0 <= i < data.stop_areas@.len() implies #[trigger] member_areas(data)[i] < data.areas@.len() by {
        assert(data.stop_row(data.stop_areas@[i].stop_id@) >= 0);
        lemma_last_index_of_bounds(gtfs_area_ids(data.areas@), data.stop_areas@[i].area_id@);
    }
    assert forall|i: int| 0 <= i < data.stop_areas@.len() implies #[trigger] member_stops(data)[i] < data.stops@.len() by {
        assert(data.stop_row(data.stop_areas@[i].stop_id@) >= 0);
        lemma_last_index_of_bounds(gtfs_stop_ids(data.stops@), data.stop_areas@[i].stop_id@);
    }
    assert forall|i: int| 0 <= i < data.trips@.len() implies #[trigger] trip_routes(data)[i] < data.routes@.len() by {
        assert(data.route_row(data.trips@[i].route_id@) >= 0);
        lemma_last_index_of_bounds(gtfs_route_ids(data.routes@), data.trips@[i].route_id@);
    }
    assert forall|i: int| 0 <= i < data.transfers@.len() implies {
        let tr = #[trigger] data.transfers@[i];
        &&& 0 <= data.stop_row(tr.from_stop_id@) < data.stops@.len()
        &&& 0 <= data.stop_row(tr.to_stop_id@) < data.stops@.len()
    } by {
        lemma_last_index_of_bounds(gtfs_stop_ids(data.stops@), data.transfers@[i].from_stop_id@);
        lemma_last_index_of_bounds(gtfs_stop_ids(data.stops@), data.transfers@[i].to_stop_id@);
    }
    assert forall|i: int| 0 <= i < data.transfers@.len() implies #[trigger] transfer_froms(data)[i] < data.stops@.len() by {
        assert(0 <= data.stop_row(data.transfers@[i].from_stop_id@) < data.stops@.len());
    }
    assert forall|i: int| 0 <= i < data.stop_times@.len() implies #[trigger] row_trips(data)[i] < data.trips@.len() by {
        assert(data.trip_row(data.stop_times@[i].trip_id@) >= 0);
        lemma_last_index_of_bounds(gtfs_trip_ids(data.trips@), data.stop_times@[i].trip_id@);
    }
    assert forall|i: int| 0 <= i < data.stop_times@.len() implies #[trigger] row_stops(data)[i] < data.stops@.len() by {
        assert(data.stop_row(data.stop_times@[i].stop_id@) >= 0);
        lemma_last_index_of_bounds(gtfs_stop_ids(data.stops@), data.stop_times@[i].stop_id@);
    }
}

/// The lists of a loaded repository, one per entity, with no entries.
fn empty_lists(n: usize) -> (r: Vec<Vec<u32>>)
    ensures
        r@.len() == n,
        forall|i: int| 0 <= i < n ==> (#[trigger] r@[i])@.len() == 0,
{
    let mut out: Vec<Vec<u32>> = Vec::new();
    let mut i: usize = 0;
    while i < n
        invariant
            i <= n,
            out@.len() == i,
            forall|j: int| 0 <= j < i ==> (#[trigger] out@[j])@.len() == 0,
        decreases n - i,
    {
        out.push(Vec::new());
        i = i + 1;
    }
    out
}

fn empty_walks(n: usize) -> (r: Vec<Vec<Walk>>)
    ensures
        r@.len() == n,
        forall|i: int| 0 <= i < n ==> (#[trigger] r@[i])@.len() == 0,
{
    let mut out: Vec<Vec<Walk>> = Vec::new();
    let mut i: usize = 0;
    while i < n
        invariant
            i <= n,
            out@.len() == i,
            forall|j: int| 0 <= j < i ==> (#[trigger] out@[j])@.len() == 0,
        decreases n - i,
    {
        out.push(Vec::new());
        i = i + 1;
    }
    out
}

/// The (shape, sequence) of each shape point row, its shape numbered by the
/// last row with the same shape id.
pub open spec fn shape_keys_of(data: GtfsData) -> Seq<(u32, u32)> {
    Seq::new(
        data.shapes@.len(),
        |i: int|
            (
                last_index_of(keys_of(data.shapes@), data.shapes@[i].shape_id@) as u32,
                data.shapes@[i].shape_pt_sequence,
            ),
    )
}

/// The shape of trip `t`, numbered by the last shape point row with its
/// shape id; none where the trip names no shape or no row has its id.
pub open spec fn trip_shape_of(data: GtfsData, t: int) -> Option<u32> {
    match data.trips@[t].shape_id {
        Some(id) => if last_index_of(keys_of(data.shapes@), id@) >= 0 {
            Some(last_index_of(keys_of(data.shapes@), id@) as u32)
        } else {
            None
        },
        None => None,
    }
}

/// The (shape, sequence) of each shape point row, the shape found by id.
fn shape_keys(data: &GtfsData, index: &IdIndex) -> (r: Vec<(u32, u32)>)
    requires
        index.indexes(keys_of(data.shapes@)),
        data.shapes@.len() < u32::MAX,
    ensures
        r@ == shape_keys_of(*data),
{
    let mut out: Vec<(u32, u32)> = Vec::new();
    let mut i: usize = 0;
    while i < data.shapes.len()
        invariant
            index.indexes(keys_of(data.shapes@)),
            data.shapes@.len() < u32::MAX,
            i <= data.shapes@.len(),
            out@.len() == i,
            forall|j: int| 0 <= j < i ==> #[trigger] out@[j] == shape_keys_of(*data)[j],
        decreases data.shapes@.len() - i,
    {
        let row = &data.shapes[i];
        proof {
            let ids = keys_of(data.shapes@);
            assert(ids[i as int] == row.shape_id@);
            lemma_last_index_of_bounds(ids, row.shape_id@);
        }
        let shape = match find_last(&data.shapes, index, row.shape_id.as_str()) {
            Some(j) => j,
            None => 0,
        };
        out.push((shape, row.shape_pt_sequence));
        i = i + 1;
    }
    assert(out@ =~= shape_keys_of(*data));
    out
}

/// The shape of each trip, found by id.
fn trip_shapes(data: &GtfsData, index: &IdIndex) -> (r: Vec<Option<u32>>)
    requires
        index.indexes(keys_of(data.shapes@)),
        data.shapes@.len() < u32::MAX,
    ensures
        r@.len() == data.trips@.len(),
        forall|t: int| 0 <= t < data.trips@.len() ==> #[trigger] r@[t] == trip_shape_of(*data, t),
{
    let mut out: Vec<Option<u32>> = Vec::new();
    let mut i: usize = 0;
    while i < data.trips.len()
        invariant
            index.indexes(keys_of(data.shapes@)),
            data.shapes@.len() < u32::MAX,
            i <= data.trips@.len(),
            out@.len() == i,
            forall|t: int| 0 <= t < i ==> #[trigger] out@[t] == trip_shape_of(*data, t),
        decreases data.trips@.len() - i,
    {
        let shape = match &data.trips[i].shape_id {
            Some(id) => find_last(&data.shapes, index, id.as_str()),
            None => None,
        };
        out.push(shape);
        i = i + 1;
    }
    out
}

/// Every shape id is below the number of shape ids.
proof fn lemma_shape_count_above(keys: Seq<(u32, u32)>, k: int)
    requires
        0 <= k < keys.len(),
    ensures
        keys[k].0 < shape_count(keys),
    decreases keys.len(),
{
    if k < keys.len() - 1 {
        lemma_shape_count_above(keys.drop_last(), k);
    }
}

/// The facts behind `lemma_trip_shape_points`, from the parts of
/// `loaded_from` that speak of shapes.
#[verifier::spinoff_prover]
#[verifier::rlimit(40)]
proof fn lemma_shape_points_of(r: Repository, data: GtfsData, t: int)
    requires
        data.shapes@.len() < u32::MAX,
        shapes_grouped(shape_keys_of(data), r.shape_points@, r.shape_slices@),
        r.trip_to_shape@.len() == data.trips@.len(),
        0 <= t < data.trips@.len(),
        r.trip_to_shape@[t] == trip_shape_of(data, t),
    ensures
        trip_shape_points_ok(r, data, t),
{
    let ids = keys_of(data.shapes@);
    let keys = shape_keys_of(data);
    if let Some(id) = data.trips@[t].shape_id {
        lemma_last_index_of_bounds(ids, id@);
        if ids.contains(id@) {
            let c = last_index_of(ids, id@);
            assert(ids[c] == id@);
            assert(ids[c] == data.shapes@[c].shape_id@);
            assert(keys[c].0 == c);
            lemma_shape_count_above(keys, c);
            let sl = r.shape_slices@[c];
            assert(group_ok(keys, r.shape_points@, sl, c));
            let pts = r.shape_points@.subrange(sl.0 as int, sl.0 + sl.1);
            assert(r.trip_shape_points(t) == Some(pts));
            lemma_group_rows(data, r.shape_points@, sl, c, id@);
        }
    }
}

/// The rows of the group of shape `c`, the last row with shape id `id`, are
/// exactly the rows with that id, in order.
#[verifier::spinoff_prover]
proof fn lemma_group_rows(data: GtfsData, order: Seq<u32>, sl: (u32, u32), c: int, id: Seq<char>)
    requires
        data.shapes@.len() < u32::MAX,
        group_ok(shape_keys_of(data), order, sl, c),
        0 <= c < data.shapes@.len(),
        c == last_index_of(keys_of(data.shapes@), id),
        data.shapes@[c].shape_id@ == id,
    ensures
        ({
            let pts = order.subrange(sl.0 as int, sl.0 + sl.1);
            &&& forall|i: int|
                0 <= i < pts.len() ==> #[trigger] pts[i] < data.shapes@.len() && data.shapes@[pts[i] as int].shape_id@ == id
            &&& forall|x: int|
                0 <= x < data.shapes@.len() && data.shapes@[x].shape_id@ == id ==> #[trigger] pts.contains(x as u32)
            &&& forall|i: int, j: int|
                0 <= i < j < pts.len() ==> shape_before(shape_keys_of(data), #[trigger] pts[i] as int, #[trigger] pts[j] as int)
        }),
{
    let ids = keys_of(data.shapes@);
    let keys = shape_keys_of(data);
    let pts = order.subrange(sl.0 as int, sl.0 + sl.1);
    assert forall|i: int| 0 <= i < pts.len() implies #[trigger] pts[i] < data.shapes@.len()
        && data.shapes@[pts[i] as int].shape_id@ == id by {
        let row = order[sl.0 + i];
        assert(pts[i] == row);
        assert(keys[row as int].0 == c);
        lemma_last_index_of_bounds(ids, data.shapes@[row as int].shape_id@);
        assert(ids[row as int] == data.shapes@[row as int].shape_id@);
        assert(ids.contains(data.shapes@[row as int].shape_id@));
    }
    assert forall|x: int| 0 <= x < data.shapes@.len() && data.shapes@[x].shape_id@ == id implies #[trigger] pts.contains(
        x as u32,
    ) by {
        assert(ids[x] == data.shapes@[x].shape_id@);
        assert(keys[x].0 == c);
        let i = choose|i: int| 0 <= i < sl.1 && #[trigger] order[sl.0 + i] == x as u32;
        assert(pts[i] == x as u32);
    }
    assert forall|i: int, j: int| 0 <= i < j < pts.len() implies shape_before(keys, #[trigger] pts[i] as int, #[trigger] pts[j] as int) by {
        assert(pts[i] == order[sl.0 + i]);
        assert(pts[j] == order[sl.0 + j]);
    }
}

/// Trip `t` follows exactly the shape point rows with the shape id it
/// names, ordered by sequence (rows of equal sequence in row order); a trip
/// that names no shape id, or one that no row has, has no shape.
pub open spec fn trip_shape_points_ok(r: Repository, data: GtfsData, t: int) -> bool {
    match data.trips@[t].shape_id {
        Some(id) => if keys_of(data.shapes@).contains(id@) {
            r.trip_shape_points(t) matches Some(pts) && {
                &&& forall|i: int|
                    0 <= i < pts.len() ==> #[trigger] pts[i] < data.shapes@.len() && data.shapes@[pts[i] as int].shape_id@
                        == id@
                &&& forall|x: int|
                    0 <= x < data.shapes@.len() && data.shapes@[x].shape_id@ == id@ ==> #[trigger] pts.contains(x as u32)
                &&& forall|i: int, j: int|
                    0 <= i < j < pts.len() ==> shape_before(shape_keys_of(data), #[trigger] pts[i] as int, #[trigger] pts[j] as int)
            }
        } else {
            r.trip_shape_points(t) is None
        },
        None => r.trip_shape_points(t) is None,
    }
}

/// In a repository loaded from a feed, a trip that names a shape id that
/// some shape point row has follows exactly the rows with that id, ordered
/// by sequence (rows of equal sequence in row order); a trip that names
/// none, or an id no row has, has no shape.
#[verifier::spinoff_prover]
pub proof fn lemma_trip_shape_points(r: Repository, data: GtfsData, t: int)
    requires
        data.loadable(),
        loaded_from(r, data),
        0 <= t < data.trips@.len(),
    ensures
        trip_shape_points_ok(r, data, t),
{
    assert(r.trip_to_shape@[t] == trip_shape_of(data, t));
    lemma_shape_points_of(r, data, t);
}

/// The repository holds the entities of the feed, one per row and in row
/// order, with every id that a row refers to resolved to the index of the
/// last row with that id, and the index lists built from them. Stop times
/// come run by run (consecutive rows of one trip), each run ordered by
/// sequence, and a trip's slice is its last run.
pub open spec fn loaded_from(r: Repository, data: GtfsData) -> bool {
    let ns = data.stops@.len();
    let nst = data.stop_times@.len();
    &&& r.stops@.len() == ns
    &&& forall|i: int| 0 <= i < ns ==> stop_loaded(data, #[trigger] r.stops@[i], i)
    &&& forall|p: int|
        0 <= p < ns ==> (#[trigger] r.station_to_stops@[p])@ == bucket(parent_keys(data), rows(ns), ns, p)
    &&& r.areas@.len() == data.areas@.len()
    &&& forall|i: int| 0 <= i < data.areas@.len() ==> area_loaded(data, #[trigger] r.areas@[i], i)
    &&& forall|a: int|
        0 <= a < data.areas@.len() ==> (#[trigger] r.area_to_stops@[a])@ == bucket(
            member_areas(data),
            member_stops(data),
            data.stop_areas@.len(),
            a,
        )
    &&& forall|s: int|
        0 <= s < ns ==> #[trigger] r.stop_to_area@[s] == last_match(
            member_stops(data),
            member_areas(data),
            data.stop_areas@.len(),
            s,
        )
    &&& r.routes@.len() == data.routes@.len()
    &&& forall|i: int| 0 <= i < data.routes@.len() ==> route_loaded(data, #[trigger] r.routes@[i], i)
    &&& r.trips@.len() == data.trips@.len()
    &&& forall|i: int| 0 <= i < data.trips@.len() ==> trip_loaded(data, #[trigger] r.trips@[i], i)
    &&& forall|q: int|
        0 <= q < data.routes@.len() ==> (#[trigger] r.route_to_trips@[q])@ == bucket(
            trip_routes(data),
            rows(data.trips@.len()),
            data.trips@.len(),
            q,
        )
    &&& r.trip_to_route@ == trip_routes(data)
    &&& r.transfers@.len() == data.transfers@.len()
    &&& forall|i: int| 0 <= i < data.transfers@.len() ==> transfer_loaded(data, #[trigger] r.transfers@[i], i)
    &&& forall|s: int|
        0 <= s < ns ==> (#[trigger] r.stop_to_transfers@[s])@ == bucket(
            transfer_froms(data),
            rows(data.transfers@.len()),
            data.transfers@.len(),
            s,
        )
    &&& r.stop_times@.len() == nst
    &&& read_from_rows(data, r.stop_times@)
    &&& exists|src: Seq<int>| #[trigger] placed(data, r.stop_times@, src)
    &&& slices_hold(r.stop_times@, r.trip_to_stop_slice@)
    &&& forall|t: int|
        0 <= t < data.trips@.len() ==> #[trigger] r.trip_to_stop_slice@[t] == run_slice(
            row_trips(data),
            last_row(row_trips(data), t, nst as int),
        )
    &&& forall|t: int| 0 <= t < data.trips@.len() ==> (#[trigger] r.trip_to_stop_slice@[t]).count >= 1
    &&& forall|s: int|
        0 <= s < ns ==> (#[trigger] r.stop_to_trips@[s])@ == bucket(row_stops(data), row_trips(data), nst, s)
    &&& forall|q: int|
        0 <= q < r.raptor_routes@.len() ==> raptor_built(
            #[trigger] r.raptor_routes@[q],
            q,
            data.routes@.len(),
            ns,
            r.stop_times@,
            r.trip_to_stop_slice@,
        )
    &&& forall|q: int, k: int|
        0 <= q < data.routes@.len() && 0 <= k < r.route_to_trips@[q]@.len() ==> trip_in_raptor(
            r.raptor_routes@,
            q,
            #[trigger] r.route_to_trips@[q]@[k],
        )
    &&& forall|c: int|
        0 <= c < data.routes@.len() ==> (#[trigger] r.route_to_raptors@[c])@ == raptors_of_route(r.raptor_routes@, c)
    &&& forall|s: int| 0 <= s < ns ==> (#[trigger] r.stop_to_raptors@[s])@ == raptors_at_stop(r.raptor_routes@, s)
    &&& raptors_apart(r.raptor_routes@)
    &&& r.raptor_routes@.len() < u32::MAX
    &&& forall|x: int, k: int|
        0 <= x < r.raptor_routes@.len() && 0 <= k < r.raptor_routes@[x].trips@.len()
            ==> r.route_to_trips@[r.raptor_routes@[x].route_idx as int]@.contains(#[trigger] r.raptor_routes@[x].trips@[k])
    &&& forall|s: int| 0 <= s < ns ==> (#[trigger] r.stop_to_walk_stop@[s])@.len() == 0
    &&& forall|a: int| 0 <= a < data.areas@.len() ==> (#[trigger] r.area_to_near_stops@[a])@.len() == 0
    &&& r.shape_lookup.indexes(keys_of(data.shapes@))
    &&& shapes_grouped(shape_keys_of(data), r.shape_points@, r.shape_slices@)
    &&& r.trip_to_shape@.len() == data.trips@.len()
    &&& forall|t: int| 0 <= t < data.trips@.len() ==> #[trigger] r.trip_to_shape@[t] == trip_shape_of(data, t)
}

impl Repository {
    /// The repository of a feed. Walks between stops and the stops near an
    /// area are left empty, and the walking time of every transfer zero,
    /// for the caller to fill in from the stops' coordinates.
    #[verifier::spinoff_prover]
    #[verifier::rlimit(40)]
    pub fn load_gtfs(self, data: GtfsData) -> (r: Repository)
        requires
            data.loadable(),
        ensures
            r.wf(),
            loaded_from(r, data),
            r.stations_listed(),
    {
        let ghost ns = data.stops@.len();
        let ghost nt = data.trips@.len();
        proof {
            lemma_refs_resolve(data);
        }
        let index = GtfsIndex::build(&data);
        let (stops, station_to_stops) = load_stops(&data, &index);
        let areas = load_areas(&data, &index);
        let (area_to_stops, stop_to_area) = load_area_to_stops(&data, &index);
        let routes = load_routes(&data, &index);
        let (trips, route_to_trips, trip_to_route) = load_trips(&data, &index);
        let (transfers, stop_to_transfers) = load_transfers(&data, &index);
        let (stop_times, trip_to_stop_slice, stop_to_trips) = load_stop_times(&data, &index);
        proof {
            let keys = trip_routes(data);
            let vals = rows(nt);
            assert forall|q: int| 0 <= q < data.routes@.len() implies forall|k: int|
                0 <= k < (#[trigger] route_to_trips@[q])@.len() ==> route_to_trips@[q]@[k] < nt by {
                lemma_bucket_below(keys, vals, nt, q, nt as int);
            }
            lemma_sum_lens_buckets(route_to_trips@, keys, vals, nt, data.routes@.len());
            lemma_bucket_total(keys, vals, nt, data.routes@.len());
            assert forall|i: int| 0 <= i < stop_times@.len() implies (#[trigger] stop_times@[i]).stop_idx < ns by {
                assert(read_from_some_row(data, stop_times@[i]));
                let j = choose|j: int| from_row(data, stop_times@[i], j);
                assert(row_stops(data)[j] < ns);
            }
        }
        let (raptor_routes, route_to_raptors, stop_to_raptors) = generate_raptor_routes(
            data.routes.len(),
            data.stops.len(),
            &route_to_trips,
            &stop_times,
            &trip_to_stop_slice,
        );
        let shape_lookup = index_keys(&data.shapes);
        let keys = shape_keys(&data, &shape_lookup);
        proof {
            assert forall|k: int| 0 <= k < keys@.len() implies #[trigger] keys@[k].0 < u32::MAX by {
                let ids = keys_of(data.shapes@);
                lemma_last_index_of_bounds(ids, data.shapes@[k].shape_id@);
                assert(ids[k] == data.shapes@[k].shape_id@);
                assert(ids.contains(data.shapes@[k].shape_id@));
            }
        }
        let (shape_points, shape_slices) = load_shapes(&keys);
        let trip_to_shape = trip_shapes(&data, &shape_lookup);
        let stop_to_walk_stop = empty_walks(data.stops.len());
        let area_to_near_stops = empty_lists(data.areas.len());
        let repo = Repository {
            stops,
            areas,
            routes,
            raptor_routes,
            trips,
            stop_times,
            transfers,
            route_to_trips,
            trip_to_route,
            area_to_stops,
            stop_to_area,
            station_to_stops,
            stop_to_transfers,
            stop_to_trips,
            trip_to_stop_slice,
            route_to_raptors,
            stop_to_raptors,
            stop_to_walk_stop,
            area_to_near_stops,
            stop_lookup: index.stops,
            area_lookup: index.areas,
            trip_lookup: index.trips,
            route_lookup: index.routes,
            shape_points,
            shape_slices,
            shape_lookup,
            trip_to_shape,
        };
        proof {
            assert(keys_of(repo.stops@) =~= keys_of(data.stops@)) by {
                assert forall|i: int| 0 <= i < repo.stops@.len() implies keys_of(repo.stops@)[i] == keys_of(data.stops@)[i] by {
                    assert(stop_loaded(data, repo.stops@[i], i));
                }
            }
            assert(keys_of(repo.areas@) =~= keys_of(data.areas@)) by {
                assert forall|i: int| 0 <= i < repo.areas@.len() implies keys_of(repo.areas@)[i] == keys_of(data.areas@)[i] by {
                    assert(area_loaded(data, repo.areas@[i], i));
                }
            }
            assert(keys_of(repo.trips@) =~= keys_of(data.trips@)) by {
                assert forall|i: int| 0 <= i < repo.trips@.len() implies keys_of(repo.trips@)[i] == keys_of(data.trips@)[i] by {
                    assert(trip_loaded(data, repo.trips@[i], i));
                }
            }
            assert(keys_of(repo.routes@) =~= keys_of(data.routes@)) by {
                assert forall|i: int| 0 <= i < repo.routes@.len() implies keys_of(repo.routes@)[i] == keys_of(data.routes@)[i] by {
                    assert(route_loaded(data, repo.routes@[i], i));
                }
            }
            assert(repo.shape_lookup.indexes(keys_of(data.shapes@)));
            assert(shapes_grouped(shape_keys_of(data), repo.shape_points@, repo.shape_slices@));
            assert(repo.trip_to_shape@.len() == data.trips@.len());
            assert(forall|t: int| 0 <= t < data.trips@.len() ==> #[trigger] repo.trip_to_shape@[t] == trip_shape_of(data, t));
            lemma_loaded_wf(repo, data);
            lemma_loaded_stations(repo, data);
        }
        repo
    }
}

/// In a repository loaded from a feed, each station lists exactly the stops
/// whose parent station it is.
pub proof fn lemma_loaded_stations(r: Repository, data: GtfsData)
    requires
        data.loadable(),
        loaded_from(r, data),
        r.wf(),
    ensures
        r.stations_listed(),
{
    let ns = data.stops@.len();
    let keys = parent_keys(data);
    assert forall|p: int| 0 <= p < ns implies #[trigger] bucket(keys, rows(ns), ns, p) == r.station_to_stops@[p]@ by {}
    assert forall|s: int| 0 <= s < ns implies (#[trigger] r.stops@[s].parent_index matches Some(p) ==> p
        < r.station_to_stops@.len() && r.station_to_stops@[p as int]@.contains(s as u32)) by {
        assert(stop_loaded(data, r.stops@[s], s));
        if let Some(p) = r.stops@[s].parent_index {
            assert(p < ns);
            assert(keys[s] == p);
            lemma_bucket_rows(keys, ns, ns, p as int);
            assert(r.station_to_stops@[p as int]@ == bucket(keys, rows(ns), ns, p as int));
        }
    }
    assert forall|p: int, k: int| 0 <= p < r.station_to_stops@.len() && 0 <= k < r.station_to_stops@[p]@.len() implies {
        let s = #[trigger] r.station_to_stops@[p]@[k];
        &&& s < r.stops@.len()
        &&& r.stops@[s as int].parent_index == Some(p as u32)
    } by {
        lemma_bucket_rows(keys, ns, ns, p);
        assert(r.station_to_stops@[p]@ == bucket(keys, rows(ns), ns, p));
        let s = r.station_to_stops@[p]@[k];
        assert(s < ns && keys[s as int] == p);
        assert(stop_loaded(data, r.stops@[s as int], s as int));
        if parent_of(data, s as int) is None {
            assert(keys[s as int] == u32::MAX);
        }
    }
}

/// A repository loaded from a feed is well formed.
proof fn lemma_loaded_wf(r: Repository, data: GtfsData)
    requires
        data.loadable(),
        loaded_from(r, data),
        r.raptor_routes@.len() < u32::MAX,
        r.route_to_trips@.len() == data.routes@.len(),
        r.area_to_stops@.len() == data.areas@.len(),
        r.stop_to_area@.len() == data.stops@.len(),
        r.station_to_stops@.len() == data.stops@.len(),
        r.stop_to_transfers@.len() == data.stops@.len(),
        r.stop_to_trips@.len() == data.stops@.len(),
        r.trip_to_stop_slice@.len() == data.trips@.len(),
        r.route_to_raptors@.len() == data.routes@.len(),
        lists_below(r.route_to_raptors@, r.raptor_routes@.len() as nat),
        r.stop_to_raptors@.len() == data.stops@.len(),
        lists_below(r.stop_to_raptors@, r.raptor_routes@.len() as nat),
        r.stop_to_walk_stop@.len() == data.stops@.len(),
        r.area_to_near_stops@.len() == data.areas@.len(),
        r.stop_lookup.indexes(keys_of(r.stops@)),
        r.area_lookup.indexes(keys_of(r.areas@)),
        r.trip_lookup.indexes(keys_of(r.trips@)),
        r.route_lookup.indexes(keys_of(r.routes@)),
    ensures
        r.wf(),
{
    lemma_refs_resolve(data);
    let ns = data.stops@.len();
    let na = data.areas@.len();
    let nt = data.trips@.len();
    let nr = data.routes@.len();
    let nst = data.stop_times@.len();
    let ntr = data.transfers@.len();
    assert forall|s: int| 0 <= s < ns implies ((#[trigger] r.stops@[s]).parent_index matches Some(p) ==> p < ns) by {
        assert(stop_loaded(data, r.stops@[s], s));
    }
    assert(lists_below(r.route_to_trips@, nt)) by {
        assert forall|i: int, k: int| 0 <= i < nr && 0 <= k < r.route_to_trips@[i]@.len() implies #[trigger] r.route_to_trips@[i]@[k] < nt by {
            lemma_bucket_below(trip_routes(data), rows(nt), nt, i, nt as int);
        }
    }
    assert(lists_below(r.area_to_stops@, ns)) by {
        assert forall|i: int, k: int| 0 <= i < na && 0 <= k < r.area_to_stops@[i]@.len() implies #[trigger] r.area_to_stops@[i]@[k] < ns by {
            lemma_bucket_below(member_areas(data), member_stops(data), data.stop_areas@.len(), i, ns as int);
        }
    }
    assert forall|s: int| 0 <= s < ns implies (#[trigger] r.stop_to_area@[s] matches Some(a) ==> a < na) by {
        lemma_last_match_below(member_stops(data), member_areas(data), data.stop_areas@.len(), s, na as int);
    }
    assert(lists_below(r.station_to_stops@, ns)) by {
        assert forall|i: int, k: int| 0 <= i < ns && 0 <= k < r.station_to_stops@[i]@.len() implies #[trigger] r.station_to_stops@[i]@[k] < ns by {
            lemma_bucket_below(parent_keys(data), rows(ns), ns, i, ns as int);
        }
    }
    assert(lists_below(r.stop_to_transfers@, ntr)) by {
        assert forall|i: int, k: int| 0 <= i < ns && 0 <= k < r.stop_to_transfers@[i]@.len() implies #[trigger] r.stop_to_transfers@[i]@[k] < ntr by {
            lemma_bucket_below(transfer_froms(data), rows(ntr), ntr, i, ntr as int);
        }
    }
    assert(lists_below(r.stop_to_trips@, nt)) by {
        assert forall|i: int, k: int| 0 <= i < ns && 0 <= k < r.stop_to_trips@[i]@.len() implies #[trigger] r.stop_to_trips@[i]@[k] < nt by {
            lemma_bucket_below(row_stops(data), row_trips(data), nst, i, nt as int);
        }
    }
    assert forall|i: int| 0 <= i < ntr implies (#[trigger] r.transfers@[i]).from_stop_idx < ns
        && r.transfers@[i].to_stop_idx < ns by {
        assert(transfer_loaded(data, r.transfers@[i], i));
    }
    assert forall|i: int| 0 <= i < nst implies (#[trigger] r.stop_times@[i]).stop_idx < ns
        && r.stop_times@[i].trip_idx < nt by {
        assert(read_from_some_row(data, r.stop_times@[i]));
        let j = choose|j: int| from_row(data, r.stop_times@[i], j);
        assert(row_stops(data)[j] < ns);
        assert(row_trips(data)[j] < nt);
    }
    assert forall|t: int| 0 <= t < nt implies (#[trigger] r.trip_to_stop_slice@[t]).start_idx
        + r.trip_to_stop_slice@[t].count <= nst by {
        assert(slice_holds(r.stop_times@, r.trip_to_stop_slice@[t], t));
    }
    assert forall|q: int| 0 <= q < r.raptor_routes@.len() implies #[trigger] r.raptor_route_wf(q) by {
        let rr = r.raptor_routes@[q];
        assert(raptor_built(rr, q, nr, ns, r.stop_times@, r.trip_to_stop_slice@));
        assert forall|k: int| 0 <= k < rr.trips@.len() implies #[trigger] r.trip_serves(rr.trips@[k] as int, rr.stops@) by {
            assert(trip_on(r.stop_times@, r.trip_to_stop_slice@, rr.trips@[k] as int, rr.stops@));
        }
    }
}

} // verus!
