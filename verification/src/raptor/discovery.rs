//! Finding the stops of a location, the routes of a stop and the trips to
//! board.

use crate::raptor::allocator::Allocator;
use crate::raptor::location::Location;
use crate::raptor::state::ServingRoute;
use crate::raptor::Error;
use crate::repository::{lemma_last_index_of_bounds, stop_ids, RaptorRoute, Repository, Stop, Transfer, Trip};
use crate::time::{Duration, Time};
use vstd::prelude::*;

verus! {

/// The stops where a search may start or end for `location`.
///
/// An area gives its stops that trips serve, or, when none is, the served
/// stops near its middle. A stop gives the platforms of its station (of
/// itself when it is a station with platforms), or itself. A coordinate
/// gives the served stops within walking reach.
pub open spec fn location_stops(repo: Repository, location: Location) -> Result<Seq<u32>, Error> {
    match location {
        Location::Area(id) => {
            let a = repo.area_index(id@);
            if a < 0 {
                Err(Error::InvalidAreaID)
            } else {
                let own = repo.keep_with_trips(repo.area_to_stops@[a]@);
                if own.len() > 0 {
                    Ok(own)
                } else {
                    Ok(repo.keep_with_trips(repo.area_to_near_stops@[a]@))
                }
            }
        },
        Location::Stop(id) => {
            let s = repo.stop_index(id@);
            if s < 0 {
                Err(Error::InvalidStopID)
            } else {
                match repo.stops@[s].parent_index {
                    Some(p) => Ok(repo.station_to_stops@[p as int]@),
                    None => {
                        let platforms = repo.station_to_stops@[s]@;
                        if platforms.len() == 0 {
                            Ok(seq![s as u32])
                        } else {
                            Ok(platforms)
                        }
                    },
                }
            }
        },
        Location::Coordinate(near) => Ok(repo.keep_with_trips(near@)),
    }
}

/// Where each station lists exactly its platforms, a stop with a parent
/// station stands for exactly the stops of that station: the stops a
/// search starts or ends at for it all have that parent, and every stop
/// with that parent is among them (the stop itself included).
pub proof fn lemma_station_stops(repo: Repository, id: String)
    requires
        repo.wf(),
        repo.stations_listed(),
        repo.stop_index(id@) >= 0,
        repo.stops@[repo.stop_index(id@)].parent_index is Some,
    ensures
        ({
            let p = repo.stops@[repo.stop_index(id@)].parent_index->Some_0;
            let r = location_stops(repo, Location::Stop(id));
            &&& r is Ok
            &&& forall|k: int| 0 <= k < r->Ok_0.len() ==> #[trigger] r->Ok_0[k] < repo.stops@.len()
                && repo.stops@[r->Ok_0[k] as int].parent_index == Some(p)
            &&& forall|s: int|
                0 <= s < repo.stops@.len() && (#[trigger] repo.stops@[s]).parent_index == Some(p)
                    ==> r->Ok_0.contains(s as u32)
        }),
{
    lemma_last_index_of_bounds(stop_ids(repo.stops@), id@);
    let si = repo.stop_index(id@);
    assert(si < repo.stops@.len());
    let p = repo.stops@[si].parent_index->Some_0;
    assert(p < repo.stops@.len());
    let list = repo.station_to_stops@[p as int]@;
    assert(location_stops(repo, Location::Stop(id)) == Ok::<Seq<u32>, Error>(list));
    assert forall|k: int| 0 <= k < list.len() implies #[trigger] list[k] < repo.stops@.len()
        && repo.stops@[list[k] as int].parent_index == Some(p) by {
        assert(list[k] == repo.station_to_stops@[p as int]@[k]);
    }
}

/// Every index of the list names a stop.
pub open spec fn stops_valid(repo: Repository, list: Seq<u32>) -> bool {
    forall|k: int| 0 <= k < list.len() ==> #[trigger] list[k] < repo.stops@.len()
}

pub proof fn lemma_keep_with_trips_valid(repo: Repository, list: Seq<u32>)
    ensures
        stops_valid(repo, repo.keep_with_trips(list)),
    decreases list.len(),
{
    if list.len() > 0 {
        lemma_keep_with_trips_valid(repo, list.drop_last());
    }
}

/// The stops of a location, as `location_stops` gives them.
pub fn stops_by_location<'a>(repository: &'a Repository, location: &'a Location) -> (r: Result<
    Vec<&'a Stop>,
    Error,
>)
    requires
        repository.wf(),
    ensures
        match (r, location_stops(*repository, *location)) {
            (Ok(v), Ok(list)) => {
                &&& v@.len() == list.len()
                &&& stops_valid(*repository, list)
                &&& forall|k: int|
                    0 <= k < v@.len() ==> *#[trigger] v@[k] == repository.stops@[list[k] as int]
            },
            (Err(e), Err(f)) => e == f,
            _ => false,
        },
        repository.stations_listed() ==> match *location {
            Location::Stop(id) => repository.stop_index(id@) >= 0 && repository.stops@[repository.stop_index(
                id@,
            )].parent_index is Some ==> {
                let p = repository.stops@[repository.stop_index(id@)].parent_index->Some_0;
                &&& r is Ok
                &&& forall|k: int| 0 <= k < r->Ok_0@.len() ==> (#[trigger] r->Ok_0@[k]).parent_index == Some(p)
                &&& forall|s: int|
                    0 <= s < repository.stops@.len() && (#[trigger] repository.stops@[s]).parent_index == Some(p)
                        ==> exists|k: int| 0 <= k < r->Ok_0@.len() && (#[trigger] r->Ok_0@[k]).index == s
            },
            _ => true,
        },
{
    match location {
        Location::Area(id) => {
            let area = match repository.area_idx_by_id(id.as_str()) {
                Some(a) => a,
                None => return Err(Error::InvalidAreaID),
            };
            proof {
                lemma_keep_with_trips_valid(*repository, repository.area_to_stops@[area as int]@);
                lemma_keep_with_trips_valid(*repository, repository.area_to_near_stops@[area as int]@);
            }
            assert(repository.area_index(id@) == area);
            let stops = repository.filter_with_trips(&repository.area_to_stops[area as usize]);
            if stops.len() > 0 {
                Ok(stops)
            } else {
                let near = repository.filter_with_trips(&repository.area_to_near_stops[area as usize]);
                assert(location_stops(*repository, *location) == Ok::<Seq<u32>, Error>(
                    repository.keep_with_trips(repository.area_to_near_stops@[area as int]@),
                ));
                Ok(near)
            }
        },
        Location::Stop(id) => {
            let s = match repository.stop_idx_by_id(id.as_str()) {
                Some(s) => s,
                None => return Err(Error::InvalidStopID),
            };
            let stop = &repository.stops[s as usize];
            match stop.parent_index {
                Some(station_idx) => {
                    let v = repository.stops_by_station(station_idx);
                    proof {
                        if repository.stations_listed() {
                            let list = repository.station_to_stops@[station_idx as int]@;
                            assert forall|k: int| 0 <= k < v@.len() implies (#[trigger] v@[k]).parent_index == Some(
                                station_idx,
                            ) by {
                                assert(list[k] == repository.station_to_stops@[station_idx as int]@[k]);
                            }
                            assert forall|t: int|
                                0 <= t < repository.stops@.len() && (#[trigger] repository.stops@[t]).parent_index
                                    == Some(station_idx) implies exists|k: int|
                                0 <= k < v@.len() && (#[trigger] v@[k]).index == t by {
                                assert(list.contains(t as u32));
                                let k = choose|k: int| 0 <= k < list.len() && list[k] == t as u32;
                                assert(v@[k] == repository.stops@[t]);
                            }
                        }
                    }
                    Ok(v)
                },
                None => {
                    let stops = repository.stops_by_station(s);
                    if stops.len() == 0 {
                        let mut only = Vec::new();
                        only.push(stop);
                        Ok(only)
                    } else {
                        Ok(stops)
                    }
                },
            }
        },
        Location::Coordinate(near) => {
            proof {
                lemma_keep_with_trips_valid(*repository, near@);
            }
            Ok(repository.filter_with_trips(near))
        },
    }
}

/// The routes that serve `stop`, in the order `qs` lists them, each with
/// the first position of the stop on it.
pub open spec fn serving_routes(repo: Repository, stop: u32, qs: Seq<u32>) -> Seq<ServingRoute>
    decreases qs.len(),
{
    if qs.len() == 0 {
        Seq::<ServingRoute>::empty()
    } else {
        let init = serving_routes(repo, stop, qs.drop_last());
        let q = qs.last() as int;
        let stops = repo.raptor_routes@[q].stops@;
        let k = first_index_of(stops, stop);
        if k >= 0 {
            init.push(ServingRoute { route_idx: repo.raptor_routes@[q].index, idx_in_route: k as u32 })
        } else {
            init
        }
    }
}

/// The first position of `x` in `s`, or -1.
pub open spec fn first_index_of(s: Seq<u32>, x: u32) -> int {
    if s.contains(x) {
        choose|k: int| 0 <= k < s.len() && s[k] == x && forall|j: int| 0 <= j < k ==> s[j] != x
    } else {
        -1
    }
}

pub proof fn lemma_first_index_exists(s: Seq<u32>, x: u32)
    requires
        s.contains(x),
    ensures
        exists|k: int| 0 <= k < s.len() && s[k] == x && forall|j: int| 0 <= j < k ==> s[j] != x,
    decreases s.len(),
{
    if s.drop_last().contains(x) {
        lemma_first_index_exists(s.drop_last(), x);
        let k = choose|k: int|
            0 <= k < s.drop_last().len() && s.drop_last()[k] == x && forall|j: int|
                0 <= j < k ==> s.drop_last()[j] != x;
        assert forall|j: int| 0 <= j < k implies s[j] != x by {
            assert(s.drop_last()[j] == s[j]);
        }
        assert(s.drop_last()[k] == s[k]);
    } else {
        let k = s.len() - 1;
        assert forall|j: int| 0 <= j < k implies s[j] != x by {
            if s[j] == x {
                assert(s.drop_last()[j] == x);
            }
        }
        let c = choose|c: int| 0 <= c < s.len() && s[c] == x;
        if c < k {
            assert(s.drop_last()[c] == x);
        }
        assert(s[k] == x);
    }
}

pub proof fn lemma_first_index_of(s: Seq<u32>, x: u32, k: int)
    requires
        0 <= k < s.len(),
        s[k] == x,
        forall|j: int| 0 <= j < k ==> s[j] != x,
    ensures
        first_index_of(s, x) == k,
{
    let c = choose|c: int| 0 <= c < s.len() && s[c] == x && forall|j: int| 0 <= j < c ==> s[j] != x;
    assert(s.contains(x));
    assert(0 <= c < s.len() && s[c] == x && forall|j: int| 0 <= j < c ==> s[j] != x);
    if c < k {
        assert(s[c] != x);
    }
    if k < c {
        assert(s[k] != x);
    }
}

/// The position of `stop_idx` on the route, if the route serves it.
pub fn index_in_route(route: &RaptorRoute, stop_idx: u32) -> (r: Option<u32>)
    requires
        route.stops@.len() <= u32::MAX,
    ensures
        first_index_of(route.stops@, stop_idx) >= 0 ==> r == Some(
            first_index_of(route.stops@, stop_idx) as u32,
        ),
        first_index_of(route.stops@, stop_idx) < 0 ==> r is None,
{
    let mut index: usize = 0;
    while index < route.stops.len()
        invariant
            index <= route.stops@.len() <= u32::MAX,
            forall|j: int| 0 <= j < index ==> route.stops@[j] != stop_idx,
        decreases route.stops@.len() - index,
    {
        if route.stops[index] == stop_idx {
            proof {
                lemma_first_index_of(route.stops@, stop_idx, index as int);
            }
            return Some(index as u32);
        }
        index = index + 1;
    }
    assert(!route.stops@.contains(stop_idx));
    None
}

/// Every serving route names a route that calls at the stop at that
/// position.
pub open spec fn serving_valid(repo: Repository, stop: u32, serving: Seq<ServingRoute>) -> bool {
    forall|k: int|
        0 <= k < serving.len() ==> {
            let sr = #[trigger] serving[k];
            &&& sr.route_idx < repo.raptor_routes@.len()
            &&& sr.idx_in_route < repo.raptor_routes@[sr.route_idx as int].stops@.len()
            &&& repo.raptor_routes@[sr.route_idx as int].stops@[sr.idx_in_route as int] == stop
        }
}

pub proof fn lemma_serving_valid(repo: Repository, stop: u32, qs: Seq<u32>)
    requires
        repo.wf(),
        forall|k: int| 0 <= k < qs.len() ==> #[trigger] qs[k] < repo.raptor_routes@.len(),
    ensures
        serving_valid(repo, stop, serving_routes(repo, stop, qs)),
    decreases qs.len(),
{
    if qs.len() > 0 {
        lemma_serving_valid(repo, stop, qs.drop_last());
        let q = qs.last() as int;
        assert(qs[qs.len() - 1] == qs.last());
        assert(repo.raptor_route_wf(q));
        let stops = repo.raptor_routes@[q].stops@;
        if stops.contains(stop) {
            lemma_first_index_exists(stops, stop);
        }
    }
}

/// Lists, in the allocator's scratch buffer, the routes that serve
/// `stop_idx` and where.
pub fn routes_serving_stop(repository: &Repository, stop_idx: u32, allocator: &mut Allocator)
    requires
        repository.wf(),
        stop_idx < repository.stops@.len(),
    ensures
        final(allocator).routes_serving_stops@ == serving_routes(
            *repository,
            stop_idx,
            repository.stop_to_raptors@[stop_idx as int]@,
        ),
        serving_valid(*repository, stop_idx, final(allocator).routes_serving_stops@),
        final(allocator).tau_star == old(allocator).tau_star,
        final(allocator).marked_stops == old(allocator).marked_stops,
        final(allocator).active == old(allocator).active,
        final(allocator).active_mask == old(allocator).active_mask,
        final(allocator).prev_labels == old(allocator).prev_labels,
        final(allocator).curr_labels == old(allocator).curr_labels,
        final(allocator).parents == old(allocator).parents,
        final(allocator).updates == old(allocator).updates,
        final(allocator).stop_count == old(allocator).stop_count,
        final(allocator).target == old(allocator).target,
{
    allocator.routes_serving_stops.clear();
    let qs = &repository.stop_to_raptors[stop_idx as usize];
    proof {
        assert forall|k: int| 0 <= k < qs@.len() implies #[trigger] qs@[k]
            < repository.raptor_routes@.len() by {
            assert(repository.stop_to_raptors@[stop_idx as int]@[k] < repository.raptor_routes@.len());
        }
        lemma_serving_valid(*repository, stop_idx, qs@);
    }
    let mut i: usize = 0;
    while i < qs.len()
        invariant
            repository.wf(),
            qs@ == repository.stop_to_raptors@[stop_idx as int]@,
            forall|k: int| 0 <= k < qs@.len() ==> #[trigger] qs@[k] < repository.raptor_routes@.len(),
            i <= qs@.len(),
            allocator.routes_serving_stops@ == serving_routes(
                *repository,
                stop_idx,
                qs@.subrange(0, i as int),
            ),
            allocator.tau_star == old(allocator).tau_star,
            allocator.marked_stops == old(allocator).marked_stops,
            allocator.active == old(allocator).active,
            allocator.active_mask == old(allocator).active_mask,
            allocator.prev_labels == old(allocator).prev_labels,
            allocator.curr_labels == old(allocator).curr_labels,
            allocator.parents == old(allocator).parents,
            allocator.updates == old(allocator).updates,
            allocator.stop_count == old(allocator).stop_count,
            allocator.target == old(allocator).target,
        decreases qs@.len() - i,
    {
        let q = qs[i];
        let route = &repository.raptor_routes[q as usize];
        proof {
            assert(qs@.subrange(0, i + 1).drop_last() =~= qs@.subrange(0, i as int));
            assert(qs@.subrange(0, i + 1).last() == q);
            assert(repository.raptor_route_wf(q as int));
        }
        match index_in_route(route, stop_idx) {
            Some(idx_in_route) => {
                allocator.routes_serving_stops.push(
                    ServingRoute { route_idx: route.index, idx_in_route },
                );
            },
            None => {},
        }
        i = i + 1;
    }
    assert(qs@.subrange(0, qs@.len() as int) =~= qs@);
}

/// The arrival time of trip `t` at position `k` of its stops.
pub open spec fn arrival_at(repo: Repository, t: int, k: int) -> Time {
    repo.stop_time_at(t, k).arrival_time
}

/// The departure time of trip `t` at position `k` of its stops.
pub open spec fn departure_at(repo: Repository, t: int, k: int) -> Time {
    repo.stop_time_at(t, k).departure_time
}

pub fn get_arrival_time(repository: &Repository, trip_idx: u32, index: usize) -> (t: Time)
    requires
        repository.wf(),
        trip_idx < repository.trips@.len(),
        index < repository.trip_to_stop_slice@[trip_idx as int].count,
    ensures
        t == arrival_at(*repository, trip_idx as int, index as int),
{
    let stop_times = repository.stop_times_by_trip_idx(trip_idx);
    stop_times[index].arrival_time
}

pub fn get_departure_time(repository: &Repository, trip_idx: u32, index: usize) -> (t: Time)
    requires
        repository.wf(),
        trip_idx < repository.trips@.len(),
        index < repository.trip_to_stop_slice@[trip_idx as int].count,
    ensures
        t == departure_at(*repository, trip_idx as int, index as int),
{
    let stop_times = repository.stop_times_by_trip_idx(trip_idx);
    stop_times[index].departure_time
}

/// Trip `trips[k]` leaves position `index` no earlier than `time`.
pub open spec fn catchable(repo: Repository, trips: Seq<u32>, index: int, time: Time, k: int) -> bool {
    departure_at(repo, trips[k] as int, index).0 >= time.0
}

/// The position in `trips` of the trip to board at position `index` at
/// `time`: among the trips that have not left yet, the first of those that
/// leave earliest.
pub open spec fn is_earliest(repo: Repository, trips: Seq<u32>, index: int, time: Time, k: int) -> bool {
    &&& 0 <= k < trips.len()
    &&& catchable(repo, trips, index, time, k)
    &&& forall|j: int|
        0 <= j < trips.len() && catchable(repo, trips, index, time, j) ==> departure_at(
            repo,
            trips[k] as int,
            index,
        ).0 <= departure_at(repo, trips[j] as int, index).0
    &&& forall|j: int|
        0 <= j < k && catchable(repo, trips, index, time, j) ==> departure_at(
            repo,
            trips[k] as int,
            index,
        ).0 < departure_at(repo, trips[j] as int, index).0
}

/// The earliest trip of the route that can be caught at position `index`
/// at `time`.
pub fn find_earliest_trip<'a>(repository: &'a Repository, route: &'a RaptorRoute, index: usize, time: Time) -> (r:
    Option<&'a Trip>)
    requires
        repository.wf(),
        forall|k: int|
            0 <= k < route.trips@.len() ==> #[trigger] route.trips@[k] < repository.trips@.len() && index
                < repository.trip_to_stop_slice@[route.trips@[k] as int].count,
    ensures
        r is None <==> forall|j: int|
            0 <= j < route.trips@.len() ==> !catchable(*repository, route.trips@, index as int, time, j),
        r matches Some(trip) ==> exists|k: int|
            is_earliest(*repository, route.trips@, index as int, time, k) && *trip
                == repository.trips@[route.trips@[k] as int],
{
    let mut earliest: Option<(u32, Time)> = None;
    let ghost mut best_k: int = -1;
    let mut i: usize = 0;
    while i < route.trips.len()
        invariant
            repository.wf(),
            forall|k: int|
                0 <= k < route.trips@.len() ==> #[trigger] route.trips@[k] < repository.trips@.len() && index
                    < repository.trip_to_stop_slice@[route.trips@[k] as int].count,
            i <= route.trips@.len(),
            earliest is None ==> forall|j: int|
                0 <= j < i ==> !catchable(*repository, route.trips@, index as int, time, j),
            earliest matches Some((t, d)) ==> {
                &&& 0 <= best_k < i
                &&& t == route.trips@[best_k]
                &&& d == departure_at(*repository, t as int, index as int)
                &&& catchable(*repository, route.trips@, index as int, time, best_k)
                &&& forall|j: int|
                    0 <= j < i && catchable(*repository, route.trips@, index as int, time, j)
                        ==> d.0 <= departure_at(*repository, route.trips@[j] as int, index as int).0
                &&& forall|j: int|
                    0 <= j < best_k && catchable(*repository, route.trips@, index as int, time, j)
                        ==> d.0 < departure_at(*repository, route.trips@[j] as int, index as int).0
            },
        decreases route.trips@.len() - i,
    {
        let trip_idx = route.trips[i];
        assert(route.trips@[i as int] == trip_idx);
        let stop_times = repository.stop_times_by_trip_idx(trip_idx);
        let stop_time = &stop_times[index];
        let departure_time = stop_time.departure_time;
        assert(departure_time == departure_at(*repository, trip_idx as int, index as int));
        if departure_time.0 >= time.0 {
            match earliest {
                Some((_, time_to_beat)) => {
                    if departure_time.0 < time_to_beat.0 {
                        earliest = Some((trip_idx, departure_time));
                        proof {
                            best_k = i as int;
                        }
                    }
                },
                None => {
                    earliest = Some((trip_idx, departure_time));
                    proof {
                        best_k = i as int;
                    }
                },
            }
        }
        i = i + 1;
    }
    match earliest {
        Some((trip_idx, _)) => {
            assert(is_earliest(*repository, route.trips@, index as int, time, best_k));
            Some(&repository.trips[trip_idx as usize])
        },
        None => None,
    }
}

/// Trip `trips[k]` reaches position `index` no later than `time`.
pub open spec fn reachable_by(repo: Repository, trips: Seq<u32>, index: int, time: Time, k: int) -> bool {
    arrival_at(repo, trips[k] as int, index).0 <= time.0
}

/// The position in `trips` of the trip to alight from at position `index`
/// by `time`: among the trips that arrive in time, the first of those that
/// arrive latest.
pub open spec fn is_latest(repo: Repository, trips: Seq<u32>, index: int, time: Time, k: int) -> bool {
    &&& 0 <= k < trips.len()
    &&& reachable_by(repo, trips, index, time, k)
    &&& forall|j: int|
        0 <= j < trips.len() && reachable_by(repo, trips, index, time, j) ==> arrival_at(
            repo,
            trips[k] as int,
            index,
        ).0 >= arrival_at(repo, trips[j] as int, index).0
    &&& forall|j: int|
        0 <= j < k && reachable_by(repo, trips, index, time, j) ==> arrival_at(
            repo,
            trips[k] as int,
            index,
        ).0 > arrival_at(repo, trips[j] as int, index).0
}

/// The latest trip of the route that reaches position `index` by `time`.
pub fn find_latest_trip<'a>(repository: &'a Repository, route: &'a RaptorRoute, index: usize, time: Time) -> (r:
    Option<&'a Trip>)
    requires
        repository.wf(),
        forall|k: int|
            0 <= k < route.trips@.len() ==> #[trigger] route.trips@[k] < repository.trips@.len() && index
                < repository.trip_to_stop_slice@[route.trips@[k] as int].count,
    ensures
        r is None <==> forall|j: int|
            0 <= j < route.trips@.len() ==> !reachable_by(*repository, route.trips@, index as int, time, j),
        r matches Some(trip) ==> exists|k: int|
            is_latest(*repository, route.trips@, index as int, time, k) && *trip
                == repository.trips@[route.trips@[k] as int],
{
    let mut latest: Option<(u32, Time)> = None;
    let ghost mut best_k: int = -1;
    let mut i: usize = 0;
    while i < route.trips.len()
        invariant
            repository.wf(),
            forall|k: int|
                0 <= k < route.trips@.len() ==> #[trigger] route.trips@[k] < repository.trips@.len() && index
                    < repository.trip_to_stop_slice@[route.trips@[k] as int].count,
            i <= route.trips@.len(),
            latest is None ==> forall|j: int|
                0 <= j < i ==> !reachable_by(*repository, route.trips@, index as int, time, j),
            latest matches Some((t, a)) ==> {
                &&& 0 <= best_k < i
                &&& t == route.trips@[best_k]
                &&& a == arrival_at(*repository, t as int, index as int)
                &&& reachable_by(*repository, route.trips@, index as int, time, best_k)
                &&& forall|j: int|
                    0 <= j < i && reachable_by(*repository, route.trips@, index as int, time, j)
                        ==> a.0 >= arrival_at(*repository, route.trips@[j] as int, index as int).0
                &&& forall|j: int|
                    0 <= j < best_k && reachable_by(*repository, route.trips@, index as int, time, j)
                        ==> a.0 > arrival_at(*repository, route.trips@[j] as int, index as int).0
            },
        decreases route.trips@.len() - i,
    {
        let trip_idx = route.trips[i];
        assert(route.trips@[i as int] == trip_idx);
        let stop_times = repository.stop_times_by_trip_idx(trip_idx);
        let stop_time = &stop_times[index];
        let arrival_time = stop_time.arrival_time;
        assert(arrival_time == arrival_at(*repository, trip_idx as int, index as int));
        if arrival_time.0 <= time.0 {
            match latest {
                Some((_, time_to_beat)) => {
                    if arrival_time.0 > time_to_beat.0 {
                        latest = Some((trip_idx, arrival_time));
                        proof {
                            best_k = i as int;
                        }
                    }
                },
                None => {
                    latest = Some((trip_idx, arrival_time));
                    proof {
                        best_k = i as int;
                    }
                },
            }
        }
        i = i + 1;
    }
    match latest {
        Some((trip_idx, _)) => {
            assert(is_latest(*repository, route.trips@, index as int, time, best_k));
            Some(&repository.trips[trip_idx as usize])
        },
        None => None,
    }
}

/// The time a transfer takes: its minimum transfer time, or else the time
/// to walk it.
pub open spec fn transfer_time(transfer: Transfer) -> Duration {
    match transfer.min_transfer_time {
        Some(d) => d,
        None => transfer.walk_time,
    }
}

pub fn transfer_duration<'a>(repository: &'a Repository, transfer: &'a Transfer) -> (d: Duration)
    ensures
        d == transfer_time(*transfer),
        transfer.min_transfer_time matches Some(m) ==> d == m,
        transfer.min_transfer_time is None ==> d == transfer.walk_time,
{
    match transfer.min_transfer_time {
        Some(duration) => duration,
        None => transfer.walk_time,
    }
}

} // verus!
