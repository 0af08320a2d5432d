//! One round of RAPTOR: scanning the active routes, then the transfers and
//! walks out of the improved stops. Each step only proposes updates; the
//! allocator applies them afterwards.

use crate::bitmask::{mask_bits, set_positions};
use crate::raptor::allocator::{
    best_or_earliest, best_or_latest, improves, improves_reverse, search_view, update_lands, update_wf, Allocator,
    SearchView,
};
use crate::raptor::discovery::{
    arrival_at, departure_at, find_earliest_trip, find_latest_trip, get_arrival_time,
    get_departure_time, transfer_duration, transfer_time, catchable, is_earliest, is_latest, reachable_by,
};
use crate::raptor::location::Point;
use crate::raptor::state::{Parent, ParentType, Update};
use crate::repository::{Repository, Trip, Walk};
use crate::time::Time;
use vstd::prelude::*;

verus! {

/// Two allocators agree on everything but the update buffer.
pub open spec fn same_but_updates(a: Allocator, b: Allocator) -> bool {
    &&& a.tau_star == b.tau_star
    &&& a.marked_stops == b.marked_stops
    &&& a.active == b.active
    &&& a.active_mask == b.active_mask
    &&& a.prev_labels == b.prev_labels
    &&& a.curr_labels == b.curr_labels
    &&& a.parents == b.parents
    &&& a.stop_count == b.stop_count
    &&& a.routes_serving_stops == b.routes_serving_stops
    &&& a.target == b.target
}

/// The update rides trip `route.trips[k]` of RAPTOR route `q` from position
/// `b` to position `i`, boarding no earlier than the boarding stop was
/// reached in the previous round, and it beats both the stop's best time
/// and the best time at the target.
pub open spec fn transit_ride(repo: Repository, a: Allocator, u: Update, q: int, k: int, b: int, i: int) -> bool {
    let route = repo.raptor_routes@[q];
    let t = route.trips@[k];
    &&& 0 <= q < repo.raptor_routes@.len()
    &&& 0 <= k < route.trips@.len()
    &&& 0 <= b < i < route.stops@.len()
    &&& u.stop_idx == route.stops@[i]
    &&& u.arrival_time == arrival_at(repo, t as int, i)
    &&& u.parent == (Parent {
        from: Point::Stop(route.stops@[b]),
        to: Point::Stop(route.stops@[i]),
        parent_type: ParentType::Transit(t),
        departure_time: departure_at(repo, t as int, b),
        arrival_time: arrival_at(repo, t as int, i),
    })
    &&& departure_at(repo, t as int, b).0 >= best_or_latest(a.prev_labels@[route.stops@[b] as int])
    &&& improves(u.arrival_time, a.tau_star@[u.stop_idx as int])
    &&& u.arrival_time.0 < a.target.tau_star.0
}

pub open spec fn transit_update(repo: Repository, a: Allocator, u: Update) -> bool {
    exists|q: int, k: int, b: int, i: int| transit_ride(repo, a, u, q, k, b, i)
}

/// For searches backwards from an arrival: the update rides trip
/// `route.trips[k]` from position `i` to position `b`, arriving no later than
/// the alighting stop must be left in the previous round, and it gives the
/// stop a later departure than its best.
pub open spec fn transit_ride_reverse(repo: Repository, a: Allocator, u: Update, q: int, k: int, b: int, i: int) -> bool {
    let route = repo.raptor_routes@[q];
    let t = route.trips@[k];
    &&& 0 <= q < repo.raptor_routes@.len()
    &&& 0 <= k < route.trips@.len()
    &&& 0 <= i < b < route.stops@.len()
    &&& u.stop_idx == route.stops@[i]
    &&& u.arrival_time == departure_at(repo, t as int, i)
    &&& u.parent == (Parent {
        from: Point::Stop(route.stops@[i]),
        to: Point::Stop(route.stops@[b]),
        parent_type: ParentType::Transit(t),
        departure_time: departure_at(repo, t as int, i),
        arrival_time: arrival_at(repo, t as int, b),
    })
    &&& arrival_at(repo, t as int, b).0 <= best_or_earliest(a.prev_labels@[route.stops@[b] as int])
    &&& improves_reverse(u.arrival_time, a.tau_star@[u.stop_idx as int])
}

pub open spec fn transit_update_reverse(repo: Repository, a: Allocator, u: Update) -> bool {
    exists|q: int, k: int, b: int, i: int| transit_ride_reverse(repo, a, u, q, k, b, i)
}

/// `out` is `before` followed by updates that all satisfy `ok`.
pub open spec fn extends_with(out: Seq<Update>, before: Seq<Update>, ok: spec_fn(Update) -> bool) -> bool {
    &&& before.len() <= out.len()
    &&& out.subrange(0, before.len() as int) == before
    &&& forall|k: int| before.len() <= k < out.len() ==> ok(#[trigger] out[k])
}

/// The position of the trip to board at position `index` at `time`
/// (`is_earliest`), or -1 when none can be caught.
pub open spec fn earliest_index(repo: Repository, trips: Seq<u32>, index: int, time: Time) -> int {
    if exists|k: int| is_earliest(repo, trips, index, time, k) {
        choose|k: int| is_earliest(repo, trips, index, time, k)
    } else {
        -1
    }
}

/// The position of the trip to alight from at position `index` by `time`
/// (`is_latest`), or -1 when none arrives in time.
pub open spec fn latest_index(repo: Repository, trips: Seq<u32>, index: int, time: Time) -> int {
    if exists|k: int| is_latest(repo, trips, index, time, k) {
        choose|k: int| is_latest(repo, trips, index, time, k)
    } else {
        -1
    }
}

/// Only one position is the earliest trip.
pub proof fn lemma_earliest_unique(repo: Repository, trips: Seq<u32>, index: int, time: Time, k1: int, k2: int)
    requires
        is_earliest(repo, trips, index, time, k1),
        is_earliest(repo, trips, index, time, k2),
    ensures
        k1 == k2,
{
    if k1 < k2 {
        assert(departure_at(repo, trips[k2] as int, index).0 < departure_at(repo, trips[k1] as int, index).0);
    } else if k2 < k1 {
        assert(departure_at(repo, trips[k1] as int, index).0 < departure_at(repo, trips[k2] as int, index).0);
    }
}

/// Only one position is the latest trip.
pub proof fn lemma_latest_unique(repo: Repository, trips: Seq<u32>, index: int, time: Time, k1: int, k2: int)
    requires
        is_latest(repo, trips, index, time, k1),
        is_latest(repo, trips, index, time, k2),
    ensures
        k1 == k2,
{
    if k1 < k2 {
        assert(arrival_at(repo, trips[k2] as int, index).0 > arrival_at(repo, trips[k1] as int, index).0);
    } else if k2 < k1 {
        assert(arrival_at(repo, trips[k1] as int, index).0 > arrival_at(repo, trips[k2] as int, index).0);
    }
}

/// Scanning RAPTOR route `q` forward from its active position up to (not
/// including) position `i`: the updates proposed so far, the position in
/// the route's trips of the trip being ridden (-1 for none), and where it
/// was boarded. At each position, the trip being ridden proposes its
/// arrival there if that beats the stop's best time and the target's;
/// then, if the stop was reached in the previous round no later than the
/// trip being ridden leaves it, the earliest trip that can be caught there
/// (if any) is boarded instead.
pub open spec fn scan_forward(repo: Repository, v: SearchView, q: int, i: int) -> (Seq<Update>, int, int)
    decreases i,
{
    let route = repo.raptor_routes@[q];
    if i <= v.active[q] || i <= 0 {
        (Seq::empty(), -1, 0)
    } else {
        let (us, k, b) = scan_forward(repo, v, q, i - 1);
        let j = i - 1;
        let stop = route.stops@[j];
        let t = route.trips@[k];
        let arrival = arrival_at(repo, t as int, j);
        let us2 = if k >= 0 && improves(arrival, v.tau[stop as int]) && arrival.0 < v.target.0.0 {
            us.push(
                Update {
                    stop_idx: stop,
                    arrival_time: arrival,
                    parent: Parent {
                        from: Point::Stop(route.stops@[b]),
                        to: Point::Stop(stop),
                        parent_type: ParentType::Transit(t),
                        departure_time: departure_at(repo, t as int, b),
                        arrival_time: arrival,
                    },
                },
            )
        } else {
            us
        };
        let prev_label = match v.prev[stop as int] {
            Some(l) => l,
            None => Time(u32::MAX),
        };
        let current = if k >= 0 {
            departure_at(repo, t as int, j).0
        } else {
            u32::MAX
        };
        let e = earliest_index(repo, route.trips@, j, prev_label);
        if prev_label.0 <= current && e >= 0 {
            (us2, e, j)
        } else {
            (us2, k, b)
        }
    }
}

/// The updates that scanning each of the routes `qs` forward proposes,
/// route after route.
pub open spec fn route_proposals(repo: Repository, v: SearchView, qs: Seq<usize>) -> Seq<Update>
    decreases qs.len(),
{
    if qs.len() == 0 {
        Seq::empty()
    } else {
        let q = qs.last() as int;
        route_proposals(repo, v, qs.drop_last()) + scan_forward(repo, v, q, repo.raptor_routes@[q].stops@.len() as int).0
    }
}

/// Scanning RAPTOR route `q` backwards from its active position `p` down to
/// position `next` (positions `next..=p`), for searches backwards from an
/// arrival: the updates proposed so far, the position in the route's trips
/// of the trip being ridden (-1 for none), and where it is left. At each
/// position, the trip being ridden proposes its departure there if that is
/// later than the stop's best; then, if the stop must be left in the
/// previous round no earlier than the trip being ridden arrives there, the
/// latest trip that reaches it by then (if any) is taken instead.
pub open spec fn scan_backward(repo: Repository, v: SearchView, q: int, next: int) -> (Seq<Update>, int, int)
    decreases v.active[q] + 1 - next,
{
    let route = repo.raptor_routes@[q];
    let p = v.active[q] as int;
    if next >= p + 1 || next < 0 {
        (Seq::empty(), -1, 0)
    } else {
        let (us, k, b) = scan_backward(repo, v, q, next + 1);
        let j = next;
        let stop = route.stops@[j];
        let t = route.trips@[k];
        let departure = departure_at(repo, t as int, j);
        let us2 = if k >= 0 && improves_reverse(departure, v.tau[stop as int]) {
            us.push(
                Update {
                    stop_idx: stop,
                    arrival_time: departure,
                    parent: Parent {
                        from: Point::Stop(stop),
                        to: Point::Stop(route.stops@[b]),
                        parent_type: ParentType::Transit(t),
                        departure_time: departure,
                        arrival_time: arrival_at(repo, t as int, b),
                    },
                },
            )
        } else {
            us
        };
        let prev_label = match v.prev[stop as int] {
            Some(l) => l,
            None => Time(0),
        };
        let current = if k >= 0 {
            arrival_at(repo, t as int, j).0
        } else {
            0
        };
        let e = latest_index(repo, route.trips@, j, prev_label);
        if prev_label.0 >= current && e >= 0 {
            (us2, e, j)
        } else {
            (us2, k, b)
        }
    }
}

/// The updates that scanning RAPTOR route `q` backwards proposes: none when
/// its active position lies past its stops.
pub open spec fn reverse_scan(repo: Repository, v: SearchView, q: int) -> Seq<Update> {
    if v.active[q] >= repo.raptor_routes@[q].stops@.len() {
        Seq::empty()
    } else {
        scan_backward(repo, v, q, 0).0
    }
}

/// The updates that scanning each of the routes `qs` backwards proposes,
/// route after route.
pub open spec fn reverse_route_proposals(repo: Repository, v: SearchView, qs: Seq<usize>) -> Seq<Update>
    decreases qs.len(),
{
    if qs.len() == 0 {
        Seq::empty()
    } else {
        reverse_route_proposals(repo, v, qs.drop_last()) + reverse_scan(repo, v, qs.last() as int)
    }
}

/// Scans RAPTOR route `route_idx` from its active position and proposes an
/// update for every stop that the best trip reaches earlier than known.
fn scan_route(repository: &Repository, allocator: &Allocator, route_idx: usize, out: &mut Vec<Update>)
    requires
        repository.wf(),
        allocator.wf(repository.stops@.len() as int, repository.raptor_routes@.len() as int),
        route_idx < repository.raptor_routes@.len(),
    ensures
        final(out)@ == old(out)@ + scan_forward(
            *repository,
            search_view(*allocator),
            route_idx as int,
            repository.raptor_routes@[route_idx as int].stops@.len() as int,
        ).0,
        extends_with(
            final(out)@,
            old(out)@,
            |u: Update| transit_update(*repository, *allocator, u) && update_wf(u, repository.stops@.len() as int)
                && update_lands(u),
        ),
{
    let ghost n = repository.stops@.len() as int;
    let ghost q = route_idx as int;
    let p_idx = allocator.active[route_idx];
    let route = &repository.raptor_routes[route_idx];
    assert(repository.raptor_route_wf(q));
    let mut active_trip: Option<&Trip> = None;
    let ghost mut active_k: int = 0;
    let mut boarding_stop: u32 = u32::MAX;
    let mut boarding_p: usize = usize::MAX;
    let mut i: usize = p_idx as usize;
    let ghost before = out@;
    assert(out@.subrange(0, before.len() as int) =~= before);
    assert(before + Seq::<Update>::empty() =~= before);
    while i < route.stops.len()
        invariant
            repository.wf(),
            allocator.wf(n, repository.raptor_routes@.len() as int),
            n == repository.stops@.len(),
            0 <= q < repository.raptor_routes@.len(),
            repository.raptor_route_wf(q),
            *route == repository.raptor_routes@[q],
            active_trip matches Some(trip) ==> {
                &&& 0 <= active_k < route.trips@.len()
                &&& *trip == repository.trips@[route.trips@[active_k] as int]
                &&& boarding_p < i
                &&& boarding_p < route.stops@.len()
                &&& boarding_stop == route.stops@[boarding_p as int]
                &&& departure_at(*repository, route.trips@[active_k] as int, boarding_p as int).0
                    >= best_or_latest(allocator.prev_labels@[boarding_stop as int])
            },
            extends_with(
                out@,
                before,
                |u: Update| transit_update(*repository, *allocator, u) && update_wf(u, n) && update_lands(u),
            ),
            p_idx == allocator.active@[q],
            p_idx <= i,
            i > route.stops@.len() ==> i == p_idx,
            out@ == before + scan_forward(*repository, search_view(*allocator), q, i as int).0,
            active_trip is Some <==> scan_forward(*repository, search_view(*allocator), q, i as int).1 >= 0,
            active_trip is Some ==> active_k == scan_forward(*repository, search_view(*allocator), q, i as int).1
                && boarding_p == scan_forward(*repository, search_view(*allocator), q, i as int).2,
        decreases route.stops@.len() - i,
    {
        let stop_idx = route.stops[i];
        proof {
            assert(stop_idx < n);
        }
        let ghost st = scan_forward(*repository, search_view(*allocator), q, i as int);
        let ghost out0 = out@;
        match active_trip {
            Some(trip) => {
                let ghost t = route.trips@[active_k];
                assert(repository.trip_serves(t as int, route.stops@));
                assert(trip.index == t);
                let arrival_time = get_arrival_time(repository, trip.index, i);
                let best = match allocator.tau_star[stop_idx as usize] {
                    Some(b) => b.0,
                    None => u32::MAX,
                };
                if arrival_time.0 < best && arrival_time.0 < allocator.target.tau_star.0 {
                    let departure_time = get_departure_time(repository, trip.index, boarding_p);
                    let update = Update::new(
                        stop_idx,
                        arrival_time,
                        Parent::new_transit(
                            Point::from(boarding_stop),
                            Point::from(stop_idx),
                            trip.index,
                            departure_time,
                            arrival_time,
                        ),
                    );
                    proof {
                        assert(transit_ride(*repository, *allocator, update, q, active_k, boarding_p as int, i as int));
                        assert(boarding_stop < n);
                    }
                    out.push(update);
                    proof {
                        assert(out@.subrange(0, before.len() as int) =~= before) by {
                            assert(out@.drop_last().subrange(0, before.len() as int) == before);
                        }
                        assert(out@ =~= before + st.0.push(update));
                    }
                }
            },
            None => {},
        }
        let ghost us2 = if st.1 >= 0 && improves(
            arrival_at(*repository, route.trips@[st.1] as int, i as int),
            allocator.tau_star@[stop_idx as int],
        ) && arrival_at(*repository, route.trips@[st.1] as int, i as int).0 < allocator.target.tau_star.0 {
            st.0.push(
                Update {
                    stop_idx: stop_idx,
                    arrival_time: arrival_at(*repository, route.trips@[st.1] as int, i as int),
                    parent: Parent {
                        from: Point::Stop(route.stops@[st.2]),
                        to: Point::Stop(stop_idx),
                        parent_type: ParentType::Transit(route.trips@[st.1]),
                        departure_time: departure_at(*repository, route.trips@[st.1] as int, st.2),
                        arrival_time: arrival_at(*repository, route.trips@[st.1] as int, i as int),
                    },
                },
            )
        } else {
            st.0
        };
        assert(out@ =~= before + us2);
        let prev_label = match allocator.prev_labels[stop_idx as usize] {
            Some(l) => l,
            None => Time::latest(),
        };
        let current_trip_dep = match active_trip {
            Some(t) => {
                proof {
                    assert(repository.trip_serves(route.trips@[active_k] as int, route.stops@));
                }
                get_departure_time(repository, t.index, i)
            },
            None => Time::latest(),
        };
        if prev_label.0 <= current_trip_dep.0 {
            proof {
                assert forall|k: int| 0 <= k < route.trips@.len() implies #[trigger] route.trips@[k] < repository.trips@.len()
                    && i < repository.trip_to_stop_slice@[route.trips@[k] as int].count by {
                    assert(repository.trip_serves(route.trips@[k] as int, route.stops@));
                }
            }
            match find_earliest_trip(repository, route, i, prev_label) {
                Some(earlier_trip) => {
                    proof {
                        let k = choose|k: int|
                            is_earliest(*repository, route.trips@, i as int, prev_label, k) && *earlier_trip
                                == repository.trips@[route.trips@[k] as int];
                        active_k = k;
                        let e = earliest_index(*repository, route.trips@, i as int, prev_label);
                        lemma_earliest_unique(*repository, route.trips@, i as int, prev_label, e, k);
                    }
                    active_trip = Some(earlier_trip);
                    boarding_stop = stop_idx;
                    boarding_p = i;
                },
                None => {
                    proof {
                        if exists|k: int| is_earliest(*repository, route.trips@, i as int, prev_label, k) {
                            let k = choose|k: int| is_earliest(*repository, route.trips@, i as int, prev_label, k);
                            assert(catchable(*repository, route.trips@, i as int, prev_label, k));
                        }
                    }
                },
            }
        } else {
        }
        i = i + 1;
    }
    assert(out@ == before + scan_forward(*repository, search_view(*allocator), q, route.stops@.len() as int).0);
}

/// Scans every active route and gathers the transit updates they propose.
pub fn explore_routes(repository: &Repository, allocator: &mut Allocator)
    requires
        repository.wf(),
        old(allocator).wf(repository.stops@.len() as int, repository.raptor_routes@.len() as int),
    ensures
        final(allocator).wf(repository.stops@.len() as int, repository.raptor_routes@.len() as int),
        same_but_updates(*final(allocator), *old(allocator)),
        final(allocator).updates@ == old(allocator).updates@ + route_proposals(
            *repository,
            search_view(*old(allocator)),
            set_positions(mask_bits(old(allocator).active_mask)),
        ),
        extends_with(
            final(allocator).updates@,
            old(allocator).updates@,
            |u: Update| transit_update(*repository, *old(allocator), u) && update_lands(u),
        ),
{
    let ghost n = repository.stops@.len() as int;
    let routes = allocator.active_mask.iter_ones();
    let mut out: Vec<Update> = Vec::new();
    let mut j: usize = 0;
    while j < routes.len()
        invariant
            repository.wf(),
            allocator.wf(n, repository.raptor_routes@.len() as int),
            n == repository.stops@.len(),
            *allocator == *old(allocator),
            forall|k: int| 0 <= k < routes@.len() ==> #[trigger] routes@[k] < mask_bits(allocator.active_mask).len(),
            j <= routes@.len(),
            routes@ == set_positions(mask_bits(allocator.active_mask)),
            out@ == route_proposals(*repository, search_view(*allocator), routes@.subrange(0, j as int)),
            forall|k: int|
                0 <= k < out@.len() ==> transit_update(*repository, *allocator, #[trigger] out@[k])
                    && update_wf(out@[k], n) && update_lands(out@[k]),
        decreases routes@.len() - j,
    {
        let ghost before = out@;
        scan_route(repository, allocator, routes[j], &mut out);
        proof {
            let nxt = routes@.subrange(0, j + 1);
            assert(nxt.drop_last() =~= routes@.subrange(0, j as int));
            assert(nxt.last() == routes@[j as int]);
            assert(out@ =~= route_proposals(*repository, search_view(*allocator), nxt));
            assert forall|k: int| 0 <= k < out@.len() implies transit_update(*repository, *allocator, #[trigger] out@[k])
                && update_wf(out@[k], n) && update_lands(out@[k]) by {
                if k < before.len() {
                    assert(out@.subrange(0, before.len() as int)[k] == before[k]);
                }
            }
        }
        j = j + 1;
    }
    assert(routes@.subrange(0, routes@.len() as int) =~= routes@);
    let ghost old_updates = allocator.updates@;
    allocator.updates.append(&mut out);
    proof {
        assert(allocator.updates@.subrange(0, old_updates.len() as int) =~= old_updates);
    }
}

/// Scans RAPTOR route `route_idx` backwards from its active position and
/// proposes, for every stop, the latest departure that still reaches a stop
/// by the time it must be left.
fn scan_route_reverse(repository: &Repository, allocator: &Allocator, route_idx: usize, out: &mut Vec<Update>)
    requires
        repository.wf(),
        allocator.wf(repository.stops@.len() as int, repository.raptor_routes@.len() as int),
        route_idx < repository.raptor_routes@.len(),
    ensures
        final(out)@ == old(out)@ + reverse_scan(*repository, search_view(*allocator), route_idx as int),
        extends_with(
            final(out)@,
            old(out)@,
            |u: Update| transit_update_reverse(*repository, *allocator, u) && update_wf(
                u,
                repository.stops@.len() as int,
            ),
        ),
{
    let ghost n = repository.stops@.len() as int;
    let ghost q = route_idx as int;
    let p_idx = allocator.active[route_idx];
    let route = &repository.raptor_routes[route_idx];
    assert(repository.raptor_route_wf(q));
    let ghost before = out@;
    assert(out@.subrange(0, before.len() as int) =~= before);
    if p_idx as usize >= route.stops.len() {
        assert(before + Seq::<Update>::empty() =~= before);
        return;
    }
    assert(before + Seq::<Update>::empty() =~= before);
    let mut active_trip: Option<&Trip> = None;
    let ghost mut active_k: int = 0;
    let mut alighting_stop: u32 = u32::MAX;
    let mut alighting_p: usize = usize::MAX;
    let mut next: usize = p_idx as usize + 1;
    while next > 0
        invariant
            repository.wf(),
            allocator.wf(n, repository.raptor_routes@.len() as int),
            n == repository.stops@.len(),
            0 <= q < repository.raptor_routes@.len(),
            repository.raptor_route_wf(q),
            *route == repository.raptor_routes@[q],
            next <= route.stops@.len(),
            active_trip matches Some(trip) ==> {
                &&& 0 <= active_k < route.trips@.len()
                &&& *trip == repository.trips@[route.trips@[active_k] as int]
                &&& next <= alighting_p
                &&& alighting_p < route.stops@.len()
                &&& alighting_stop == route.stops@[alighting_p as int]
                &&& arrival_at(*repository, route.trips@[active_k] as int, alighting_p as int).0
                    <= best_or_earliest(allocator.prev_labels@[alighting_stop as int])
            },
            extends_with(
                out@,
                before,
                |u: Update| transit_update_reverse(*repository, *allocator, u) && update_wf(u, n),
            ),
            p_idx == allocator.active@[q],
            p_idx < route.stops@.len(),
            next <= p_idx + 1,
            out@ == before + scan_backward(*repository, search_view(*allocator), q, next as int).0,
            active_trip is Some <==> scan_backward(*repository, search_view(*allocator), q, next as int).1 >= 0,
            active_trip is Some ==> active_k == scan_backward(*repository, search_view(*allocator), q, next as int).1
                && alighting_p == scan_backward(*repository, search_view(*allocator), q, next as int).2,
        decreases next,
    {
        let i = next - 1;
        let stop_idx = route.stops[i];
        proof {
            assert(stop_idx < n);
        }
        let ghost st = scan_backward(*repository, search_view(*allocator), q, next as int);
        match active_trip {
            Some(trip) => {
                let ghost t = route.trips@[active_k];
                assert(repository.trip_serves(t as int, route.stops@));
                assert(trip.index == t);
                let dep_time = get_departure_time(repository, trip.index, i);
                let best = match allocator.tau_star[stop_idx as usize] {
                    Some(b) => b.0,
                    None => 0,
                };
                if dep_time.0 > best {
                    let arrival_time = get_arrival_time(repository, trip.index, alighting_p);
                    let update = Update::new(
                        stop_idx,
                        dep_time,
                        Parent::new_transit(
                            Point::from(stop_idx),
                            Point::from(alighting_stop),
                            trip.index,
                            dep_time,
                            arrival_time,
                        ),
                    );
                    proof {
                        assert(transit_ride_reverse(*repository, *allocator, update, q, active_k, alighting_p as int, i as int));
                    }
                    out.push(update);
                    proof {
                        assert(out@.subrange(0, before.len() as int) =~= before) by {
                            assert(out@.drop_last().subrange(0, before.len() as int) == before);
                        }
                        assert(out@ =~= before + st.0.push(update));
                    }
                }
            },
            None => {},
        }
        let ghost us2 = if st.1 >= 0 && improves_reverse(
            departure_at(*repository, route.trips@[st.1] as int, i as int),
            allocator.tau_star@[stop_idx as int],
        ) {
            st.0.push(
                Update {
                    stop_idx: stop_idx,
                    arrival_time: departure_at(*repository, route.trips@[st.1] as int, i as int),
                    parent: Parent {
                        from: Point::Stop(stop_idx),
                        to: Point::Stop(route.stops@[st.2]),
                        parent_type: ParentType::Transit(route.trips@[st.1]),
                        departure_time: departure_at(*repository, route.trips@[st.1] as int, i as int),
                        arrival_time: arrival_at(*repository, route.trips@[st.1] as int, st.2),
                    },
                },
            )
        } else {
            st.0
        };
        assert(out@ =~= before + us2);
        let prev_label = match allocator.prev_labels[stop_idx as usize] {
            Some(l) => l,
            None => Time::earliest(),
        };
        let trip_arrival = match active_trip {
            Some(t) => {
                proof {
                    assert(repository.trip_serves(route.trips@[active_k] as int, route.stops@));
                }
                get_arrival_time(repository, t.index, i)
            },
            None => Time::earliest(),
        };
        if prev_label.0 >= trip_arrival.0 {
            proof {
                assert forall|k: int| 0 <= k < route.trips@.len() implies #[trigger] route.trips@[k] < repository.trips@.len()
                    && i < repository.trip_to_stop_slice@[route.trips@[k] as int].count by {
                    assert(repository.trip_serves(route.trips@[k] as int, route.stops@));
                }
            }
            match find_latest_trip(repository, route, i, prev_label) {
                Some(later_trip) => {
                    proof {
                        let k = choose|k: int|
                            is_latest(*repository, route.trips@, i as int, prev_label, k) && *later_trip
                                == repository.trips@[route.trips@[k] as int];
                        active_k = k;
                        let e = latest_index(*repository, route.trips@, i as int, prev_label);
                        lemma_latest_unique(*repository, route.trips@, i as int, prev_label, e, k);
                    }
                    active_trip = Some(later_trip);
                    alighting_stop = stop_idx;
                    alighting_p = i;
                },
                None => {
                    proof {
                        if exists|k: int| is_latest(*repository, route.trips@, i as int, prev_label, k) {
                            let k = choose|k: int| is_latest(*repository, route.trips@, i as int, prev_label, k);
                            assert(reachable_by(*repository, route.trips@, i as int, prev_label, k));
                        }
                    }
                },
            }
        }
        next = i;
    }
}

/// Scans every active route backwards and gathers the updates they propose.
pub fn explore_routes_reverse(repository: &Repository, allocator: &mut Allocator)
    requires
        repository.wf(),
        old(allocator).wf(repository.stops@.len() as int, repository.raptor_routes@.len() as int),
    ensures
        final(allocator).wf(repository.stops@.len() as int, repository.raptor_routes@.len() as int),
        same_but_updates(*final(allocator), *old(allocator)),
        final(allocator).updates@ == old(allocator).updates@ + reverse_route_proposals(
            *repository,
            search_view(*old(allocator)),
            set_positions(mask_bits(old(allocator).active_mask)),
        ),
        extends_with(
            final(allocator).updates@,
            old(allocator).updates@,
            |u: Update| transit_update_reverse(*repository, *old(allocator), u),
        ),
{
    let ghost n = repository.stops@.len() as int;
    let routes = allocator.active_mask.iter_ones();
    let mut out: Vec<Update> = Vec::new();
    let mut j: usize = 0;
    while j < routes.len()
        invariant
            repository.wf(),
            allocator.wf(n, repository.raptor_routes@.len() as int),
            n == repository.stops@.len(),
            *allocator == *old(allocator),
            forall|k: int| 0 <= k < routes@.len() ==> #[trigger] routes@[k] < mask_bits(allocator.active_mask).len(),
            j <= routes@.len(),
            routes@ == set_positions(mask_bits(allocator.active_mask)),
            out@ == reverse_route_proposals(*repository, search_view(*allocator), routes@.subrange(0, j as int)),
            forall|k: int|
                0 <= k < out@.len() ==> transit_update_reverse(*repository, *allocator, #[trigger] out@[k])
                    && update_wf(out@[k], n),
        decreases routes@.len() - j,
    {
        let ghost before = out@;
        scan_route_reverse(repository, allocator, routes[j], &mut out);
        proof {
            let nxt = routes@.subrange(0, j + 1);
            assert(nxt.drop_last() =~= routes@.subrange(0, j as int));
            assert(nxt.last() == routes@[j as int]);
            assert(out@ =~= reverse_route_proposals(*repository, search_view(*allocator), nxt));
            assert forall|k: int| 0 <= k < out@.len() implies transit_update_reverse(*repository, *allocator, #[trigger] out@[k])
                && update_wf(out@[k], n) by {
                if k < before.len() {
                    assert(out@.subrange(0, before.len() as int)[k] == before[k]);
                }
            }
        }
        j = j + 1;
    }
    assert(routes@.subrange(0, routes@.len() as int) =~= routes@);
    let ghost old_updates = allocator.updates@;
    allocator.updates.append(&mut out);
    proof {
        assert(allocator.updates@.subrange(0, old_updates.len() as int) =~= old_updates);
    }
}

/// The update follows transfer `x` (listed for stop `s`) or walk `w` out of
/// the improved stop `s`, leaving at its current label, and beats both the
/// reached stop's best time and the best time at the target.
pub open spec fn footpath_step(repo: Repository, a: Allocator, u: Update, s: int, j: int, walk: bool) -> bool {
    let departure = best_or_latest(a.curr_labels@[s]);
    let (to, duration, kind) = if walk {
        let w = repo.stop_to_walk_stop@[s]@[j];
        (w.to_stop_idx, w.duration.0 as int, ParentType::Walk)
    } else {
        let tr = repo.transfers@[repo.stop_to_transfers@[s]@[j] as int];
        (tr.to_stop_idx, transfer_time(tr).0 as int, ParentType::Transfer)
    };
    &&& 0 <= s < repo.stops@.len()
    &&& mask_bits(a.marked_stops)[s]
    &&& 0 <= j < (if walk {
        repo.stop_to_walk_stop@[s]@.len()
    } else {
        repo.stop_to_transfers@[s]@.len()
    })
    &&& departure + duration <= u32::MAX
    &&& u == (Update {
        stop_idx: to,
        arrival_time: Time((departure + duration) as u32),
        parent: Parent {
            from: Point::Stop(s as u32),
            to: Point::Stop(to),
            parent_type: kind,
            departure_time: Time(departure as u32),
            arrival_time: Time((departure + duration) as u32),
        },
    })
    &&& improves(u.arrival_time, a.tau_star@[to as int])
    &&& u.arrival_time.0 < a.target.tau_star.0
}

pub open spec fn footpath_update(repo: Repository, a: Allocator, u: Update) -> bool {
    exists|s: int, j: int, walk: bool| footpath_step(repo, a, u, s, j, walk)
}

/// For searches backwards from an arrival: the update follows transfer or
/// walk `j` out of the improved stop `s` backwards, so that leaving its
/// target stop then reaches `s` by its current label.
pub open spec fn footpath_step_reverse(repo: Repository, a: Allocator, u: Update, s: int, j: int, walk: bool) -> bool {
    let arrival = best_or_earliest(a.curr_labels@[s]);
    let (to, duration, kind) = if walk {
        let w = repo.stop_to_walk_stop@[s]@[j];
        (w.to_stop_idx, w.duration.0 as int, ParentType::Walk)
    } else {
        let tr = repo.transfers@[repo.stop_to_transfers@[s]@[j] as int];
        (tr.to_stop_idx, transfer_time(tr).0 as int, ParentType::Transfer)
    };
    &&& 0 <= s < repo.stops@.len()
    &&& mask_bits(a.marked_stops)[s]
    &&& 0 <= j < (if walk {
        repo.stop_to_walk_stop@[s]@.len()
    } else {
        repo.stop_to_transfers@[s]@.len()
    })
    &&& arrival - duration >= 0
    &&& u == (Update {
        stop_idx: to,
        arrival_time: Time((arrival - duration) as u32),
        parent: Parent {
            from: Point::Stop(to),
            to: Point::Stop(s as u32),
            parent_type: kind,
            departure_time: Time((arrival - duration) as u32),
            arrival_time: Time(arrival as u32),
        },
    })
    &&& improves_reverse(u.arrival_time, a.tau_star@[to as int])
}

pub open spec fn footpath_update_reverse(repo: Repository, a: Allocator, u: Update) -> bool {
    exists|s: int, j: int, walk: bool| footpath_step_reverse(repo, a, u, s, j, walk)
}

/// Gathers the updates that the transfers and walks out of every marked
/// stop propose. A departure that would pass the latest representable time
/// is not proposed.
pub fn explore_transfers(repository: &Repository, allocator: &mut Allocator)
    requires
        repository.wf(),
        old(allocator).wf(repository.stops@.len() as int, repository.raptor_routes@.len() as int),
    ensures
        final(allocator).wf(repository.stops@.len() as int, repository.raptor_routes@.len() as int),
        same_but_updates(*final(allocator), *old(allocator)),
        final(allocator).updates@ == old(allocator).updates@ + footpath_proposals(
            *repository,
            old(allocator).tau_star@,
            old(allocator).curr_labels@,
            old(allocator).target.tau_star,
            set_positions(mask_bits(old(allocator).marked_stops)),
            false,
        ),
        extends_with(
            final(allocator).updates@,
            old(allocator).updates@,
            |u: Update| footpath_update(*repository, *old(allocator), u) && update_lands(u),
        ),
{
    explore_footpaths(repository, allocator, false);
}

/// The backward counterpart of `explore_transfers`. A departure that would
/// fall before the earliest representable time is not proposed.
pub fn explore_transfers_reverse(repository: &Repository, allocator: &mut Allocator)
    requires
        repository.wf(),
        old(allocator).wf(repository.stops@.len() as int, repository.raptor_routes@.len() as int),
    ensures
        final(allocator).wf(repository.stops@.len() as int, repository.raptor_routes@.len() as int),
        same_but_updates(*final(allocator), *old(allocator)),
        final(allocator).updates@ == old(allocator).updates@ + footpath_proposals(
            *repository,
            old(allocator).tau_star@,
            old(allocator).curr_labels@,
            old(allocator).target.tau_star,
            set_positions(mask_bits(old(allocator).marked_stops)),
            true,
        ),
        extends_with(
            final(allocator).updates@,
            old(allocator).updates@,
            |u: Update| footpath_update_reverse(*repository, *old(allocator), u),
        ),
{
    explore_footpaths(repository, allocator, true);
}

/// The update that following a footpath of `duration` seconds out of stop
/// `s` to stop `to` proposes, from best times `tau`, labels `labels` and the
/// target's best time: forward, leaving `s` at its label, if the arrival
/// is representable and beats both `to`'s best time and the target's;
/// backwards, leaving `to` so as to reach `s` by its label, if that
/// departure is not before the first second and beats `to`'s best time.
pub open spec fn footpath_proposal(
    tau: Seq<Option<Time>>,
    labels: Seq<Option<Time>>,
    target_tau: Time,
    s: int,
    to: u32,
    duration: int,
    walk: bool,
    reverse: bool,
) -> Option<Update> {
    let kind = if walk {
        ParentType::Walk
    } else {
        ParentType::Transfer
    };
    if !reverse {
        let departure = best_or_latest(labels[s]);
        let arrival = departure + duration;
        if arrival <= u32::MAX && improves(Time(arrival as u32), tau[to as int]) && arrival < target_tau.0 {
            Some(
                Update {
                    stop_idx: to,
                    arrival_time: Time(arrival as u32),
                    parent: Parent {
                        from: Point::Stop(s as u32),
                        to: Point::Stop(to),
                        parent_type: kind,
                        departure_time: Time(departure as u32),
                        arrival_time: Time(arrival as u32),
                    },
                },
            )
        } else {
            None
        }
    } else {
        let arrival = best_or_earliest(labels[s]);
        let departure = arrival - duration;
        if departure >= 0 && improves_reverse(Time(departure as u32), tau[to as int]) {
            Some(
                Update {
                    stop_idx: to,
                    arrival_time: Time(departure as u32),
                    parent: Parent {
                        from: Point::Stop(to),
                        to: Point::Stop(s as u32),
                        parent_type: kind,
                        departure_time: Time(departure as u32),
                        arrival_time: Time(arrival as u32),
                    },
                },
            )
        } else {
            None
        }
    }
}

/// `us` followed by the update `o` proposes, if any.
pub open spec fn push_some(us: Seq<Update>, o: Option<Update>) -> Seq<Update> {
    match o {
        Some(u) => us.push(u),
        None => us,
    }
}

/// The updates that the transfers `xs` (indices into the repository's
/// transfers) out of stop `s` propose, in order.
pub open spec fn transfer_proposals(
    repo: Repository,
    tau: Seq<Option<Time>>,
    labels: Seq<Option<Time>>,
    target_tau: Time,
    s: int,
    xs: Seq<u32>,
    reverse: bool,
) -> Seq<Update>
    decreases xs.len(),
{
    if xs.len() == 0 {
        Seq::empty()
    } else {
        let tr = repo.transfers@[xs.last() as int];
        push_some(
            transfer_proposals(repo, tau, labels, target_tau, s, xs.drop_last(), reverse),
            footpath_proposal(tau, labels, target_tau, s, tr.to_stop_idx, transfer_time(tr).0 as int, false, reverse),
        )
    }
}

/// The updates that the walks `ws` out of stop `s` propose, in order.
pub open spec fn walk_proposals(
    tau: Seq<Option<Time>>,
    labels: Seq<Option<Time>>,
    target_tau: Time,
    s: int,
    ws: Seq<Walk>,
    reverse: bool,
) -> Seq<Update>
    decreases ws.len(),
{
    if ws.len() == 0 {
        Seq::empty()
    } else {
        let w = ws.last();
        push_some(
            walk_proposals(tau, labels, target_tau, s, ws.drop_last(), reverse),
            footpath_proposal(tau, labels, target_tau, s, w.to_stop_idx, w.duration.0 as int, true, reverse),
        )
    }
}

/// The updates that the transfers, then the walks, out of each of `stops`
/// propose, stop after stop.
pub open spec fn footpath_proposals(
    repo: Repository,
    tau: Seq<Option<Time>>,
    labels: Seq<Option<Time>>,
    target_tau: Time,
    stops: Seq<usize>,
    reverse: bool,
) -> Seq<Update>
    decreases stops.len(),
{
    if stops.len() == 0 {
        Seq::empty()
    } else {
        let s = stops.last() as int;
        footpath_proposals(repo, tau, labels, target_tau, stops.drop_last(), reverse) + transfer_proposals(
            repo,
            tau,
            labels,
            target_tau,
            s,
            repo.stop_to_transfers@[s]@,
            reverse,
        ) + walk_proposals(tau, labels, target_tau, s, repo.stop_to_walk_stop@[s]@, reverse)
    }
}

/// The update that following a footpath of `duration` seconds from stop `s`
/// to stop `to` proposes, if it is worth proposing.
fn footpath(
    repository: &Repository,
    allocator: &Allocator,
    s: usize,
    to: u32,
    duration: u32,
    walk: bool,
    reverse: bool,
) -> (r: Option<Update>)
    requires
        repository.wf(),
        allocator.wf(repository.stops@.len() as int, repository.raptor_routes@.len() as int),
        s < repository.stops@.len(),
        to < repository.stops@.len(),
    ensures
        r == footpath_proposal(
            allocator.tau_star@,
            allocator.curr_labels@,
            allocator.target.tau_star,
            s as int,
            to,
            duration as int,
            walk,
            reverse,
        ),
        !reverse ==> (r is Some <==> {
            let arrival = best_or_latest(allocator.curr_labels@[s as int]) + duration;
            &&& arrival <= u32::MAX
            &&& improves(Time(arrival as u32), allocator.tau_star@[to as int])
            &&& arrival < allocator.target.tau_star.0
        }),
        reverse ==> (r is Some <==> {
            let departure = best_or_earliest(allocator.curr_labels@[s as int]) - duration;
            &&& departure >= 0
            &&& improves_reverse(Time(departure as u32), allocator.tau_star@[to as int])
        }),
        r matches Some(u) ==> update_wf(u, repository.stops@.len() as int),
        r matches Some(u) ==> !reverse ==> {
            let departure = best_or_latest(allocator.curr_labels@[s as int]);
            &&& departure + duration <= u32::MAX
            &&& u == (Update {
                stop_idx: to,
                arrival_time: Time((departure + duration) as u32),
                parent: Parent {
                    from: Point::Stop(s as u32),
                    to: Point::Stop(to),
                    parent_type: if walk {
                        ParentType::Walk
                    } else {
                        ParentType::Transfer
                    },
                    departure_time: Time(departure as u32),
                    arrival_time: Time((departure + duration) as u32),
                },
            })
            &&& improves(u.arrival_time, allocator.tau_star@[to as int])
            &&& u.arrival_time.0 < allocator.target.tau_star.0
        },
        r matches Some(u) ==> reverse ==> {
            let arrival = best_or_earliest(allocator.curr_labels@[s as int]);
            &&& arrival - duration >= 0
            &&& u == (Update {
                stop_idx: to,
                arrival_time: Time((arrival - duration) as u32),
                parent: Parent {
                    from: Point::Stop(to),
                    to: Point::Stop(s as u32),
                    parent_type: if walk {
                        ParentType::Walk
                    } else {
                        ParentType::Transfer
                    },
                    departure_time: Time((arrival - duration) as u32),
                    arrival_time: Time(arrival as u32),
                },
            })
            &&& improves_reverse(u.arrival_time, allocator.tau_star@[to as int])
        },
{
    let kind = if walk {
        ParentType::Walk
    } else {
        ParentType::Transfer
    };
    if !reverse {
        let departure = match allocator.curr_labels[s] {
            Some(l) => l.0,
            None => u32::MAX,
        };
        let arrival = match departure.checked_add(duration) {
            Some(a) => a,
            None => return None,
        };
        let best = match allocator.tau_star[to as usize] {
            Some(b) => b.0,
            None => u32::MAX,
        };
        if arrival < best && arrival < allocator.target.tau_star.0 {
            Some(
                Update::new(
                    to,
                    Time(arrival),
                    Parent { from: Point::Stop(s as u32), to: Point::Stop(to), parent_type: kind, departure_time: Time(departure), arrival_time: Time(arrival) },
                ),
            )
        } else {
            None
        }
    } else {
        let arrival = match allocator.curr_labels[s] {
            Some(l) => l.0,
            None => 0,
        };
        let departure = match arrival.checked_sub(duration) {
            Some(d) => d,
            None => return None,
        };
        let best = match allocator.tau_star[to as usize] {
            Some(b) => b.0,
            None => 0,
        };
        if departure > best {
            Some(
                Update::new(
                    to,
                    Time(departure),
                    Parent { from: Point::Stop(to), to: Point::Stop(s as u32), parent_type: kind, departure_time: Time(departure), arrival_time: Time(arrival) },
                ),
            )
        } else {
            None
        }
    }
}

fn explore_footpaths(repository: &Repository, allocator: &mut Allocator, reverse: bool)
    requires
        repository.wf(),
        old(allocator).wf(repository.stops@.len() as int, repository.raptor_routes@.len() as int),
    ensures
        final(allocator).wf(repository.stops@.len() as int, repository.raptor_routes@.len() as int),
        same_but_updates(*final(allocator), *old(allocator)),
        final(allocator).updates@ == old(allocator).updates@ + footpath_proposals(
            *repository,
            old(allocator).tau_star@,
            old(allocator).curr_labels@,
            old(allocator).target.tau_star,
            set_positions(mask_bits(old(allocator).marked_stops)),
            reverse,
        ),
        !reverse ==> extends_with(
            final(allocator).updates@,
            old(allocator).updates@,
            |u: Update| footpath_update(*repository, *old(allocator), u) && update_lands(u),
        ),
        reverse ==> extends_with(
            final(allocator).updates@,
            old(allocator).updates@,
            |u: Update| footpath_update_reverse(*repository, *old(allocator), u),
        ),
{
    let ghost n = repository.stops@.len() as int;
    let ghost ok = |u: Update|
        update_wf(u, n) && (if reverse {
            footpath_update_reverse(*repository, *allocator, u)
        } else {
            footpath_update(*repository, *allocator, u) && update_lands(u)
        });
    let stops = allocator.marked_stops.iter_ones();
    let mut out: Vec<Update> = Vec::new();
    let mut i: usize = 0;
    while i < stops.len()
        invariant
            repository.wf(),
            allocator.wf(n, repository.raptor_routes@.len() as int),
            n == repository.stops@.len(),
            *allocator == *old(allocator),
            ok == (|u: Update|
                update_wf(u, n) && (if reverse {
                    footpath_update_reverse(*repository, *allocator, u)
                } else {
                    footpath_update(*repository, *allocator, u) && update_lands(u)
                })),
            forall|k: int|
                0 <= k < stops@.len() ==> #[trigger] stops@[k] < mask_bits(allocator.marked_stops).len()
                    && mask_bits(allocator.marked_stops)[stops@[k] as int],
            i <= stops@.len(),
            forall|k: int| 0 <= k < out@.len() ==> ok(#[trigger] out@[k]),
            stops@ == set_positions(mask_bits(allocator.marked_stops)),
            out@ == footpath_proposals(
                *repository,
                allocator.tau_star@,
                allocator.curr_labels@,
                allocator.target.tau_star,
                stops@.subrange(0, i as int),
                reverse,
            ),
        decreases stops@.len() - i,
    {
        let s = stops[i];
        let ghost done = out@;
        let transfers = &repository.stop_to_transfers[s];
        let mut x: usize = 0;
        while x < transfers.len()
            invariant
                repository.wf(),
                allocator.wf(n, repository.raptor_routes@.len() as int),
                n == repository.stops@.len(),
                *allocator == *old(allocator),
                ok == (|u: Update|
                    update_wf(u, n) && (if reverse {
                        footpath_update_reverse(*repository, *allocator, u)
                    } else {
                        footpath_update(*repository, *allocator, u) && update_lands(u)
                    })),
                s < n,
                mask_bits(allocator.marked_stops)[s as int],
                *transfers == repository.stop_to_transfers@[s as int],
                x <= transfers@.len(),
                forall|k: int| 0 <= k < out@.len() ==> ok(#[trigger] out@[k]),
                out@ == done + transfer_proposals(
                    *repository,
                    allocator.tau_star@,
                    allocator.curr_labels@,
                    allocator.target.tau_star,
                    s as int,
                    transfers@.subrange(0, x as int),
                    reverse,
                ),
            decreases transfers@.len() - x,
        {
            proof {
                let nxt = transfers@.subrange(0, x + 1);
                assert(nxt.drop_last() =~= transfers@.subrange(0, x as int));
                assert(nxt.last() == transfers@[x as int]);
            }
            let transfer = &repository.transfers[transfers[x] as usize];
            let duration = transfer_duration(repository, transfer);
            match footpath(repository, allocator, s, transfer.to_stop_idx, duration.0, false, reverse) {
                Some(u) => {
                    proof {
                        if reverse {
                            assert(footpath_step_reverse(*repository, *allocator, u, s as int, x as int, false));
                        } else {
                            assert(footpath_step(*repository, *allocator, u, s as int, x as int, false));
                        }
                    }
                    out.push(u);
                },
                None => {},
            }
            x = x + 1;
        }
        let ghost with_transfers = out@;
        proof {
            assert(transfers@.subrange(0, transfers@.len() as int) =~= transfers@);
        }
        let walks = &repository.stop_to_walk_stop[s];
        let mut w: usize = 0;
        while w < walks.len()
            invariant
                repository.wf(),
                allocator.wf(n, repository.raptor_routes@.len() as int),
                n == repository.stops@.len(),
                *allocator == *old(allocator),
                ok == (|u: Update|
                    update_wf(u, n) && (if reverse {
                        footpath_update_reverse(*repository, *allocator, u)
                    } else {
                        footpath_update(*repository, *allocator, u) && update_lands(u)
                    })),
                s < n,
                mask_bits(allocator.marked_stops)[s as int],
                *walks == repository.stop_to_walk_stop@[s as int],
                w <= walks@.len(),
                forall|k: int| 0 <= k < out@.len() ==> ok(#[trigger] out@[k]),
                out@ == with_transfers + walk_proposals(
                    allocator.tau_star@,
                    allocator.curr_labels@,
                    allocator.target.tau_star,
                    s as int,
                    walks@.subrange(0, w as int),
                    reverse,
                ),
            decreases walks@.len() - w,
        {
            proof {
                let nxt = walks@.subrange(0, w + 1);
                assert(nxt.drop_last() =~= walks@.subrange(0, w as int));
                assert(nxt.last() == walks@[w as int]);
            }
            let edge = walks[w];
            match footpath(repository, allocator, s, edge.to_stop_idx, edge.duration.0, true, reverse) {
                Some(u) => {
                    proof {
                        if reverse {
                            assert(footpath_step_reverse(*repository, *allocator, u, s as int, w as int, true));
                        } else {
                            assert(footpath_step(*repository, *allocator, u, s as int, w as int, true));
                        }
                    }
                    out.push(u);
                },
                None => {},
            }
            w = w + 1;
        }
        proof {
            assert(walks@.subrange(0, walks@.len() as int) =~= walks@);
            let nxt = stops@.subrange(0, i + 1);
            assert(nxt.drop_last() =~= stops@.subrange(0, i as int));
            assert(nxt.last() == s);
            assert(out@ =~= footpath_proposals(
                *repository,
                allocator.tau_star@,
                allocator.curr_labels@,
                allocator.target.tau_star,
                nxt,
                reverse,
            ));
        }
        i = i + 1;
    }
    assert(stops@.subrange(0, stops@.len() as int) =~= stops@);
    let ghost old_updates = allocator.updates@;
    allocator.updates.append(&mut out);
    proof {
        assert(allocator.updates@.subrange(0, old_updates.len() as int) =~= old_updates);
    }
}

} // verus!
