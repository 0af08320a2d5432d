//! Round-based public transit routing (RAPTOR).

pub mod allocator;
pub mod discovery;
pub mod explorer;
pub mod itinerary;
pub mod location;
pub mod optimal;
pub mod path;
pub mod state;
pub mod timing;

pub use allocator::{flat_matrix, Allocator, MAX_ROUNDS};
pub use location::{Location, Point};
pub use state::{Parent, ParentType, ServingRoute, Target, Update};

use crate::bitmask::{mask_bits, set_positions};
use crate::raptor::allocator::{
    fill_active, apply_updates, flat, search_view, SearchView, lemma_apply_updates_land, lemma_apply_updates_leave, lemma_apply_updates_round_zero,
    lemma_apply_updates_round_zero_arrival, lemma_flat, parents_forward, parents_land, parents_leave,
    round_zero_arrives_by, round_zero_leaves_after, update_leaves, update_wf,
};
use crate::raptor::discovery::{
    location_stops, routes_serving_stop, serving_routes, serving_valid, stops_by_location,
};
use crate::raptor::explorer::{
    explore_routes, explore_routes_reverse, explore_transfers, explore_transfers_reverse,
    footpath_proposals, footpath_step, footpath_step_reverse, footpath_update, footpath_update_reverse,
    reverse_route_proposals, route_proposals, transit_ride,
    transit_ride_reverse, transit_update, transit_update_reverse,
};
use crate::raptor::itinerary::{leg_stops_ok, leg_type_of, legs_chained, legs_forward, legs_timed, names_point, names_stop, same_stop, Itinerary, Leg, LegStop};
use crate::raptor::path::{backtrack, chain_ends, chain_path, travel_order};
use crate::raptor::optimal::{
    calls_once, footpaths_closed, journey, journey_back, lemma_earliest_arrival, lemma_latest_departure, lemma_search_fwd,
    no_overtaking, no_overtaking_back, rides_forward, step_arrival, step_departure, step_end, step_start, Step,
};
use crate::raptor::timing::{
    lemma_apply_updates_starts, lemma_apply_updates_timed, lemma_round_closed, lemma_row_starts_empty,
    lemma_rows_timed, round_zero_starts, starts_at, lemma_apply_updates_track, best_label, no_worse, label_of, row_agrees, rows_empty_from,
    rows_linked, update_timed,
};
use crate::repository::{Repository, Stop};
use crate::time::{Time, TimeConstraint};
use vstd::prelude::*;

verus! {

/// Why a search gave no itinerary.
#[derive(Debug, Clone, Copy, PartialEq, Eq)]
pub enum Error {
    /// Area id does not match any entry.
    InvalidAreaID,
    /// Stop id does not match any entry.
    InvalidStopID,
    /// A route was found but failed to build it.
    FailedToBuildRoute,
    /// Could not find a route.
    NoRouteFound,
}

/// A search from one location to another over a repository (RAPTOR).
///
/// Round `k` of the search extends the journeys found so far by one more
/// ride, followed by transfers and walks, so that it explores journeys of
/// `k + 1` rides.
pub struct Raptor<'a> {
    pub repository: &'a Repository,
    pub from: Location,
    pub to: Location,
    pub time_constraint: TimeConstraint,
}

/// The stops where the labels of a search start and the stops it aims for:
/// origin then destination when leaving at a time, the other way round when
/// arriving by one.
pub open spec fn search_ends(forward: bool, from_stops: Seq<u32>, to_stops: Seq<u32>) -> (Seq<u32>, Seq<u32>) {
    if forward {
        (from_stops, to_stops)
    } else {
        (to_stops, from_stops)
    }
}

/// The itinerary that a search that found a way gives: it keeps the
/// requested locations, its legs run between stops and follow each other,
/// each arriving no later than the next one leaves.
///
/// When the search runs forward from a departure at `time`, `origin` holds
/// the origin's stops and `targets` the destination's: the first leg is a
/// ride that leaves no earlier than `time` from one of `origin` (or at the
/// last second a time can hold), and the last leg ends at one of `targets`.
/// When it runs backwards from an arrival by `time`, `origin` holds the
/// destination's stops and `targets` the origin's: the last leg is a ride
/// that arrives no later than `time` at one of `origin` (or at the first
/// second of the day), and the first leg starts at one of `targets`.
///
/// The two exceptions come from how routes are scanned: a stop not reached
/// in the previous round counts as reached at the latest time (forward) or
/// at the earliest (backwards), so a trip leaving at the very last second,
/// or arriving at the very first, can be taken from any stop.
pub open spec fn found_itinerary(
    repo: Repository,
    it: Itinerary,
    from: Location,
    to: Location,
    forward: bool,
    origin: Seq<u32>,
    targets: Seq<u32>,
    time: Time,
) -> bool {
    &&& it.from == from
    &&& it.to == to
    &&& it.legs@.len() >= 1
    &&& forall|k: int|
        0 <= k < it.legs@.len() ==> (#[trigger] it.legs@[k]).from is Stop && it.legs@[k].to is Stop
    &&& legs_chained(it.legs@)
    &&& legs_timed(it.legs@)
    &&& forward ==> {
        &&& it.legs@[0].leg_type is Transit
        &&& it.legs@[0].departue_time.0 >= time.0
        &&& (exists|j: int| 0 <= j < origin.len() && names_stop(repo, it.legs@[0].from, #[trigger] origin[j] as int))
            || it.legs@[0].departue_time.0 == u32::MAX
        &&& exists|j: int| 0 <= j < targets.len() && names_stop(repo, it.legs@.last().to, #[trigger] targets[j] as int)
    }
    &&& !forward ==> {
        &&& it.legs@.last().leg_type is Transit
        &&& it.legs@.last().arrival_time.0 <= time.0
        &&& (exists|j: int| 0 <= j < origin.len() && names_stop(repo, it.legs@.last().to, #[trigger] origin[j] as int))
            || it.legs@.last().arrival_time.0 == 0
        &&& exists|j: int| 0 <= j < targets.len() && names_stop(repo, it.legs@[0].from, #[trigger] targets[j] as int)
    }
}

/// When the itinerary reaches the end of the search: its last arrival when
/// the search runs forward, its first departure when it runs backwards.
pub open spec fn reached_time(it: Itinerary, forward: bool) -> Time {
    if forward {
        it.legs@.last().arrival_time
    } else {
        it.legs@[0].departue_time
    }
}

/// `t` is no worse than the best time of any of `targets` (no later when
/// searching forward, no earlier backwards).
pub open spec fn best_among(tau: Seq<Option<Time>>, targets: Seq<u32>, t: Time, forward: bool) -> bool {
    forall|k: int|
        0 <= k < targets.len() ==> (#[trigger] tau[targets[k] as int] matches Some(x) ==> no_worse(
            t.0 as int,
            x.0 as int,
            !forward,
        ))
}

/// The time that a constraint names.
pub open spec fn constraint_time(c: TimeConstraint) -> Time {
    match c {
        TimeConstraint::Arrival(t) => t,
        TimeConstraint::Departure(t) => t,
    }
}

impl<'a> Raptor<'a> {
    /// A search that leaves now.
    pub fn new(repository: &'a Repository, from: Location, to: Location) -> (r: Raptor<'a>)
        ensures
            r.repository == repository,
            r.from == from,
            r.to == to,
            r.time_constraint matches TimeConstraint::Departure(t) && t.0 < 86400,
    {
        Raptor { repository, from, to, time_constraint: TimeConstraint::Departure(Time::now()) }
    }

    /// The same search, leaving at `departure`.
    pub fn departure_at(self, departure: Time) -> (r: Raptor<'a>)
        ensures
            r.repository == self.repository,
            r.from == self.from,
            r.to == self.to,
            r.time_constraint == TimeConstraint::Departure(departure),
    {
        Raptor {
            repository: self.repository,
            from: self.from,
            to: self.to,
            time_constraint: TimeConstraint::Departure(departure),
        }
    }

    /// The same search, arriving by `arrival`.
    pub fn arrival_at(self, arrival: Time) -> (r: Raptor<'a>)
        ensures
            r.repository == self.repository,
            r.from == self.from,
            r.to == self.to,
            r.time_constraint == TimeConstraint::Arrival(arrival),
    {
        Raptor {
            repository: self.repository,
            from: self.from,
            to: self.to,
            time_constraint: TimeConstraint::Arrival(arrival),
        }
    }

    /// The same search under another time constraint.
    pub fn with_time_constraint(self, constraint: TimeConstraint) -> (r: Raptor<'a>)
        ensures
            r.repository == self.repository,
            r.from == self.from,
            r.to == self.to,
            r.time_constraint == constraint,
    {
        Raptor { repository: self.repository, from: self.from, to: self.to, time_constraint: constraint }
    }

    /// Whether the search runs forward in time, from a departure.
    pub open spec fn forward(&self) -> bool {
        self.time_constraint is Departure
    }
}

/// Marks the stops where the search starts and gives them the start time.
fn seed(allocator: &mut Allocator, stops: &Vec<&Stop>, time: Time)
    requires
        old(allocator).wf(old(allocator).stop_count as int, old(allocator).active@.len() as int),
        forall|k: int| 0 <= k < stops@.len() ==> (#[trigger] stops@[k]).index < old(allocator).stop_count,
    ensures
        final(allocator).wf(old(allocator).stop_count as int, old(allocator).active@.len() as int),
        final(allocator).stop_count == old(allocator).stop_count,
        final(allocator).active@.len() == old(allocator).active@.len(),
        final(allocator).tau_star == old(allocator).tau_star,
        final(allocator).parents == old(allocator).parents,
        final(allocator).updates == old(allocator).updates,
        final(allocator).target == old(allocator).target,
        final(allocator).prev_labels == old(allocator).prev_labels,
        final(allocator).active == old(allocator).active,
        final(allocator).active_mask == old(allocator).active_mask,
        stops@.len() == 0 ==> final(allocator).marked_stops == old(allocator).marked_stops,
        forall|s: int|
            0 <= s < old(allocator).stop_count ==> #[trigger] mask_bits(final(allocator).marked_stops)[s] == ((exists|k: int|
                0 <= k < stops@.len() && (#[trigger] stops@[k]).index == s) || mask_bits(old(allocator).marked_stops)[s]),
        forall|s: int|
            0 <= s < old(allocator).stop_count ==> #[trigger] final(allocator).curr_labels@[s] == if exists|k: int|
                0 <= k < stops@.len() && (#[trigger] stops@[k]).index == s {
                Some(time)
            } else {
                old(allocator).curr_labels@[s]
            },
{
    let ghost n = allocator.stop_count as int;
    let ghost nq = allocator.active@.len() as int;
    let mut k: usize = 0;
    while k < stops.len()
        invariant
            allocator.wf(n, nq),
            allocator.stop_count == n,
            allocator.active@.len() == nq,
            forall|j: int| 0 <= j < stops@.len() ==> (#[trigger] stops@[j]).index < n,
            allocator.tau_star == old(allocator).tau_star,
            allocator.parents == old(allocator).parents,
            allocator.updates == old(allocator).updates,
            allocator.target == old(allocator).target,
            allocator.prev_labels == old(allocator).prev_labels,
            allocator.active == old(allocator).active,
            allocator.active_mask == old(allocator).active_mask,
            stops@.len() == 0 ==> allocator.marked_stops == old(allocator).marked_stops,
            k <= stops@.len(),
            forall|s: int|
                0 <= s < n ==> #[trigger] mask_bits(allocator.marked_stops)[s] == ((exists|j: int|
                    0 <= j < k && (#[trigger] stops@[j]).index == s) || mask_bits(old(allocator).marked_stops)[s]),
            forall|s: int|
                0 <= s < n ==> #[trigger] allocator.curr_labels@[s] == if exists|j: int|
                    0 <= j < k && (#[trigger] stops@[j]).index == s {
                    Some(time)
                } else {
                    old(allocator).curr_labels@[s]
                },
        decreases stops@.len() - k,
    {
        let idx = stops[k].index as usize;
        allocator.marked_stops.set(idx, true);
        allocator.curr_labels[idx] = Some(time);
        proof {
            assert forall|s: int| 0 <= s < n implies #[trigger] allocator.curr_labels@[s] == if exists|j: int|
                0 <= j < k + 1 && (#[trigger] stops@[j]).index == s {
                Some(time)
            } else {
                old(allocator).curr_labels@[s]
            } by {
                if s == idx {
                    assert(stops@[k as int].index == s);
                } else {
                    if exists|j: int| 0 <= j < k + 1 && (#[trigger] stops@[j]).index == s {
                        let j = choose|j: int| 0 <= j < k + 1 && (#[trigger] stops@[j]).index == s;
                        assert(j != k);
                    }
                }
            }
            assert forall|s: int| 0 <= s < n implies #[trigger] mask_bits(allocator.marked_stops)[s] == ((exists|j: int|
                0 <= j < k + 1 && (#[trigger] stops@[j]).index == s) || mask_bits(old(allocator).marked_stops)[s]) by {
                if s == idx {
                    assert(stops@[k as int].index == s);
                } else {
                    if exists|j: int| 0 <= j < k + 1 && (#[trigger] stops@[j]).index == s {
                        let j = choose|j: int| 0 <= j < k + 1 && (#[trigger] stops@[j]).index == s;
                        assert(j != k);
                    }
                }
            }
        }
        k = k + 1;
    }
}

/// The indices of the given stops, in order.
fn stop_indices(stops: &Vec<&Stop>) -> (r: Vec<u32>)
    ensures
        r@.len() == stops@.len(),
        forall|k: int| 0 <= k < r@.len() ==> #[trigger] r@[k] == stops@[k].index,
{
    let mut out: Vec<u32> = Vec::new();
    let mut k: usize = 0;
    while k < stops.len()
        invariant
            k <= stops@.len(),
            out@.len() == k,
            forall|j: int| 0 <= j < k ==> #[trigger] out@[j] == stops@[j].index,
        decreases stops@.len() - k,
    {
        out.push(stops[k].index);
        k = k + 1;
    }
    out
}

/// The position from which route `q` is to be scanned, among the
/// positions that `pairs` list for it: the lowest when searching forward,
/// the highest when searching backwards; `u32::MAX` when they list none.
pub open spec fn best_position(pairs: Seq<ServingRoute>, q: int, forward: bool) -> u32
    decreases pairs.len(),
{
    if pairs.len() == 0 {
        u32::MAX
    } else {
        let m = best_position(pairs.drop_last(), q, forward);
        let last = pairs.last();
        if last.route_idx == q && (m == u32::MAX || (if forward {
            last.idx_in_route < m
        } else {
            last.idx_in_route > m
        })) {
            last.idx_in_route
        } else {
            m
        }
    }
}

/// The routes that serve each of `stops`, with the stop's first position on
/// each, one stop after the other.
pub open spec fn serving_all(repo: Repository, stops: Seq<usize>) -> Seq<ServingRoute>
    decreases stops.len(),
{
    if stops.len() == 0 {
        Seq::empty()
    } else {
        let s = stops.last() as u32;
        serving_all(repo, stops.drop_last()) + serving_routes(repo, s, repo.stop_to_raptors@[s as int]@)
    }
}

/// Records, for every route that serves a marked stop, the position from
/// which to scan it (the earliest position on it of such a stop when
/// searching forward, the latest when searching backwards), and flags the
/// route for scanning. Every route starts unflagged and without position.
#[verifier::spinoff_prover]
fn activate_routes(repository: &Repository, allocator: &mut Allocator, ones: &Vec<usize>, forward: bool)
    requires
        repository.wf(),
        old(allocator).wf(repository.stops@.len() as int, repository.raptor_routes@.len() as int),
        forall|k: int| 0 <= k < ones@.len() ==> #[trigger] ones@[k] < repository.stops@.len(),
        forall|q: int| 0 <= q < repository.raptor_routes@.len() ==> #[trigger] old(allocator).active@[q] == u32::MAX,
        forall|q: int| 0 <= q < repository.raptor_routes@.len() ==> !#[trigger] mask_bits(old(allocator).active_mask)[q],
    ensures
        final(allocator).wf(repository.stops@.len() as int, repository.raptor_routes@.len() as int),
        forall|q: int|
            0 <= q < repository.raptor_routes@.len() ==> {
                &&& #[trigger] final(allocator).active@[q] == best_position(serving_all(*repository, ones@), q, forward)
                &&& mask_bits(final(allocator).active_mask)[q] == (final(allocator).active@[q] < u32::MAX)
            },
        final(allocator).tau_star == old(allocator).tau_star,
        final(allocator).marked_stops == old(allocator).marked_stops,
        final(allocator).prev_labels == old(allocator).prev_labels,
        final(allocator).curr_labels == old(allocator).curr_labels,
        final(allocator).parents == old(allocator).parents,
        final(allocator).updates == old(allocator).updates,
        final(allocator).stop_count == old(allocator).stop_count,
        final(allocator).target == old(allocator).target,
{
    let ghost n = repository.stops@.len() as int;
    let ghost nq = repository.raptor_routes@.len() as int;
    let mut j: usize = 0;
    assert forall|q: int| 0 <= q < nq implies #[trigger] allocator.active@[q] == best_position(
        serving_all(*repository, ones@.subrange(0, 0)),
        q,
        forward,
    ) by {
        assert(ones@.subrange(0, 0) =~= Seq::<usize>::empty());
    }
    while j < ones.len()
        invariant
            repository.wf(),
            n == repository.stops@.len(),
            nq == repository.raptor_routes@.len(),
            allocator.wf(n, nq),
            forall|k: int| 0 <= k < ones@.len() ==> #[trigger] ones@[k] < n,
            j <= ones@.len(),
            forall|q: int|
                0 <= q < nq ==> {
                    &&& #[trigger] allocator.active@[q] == best_position(
                        serving_all(*repository, ones@.subrange(0, j as int)),
                        q,
                        forward,
                    )
                    &&& mask_bits(allocator.active_mask)[q] == (allocator.active@[q] < u32::MAX)
                },
            allocator.tau_star == old(allocator).tau_star,
            allocator.marked_stops == old(allocator).marked_stops,
            allocator.prev_labels == old(allocator).prev_labels,
            allocator.curr_labels == old(allocator).curr_labels,
            allocator.parents == old(allocator).parents,
            allocator.updates == old(allocator).updates,
            allocator.stop_count == old(allocator).stop_count,
            allocator.target == old(allocator).target,
        decreases ones@.len() - j,
    {
        let stop_idx = ones[j] as u32;
        let ghost done = serving_all(*repository, ones@.subrange(0, j as int));
        routes_serving_stop(repository, stop_idx, allocator);
        let ghost rss = allocator.routes_serving_stops@;
        proof {
            assert(done + rss.subrange(0, 0) =~= done);
        }
        let mut m: usize = 0;
        while m < allocator.routes_serving_stops.len()
            invariant
                repository.wf(),
                n == repository.stops@.len(),
                nq == repository.raptor_routes@.len(),
                allocator.wf(n, nq),
                serving_valid(*repository, stop_idx, allocator.routes_serving_stops@),
                allocator.routes_serving_stops@ == rss,
                m <= rss.len(),
                forall|q: int|
                    0 <= q < nq ==> {
                        &&& #[trigger] allocator.active@[q] == best_position(done + rss.subrange(0, m as int), q, forward)
                        &&& mask_bits(allocator.active_mask)[q] == (allocator.active@[q] < u32::MAX)
                    },
                allocator.tau_star == old(allocator).tau_star,
                allocator.marked_stops == old(allocator).marked_stops,
                allocator.prev_labels == old(allocator).prev_labels,
                allocator.curr_labels == old(allocator).curr_labels,
                allocator.parents == old(allocator).parents,
                allocator.updates == old(allocator).updates,
                allocator.stop_count == old(allocator).stop_count,
                allocator.target == old(allocator).target,
            decreases allocator.routes_serving_stops@.len() - m,
        {
            let route = allocator.routes_serving_stops[m];
            assert(route.route_idx < nq);
            let r_idx = route.route_idx as usize;
            let p_idx = route.idx_in_route;
            proof {
                let pre = done + rss.subrange(0, m as int);
                let post = done + rss.subrange(0, m + 1);
                assert(post.drop_last() =~= pre);
                assert(post.last() == route);
                assert(repository.raptor_route_wf(r_idx as int));
            }
            let ghost before_active = allocator.active@;
            let better = if forward {
                p_idx < allocator.active[r_idx]
            } else {
                allocator.active[r_idx] == u32::MAX || p_idx > allocator.active[r_idx]
            };
            if better {
                allocator.active[r_idx] = p_idx;
                allocator.active_mask.set(r_idx, true);
            }
            proof {
                let pre = done + rss.subrange(0, m as int);
                let post = done + rss.subrange(0, m + 1);
                assert forall|q: int| 0 <= q < nq implies {
                    &&& #[trigger] allocator.active@[q] == best_position(post, q, forward)
                    &&& mask_bits(allocator.active_mask)[q] == (allocator.active@[q] < u32::MAX)
                } by {
                    assert(before_active[q] == best_position(pre, q, forward));
                }
            }
            m = m + 1;
        }
        proof {
            let nxt = ones@.subrange(0, j + 1);
            assert(nxt.drop_last() =~= ones@.subrange(0, j as int));
            assert(nxt.last() == ones@[j as int]);
            assert(rss.subrange(0, rss.len() as int) =~= rss);
            assert(serving_all(*repository, nxt) == done + rss);
        }
        j = j + 1;
    }
    assert(ones@.subrange(0, ones@.len() as int) =~= ones@);
}

/// One round of a search forward in time: rides from the routes flagged,
/// then transfers and walks from the stops they improved.
fn run_round(
    repository: &Repository,
    allocator: &mut Allocator,
    round: usize,
    Ghost(time): Ghost<Time>,
    Ghost(seeds): Ghost<Seq<u32>>,
)
    requires
        repository.wf(),
        old(allocator).wf(repository.stops@.len() as int, repository.raptor_routes@.len() as int),
        old(allocator).updates@.len() == 0,
        parents_land(old(allocator).parents@, repository.stops@.len() as int),
        round < MAX_ROUNDS,
        round_zero_leaves_after(old(allocator).parents@, repository.stops@.len() as int, time),
        round == 0 ==> forall|s: int|
            0 <= s < repository.stops@.len() ==> #[trigger] old(allocator).prev_labels@[s] is None
                || old(allocator).prev_labels@[s] == Some(time),
        forall|s: int| 0 <= s < repository.stops@.len() ==> #[trigger] old(allocator).curr_labels@[s] is None,
        rows_linked(old(allocator).parents@, round as int, repository.stops@.len() as int, false),
        round_zero_starts(old(allocator).parents@, repository.stops@.len() as int, false, seeds),
        round == 0 ==> forall|s: int|
            0 <= s < repository.stops@.len() ==> (#[trigger] old(allocator).prev_labels@[s] is Some ==> seeds.contains(
                s as u32,
            )),
        rows_empty_from(old(allocator).parents@, round as int, repository.stops@.len() as int),
        round >= 1 ==> row_agrees(
            old(allocator).parents@,
            old(allocator).prev_labels@,
            round - 1,
            repository.stops@.len() as int,
            false,
        ),
    ensures
        final(allocator).wf(repository.stops@.len() as int, repository.raptor_routes@.len() as int),
        ({
            let n = repository.stops@.len() as int;
            let rides = apply_updates(
                old(allocator).label_state(),
                round as int,
                n,
                route_proposals(*repository, search_view(*old(allocator)), set_positions(mask_bits(old(allocator).active_mask))),
                false,
            );
            final(allocator).label_state() == apply_updates(
                rides,
                round as int,
                n,
                footpath_proposals(*repository, rides.0, rides.1, old(allocator).target.tau_star, set_positions(rides.3), false),
                false,
            )
        }),
        final(allocator).prev_labels == old(allocator).prev_labels,
        forall|st: int|
            0 <= st < repository.stops@.len() && #[trigger] final(allocator).tau_star@[st] != old(allocator).tau_star@[st]
                ==> final(allocator).curr_labels@[st] == final(allocator).tau_star@[st]
                && final(allocator).curr_labels@[st] is Some && best_label(final(allocator).tau_star@[st], false)
                != best_label(old(allocator).tau_star@[st], false),
        forall|st: int|
            0 <= st < repository.stops@.len() ==> no_worse(
                best_label(#[trigger] final(allocator).tau_star@[st], false),
                best_label(old(allocator).tau_star@[st], false),
                false,
            ),
        forall|st: int|
            0 <= st < repository.stops@.len() && (#[trigger] final(allocator).curr_labels@[st]) is Some
                ==> final(allocator).parents@[flat(round as int, st, repository.stops@.len() as int)] is Some,
        forall|r: int, st: int|
            0 <= r < MAX_ROUNDS && r != round && 0 <= st < repository.stops@.len()
                ==> #[trigger] final(allocator).parents@[flat(r, st, repository.stops@.len() as int)]
                == old(allocator).parents@[flat(r, st, repository.stops@.len() as int)],
        final(allocator).active == old(allocator).active,
        final(allocator).active_mask == old(allocator).active_mask,
        final(allocator).updates@.len() == 0,
        parents_land(final(allocator).parents@, repository.stops@.len() as int),
        round_zero_leaves_after(final(allocator).parents@, repository.stops@.len() as int, time),
        rows_linked(final(allocator).parents@, round + 1, repository.stops@.len() as int, false),
        round_zero_starts(final(allocator).parents@, repository.stops@.len() as int, false, seeds),
        rows_empty_from(final(allocator).parents@, round + 1, repository.stops@.len() as int),
        row_agrees(final(allocator).parents@, final(allocator).curr_labels@, round as int, repository.stops@.len() as int, false),
        final(allocator).target == old(allocator).target,
        final(allocator).stop_count == old(allocator).stop_count,
{
    let ghost n = repository.stops@.len() as int;
    let ghost before = *allocator;
    let ghost prev = allocator.prev_labels@;
    proof {
        lemma_row_starts_empty(before.label_state(), prev, round as int, n, false);
    }
    explore_routes(repository, allocator);
    proof {
        lemma_apply_updates_land(allocator.label_state(), round as int, n, allocator.updates@, false);
        let us = allocator.updates@;
        assert forall|k: int| 0 <= k < us.len() implies (#[trigger] us[k]).stop_idx < n by {
            assert(update_wf(us[k], n));
        }
        if round == 0 {
            assert forall|k: int| 0 <= k < us.len() && (#[trigger] us[k]).parent.parent_type is Transit implies
                us[k].parent.departure_time.0 >= time.0 by {
                assert(us.subrange(0, 0) =~= Seq::<Update>::empty());
                assert(transit_update(*repository, before, us[k]));
                let (q, kk, b, i) = choose|q: int, kk: int, b: int, i: int|
                    transit_ride(*repository, before, us[k], q, kk, b, i);
                let stop_b = repository.raptor_routes@[q].stops@[b] as int;
                assert(repository.raptor_route_wf(q));
                assert(0 <= stop_b < n);
                assert(before.prev_labels@[stop_b] is None || before.prev_labels@[stop_b] == Some(time));
            }
        }
        lemma_apply_updates_round_zero(allocator.label_state(), round as int, n, us, false, time);
        assert forall|k: int| 0 <= k < us.len() implies (#[trigger] us[k]).stop_idx < n && update_timed(
            us[k],
            before.curr_labels@,
            prev,
            n,
            false,
        ) by {
            assert(us.subrange(0, 0) =~= Seq::<Update>::empty());
            assert(transit_update(*repository, before, us[k]));
            let (q, kk, b, i) = choose|q: int, kk: int, b: int, i: int|
                transit_ride(*repository, before, us[k], q, kk, b, i);
            assert(repository.raptor_route_wf(q));
        }
        lemma_apply_updates_timed(allocator.label_state(), prev, round as int, n, us, false);
        if round == 0 {
            assert forall|k: int| 0 <= k < us.len() && (#[trigger] us[k]).parent.parent_type is Transit implies
                starts_at(us[k].parent, false, seeds) by {
                assert(transit_update(*repository, before, us[k]));
                let (q, kk, b, i) = choose|q: int, kk: int, b: int, i: int|
                    transit_ride(*repository, before, us[k], q, kk, b, i);
                assert(repository.raptor_route_wf(q));
                let stop_b = repository.raptor_routes@[q].stops@[b];
                assert(prev[stop_b as int] is Some ==> seeds.contains(stop_b));
            }
        }
        lemma_apply_updates_starts(allocator.label_state(), round as int, n, us, false, seeds);
    }
    proof {
        assert forall|x: int| 0 <= x < n && (#[trigger] allocator.curr_labels@[x]) is Some implies allocator.parents@[flat(
            round as int,
            x,
            n,
        )] is Some by {
            assert(before.curr_labels@[x] is None);
        }
        assert forall|k: int| 0 <= k < allocator.updates@.len() implies (#[trigger] allocator.updates@[k]).stop_idx < n by {
            assert(update_wf(allocator.updates@[k], n));
        }
        lemma_apply_updates_track(allocator.label_state(), round as int, n, allocator.updates@, false);
    }
    allocator.run_updates(round);
    let ghost mid = *allocator;
    explore_transfers(repository, allocator);
    proof {
        lemma_apply_updates_land(allocator.label_state(), round as int, n, allocator.updates@, false);
        let us = allocator.updates@;
        assert forall|k: int| 0 <= k < us.len() implies (#[trigger] us[k]).stop_idx < n by {
            assert(update_wf(us[k], n));
        }
        assert forall|k: int| 0 <= k < us.len() && (#[trigger] us[k]).parent.parent_type is Transit implies
            us[k].parent.departure_time.0 >= time.0 by {
            assert(footpath_update(*repository, mid, us[k]));
            let (s0, j, walk) = choose|s0: int, j: int, walk: bool| footpath_step(*repository, mid, us[k], s0, j, walk);
            assert(!(us[k].parent.parent_type is Transit));
        }
        lemma_apply_updates_round_zero(allocator.label_state(), round as int, n, us, false, time);
        assert forall|k: int| 0 <= k < us.len() implies (#[trigger] us[k]).stop_idx < n && update_timed(
            us[k],
            mid.curr_labels@,
            prev,
            n,
            false,
        ) by {
            assert(footpath_update(*repository, mid, us[k]));
            let (s0, j, walk) = choose|s0: int, j: int, walk: bool| footpath_step(*repository, mid, us[k], s0, j, walk);
            assert(update_wf(us[k], n));
        }
        lemma_apply_updates_timed(allocator.label_state(), prev, round as int, n, us, false);
        lemma_apply_updates_starts(allocator.label_state(), round as int, n, us, false, seeds);
    }
    proof {
        assert forall|k: int| 0 <= k < allocator.updates@.len() implies (#[trigger] allocator.updates@[k]).stop_idx < n by {
            assert(update_wf(allocator.updates@[k], n));
        }
        lemma_apply_updates_track(allocator.label_state(), round as int, n, allocator.updates@, false);
    }
    allocator.run_updates(round);
    proof {
        lemma_round_closed(before.parents@, allocator.parents@, allocator.curr_labels@, prev, round as int, n, false);
    }
    proof {
        assert forall|x: int| 0 <= x < n && #[trigger] allocator.tau_star@[x] != before.tau_star@[x] implies allocator.curr_labels@[x]
            == allocator.tau_star@[x] && allocator.curr_labels@[x] is Some && best_label(allocator.tau_star@[x], false)
            != best_label(before.tau_star@[x], false) by {
            if allocator.tau_star@[x] == mid.tau_star@[x] {
                assert(mid.tau_star@[x] != before.tau_star@[x]);
            }
        }
        assert forall|x: int| 0 <= x < n implies no_worse(
            best_label(#[trigger] allocator.tau_star@[x], false),
            best_label(before.tau_star@[x], false),
            false,
        ) by {
            assert(no_worse(best_label(mid.tau_star@[x], false), best_label(before.tau_star@[x], false), false));
        }
        assert forall|r: int, x: int| 0 <= r < MAX_ROUNDS && r != round && 0 <= x < n implies #[trigger] allocator.parents@[flat(
            r,
            x,
            n,
        )] == before.parents@[flat(r, x, n)] by {
            assert(mid.parents@[flat(r, x, n)] == before.parents@[flat(r, x, n)]);
        }
    }
}

/// One round of a search backwards from an arrival at `time`: rides that
/// reach the stops improved in the previous round, then transfers and walks
/// into the stops they improved.
fn run_round_reverse(
    repository: &Repository,
    allocator: &mut Allocator,
    round: usize,
    Ghost(time): Ghost<Time>,
    Ghost(seeds): Ghost<Seq<u32>>,
)
    requires
        repository.wf(),
        old(allocator).wf(repository.stops@.len() as int, repository.raptor_routes@.len() as int),
        old(allocator).updates@.len() == 0,
        parents_leave(old(allocator).parents@, repository.stops@.len() as int),
        round < MAX_ROUNDS,
        round_zero_arrives_by(old(allocator).parents@, repository.stops@.len() as int, time),
        round == 0 ==> forall|s: int|
            0 <= s < repository.stops@.len() ==> #[trigger] old(allocator).prev_labels@[s] is None
                || old(allocator).prev_labels@[s] == Some(time),
        forall|s: int| 0 <= s < repository.stops@.len() ==> #[trigger] old(allocator).curr_labels@[s] is None,
        rows_linked(old(allocator).parents@, round as int, repository.stops@.len() as int, true),
        round_zero_starts(old(allocator).parents@, repository.stops@.len() as int, true, seeds),
        round == 0 ==> forall|s: int|
            0 <= s < repository.stops@.len() ==> (#[trigger] old(allocator).prev_labels@[s] is Some ==> seeds.contains(
                s as u32,
            )),
        rows_empty_from(old(allocator).parents@, round as int, repository.stops@.len() as int),
        round >= 1 ==> row_agrees(
            old(allocator).parents@,
            old(allocator).prev_labels@,
            round - 1,
            repository.stops@.len() as int,
            true,
        ),
    ensures
        final(allocator).wf(repository.stops@.len() as int, repository.raptor_routes@.len() as int),
        ({
            let n = repository.stops@.len() as int;
            let rides = apply_updates(
                old(allocator).label_state(),
                round as int,
                n,
                reverse_route_proposals(*repository, search_view(*old(allocator)), set_positions(mask_bits(old(allocator).active_mask))),
                true,
            );
            final(allocator).label_state() == apply_updates(
                rides,
                round as int,
                n,
                footpath_proposals(*repository, rides.0, rides.1, old(allocator).target.tau_star, set_positions(rides.3), true),
                true,
            )
        }),
        final(allocator).prev_labels == old(allocator).prev_labels,
        forall|st: int|
            0 <= st < repository.stops@.len() && #[trigger] final(allocator).tau_star@[st] != old(allocator).tau_star@[st]
                ==> final(allocator).curr_labels@[st] == final(allocator).tau_star@[st]
                && final(allocator).curr_labels@[st] is Some && best_label(final(allocator).tau_star@[st], true)
                != best_label(old(allocator).tau_star@[st], true),
        forall|st: int|
            0 <= st < repository.stops@.len() ==> no_worse(
                best_label(#[trigger] final(allocator).tau_star@[st], true),
                best_label(old(allocator).tau_star@[st], true),
                true,
            ),
        forall|st: int|
            0 <= st < repository.stops@.len() && (#[trigger] final(allocator).curr_labels@[st]) is Some
                ==> final(allocator).parents@[flat(round as int, st, repository.stops@.len() as int)] is Some,
        forall|r: int, st: int|
            0 <= r < MAX_ROUNDS && r != round && 0 <= st < repository.stops@.len()
                ==> #[trigger] final(allocator).parents@[flat(r, st, repository.stops@.len() as int)]
                == old(allocator).parents@[flat(r, st, repository.stops@.len() as int)],
        final(allocator).active == old(allocator).active,
        final(allocator).active_mask == old(allocator).active_mask,
        final(allocator).updates@.len() == 0,
        parents_leave(final(allocator).parents@, repository.stops@.len() as int),
        round_zero_arrives_by(final(allocator).parents@, repository.stops@.len() as int, time),
        rows_linked(final(allocator).parents@, round + 1, repository.stops@.len() as int, true),
        round_zero_starts(final(allocator).parents@, repository.stops@.len() as int, true, seeds),
        rows_empty_from(final(allocator).parents@, round + 1, repository.stops@.len() as int),
        row_agrees(final(allocator).parents@, final(allocator).curr_labels@, round as int, repository.stops@.len() as int, true),
        final(allocator).target == old(allocator).target,
        final(allocator).stop_count == old(allocator).stop_count,
{
    let ghost n = repository.stops@.len() as int;
    let ghost before = *allocator;
    let ghost prev = allocator.prev_labels@;
    proof {
        lemma_row_starts_empty(before.label_state(), prev, round as int, n, true);
    }
    explore_routes_reverse(repository, allocator);
    proof {
        let us = allocator.updates@;
        assert(us.subrange(0, 0) =~= Seq::<Update>::empty());
        assert forall|k: int| 0 <= k < us.len() implies update_leaves(#[trigger] us[k]) && us[k].stop_idx < n
            && (round == 0 ==> (us[k].parent.parent_type is Transit ==> us[k].parent.arrival_time.0
            <= time.0)) && update_timed(us[k], before.curr_labels@, prev, n, true) by {
            assert(transit_update_reverse(*repository, before, us[k]));
            let (q, kk, b, i) = choose|q: int, kk: int, b: int, i: int|
                transit_ride_reverse(*repository, before, us[k], q, kk, b, i);
            assert(repository.raptor_route_wf(q));
            let stop_b = repository.raptor_routes@[q].stops@[b] as int;
            assert(0 <= stop_b < n);
            if round == 0 {
                assert(before.prev_labels@[stop_b] is None || before.prev_labels@[stop_b] == Some(time));
            }
        }
        lemma_apply_updates_leave(allocator.label_state(), round as int, n, us, true);
        lemma_apply_updates_round_zero_arrival(allocator.label_state(), round as int, n, us, true, time);
        lemma_apply_updates_timed(allocator.label_state(), prev, round as int, n, us, true);
        if round == 0 {
            assert forall|k: int| 0 <= k < us.len() && (#[trigger] us[k]).parent.parent_type is Transit implies
                starts_at(us[k].parent, true, seeds) by {
                assert(transit_update_reverse(*repository, before, us[k]));
                let (q, kk, b, i) = choose|q: int, kk: int, b: int, i: int|
                    transit_ride_reverse(*repository, before, us[k], q, kk, b, i);
                assert(repository.raptor_route_wf(q));
                let stop_b = repository.raptor_routes@[q].stops@[b];
                assert(prev[stop_b as int] is Some ==> seeds.contains(stop_b));
            }
        }
        lemma_apply_updates_starts(allocator.label_state(), round as int, n, us, true, seeds);
    }
    proof {
        assert forall|x: int| 0 <= x < n && (#[trigger] allocator.curr_labels@[x]) is Some implies allocator.parents@[flat(
            round as int,
            x,
            n,
        )] is Some by {
            assert(before.curr_labels@[x] is None);
        }
        assert forall|k: int| 0 <= k < allocator.updates@.len() implies (#[trigger] allocator.updates@[k]).stop_idx < n by {
            assert(update_wf(allocator.updates@[k], n));
        }
        lemma_apply_updates_track(allocator.label_state(), round as int, n, allocator.updates@, true);
    }
    allocator.run_updates_reverse(round);
    let ghost mid = *allocator;
    explore_transfers_reverse(repository, allocator);
    proof {
        let us = allocator.updates@;
        assert(us.subrange(0, 0) =~= Seq::<Update>::empty());
        assert forall|k: int| 0 <= k < us.len() implies update_leaves(#[trigger] us[k]) && us[k].stop_idx < n
            && !(us[k].parent.parent_type is Transit) && update_timed(us[k], mid.curr_labels@, prev, n, true) by {
            assert(footpath_update_reverse(*repository, mid, us[k]));
            let (s0, j, walk) = choose|s0: int, j: int, walk: bool|
                footpath_step_reverse(*repository, mid, us[k], s0, j, walk);
            assert(update_wf(us[k], n));
        }
        lemma_apply_updates_leave(allocator.label_state(), round as int, n, us, true);
        lemma_apply_updates_round_zero_arrival(allocator.label_state(), round as int, n, us, true, time);
        lemma_apply_updates_timed(allocator.label_state(), prev, round as int, n, us, true);
        lemma_apply_updates_starts(allocator.label_state(), round as int, n, us, true, seeds);
    }
    proof {
        assert forall|k: int| 0 <= k < allocator.updates@.len() implies (#[trigger] allocator.updates@[k]).stop_idx < n by {
            assert(update_wf(allocator.updates@[k], n));
        }
        lemma_apply_updates_track(allocator.label_state(), round as int, n, allocator.updates@, true);
    }
    allocator.run_updates_reverse(round);
    proof {
        lemma_round_closed(before.parents@, allocator.parents@, allocator.curr_labels@, prev, round as int, n, true);
    }
    proof {
        assert forall|x: int| 0 <= x < n && #[trigger] allocator.tau_star@[x] != before.tau_star@[x] implies allocator.curr_labels@[x]
            == allocator.tau_star@[x] && allocator.curr_labels@[x] is Some && best_label(allocator.tau_star@[x], true)
            != best_label(before.tau_star@[x], true) by {
            if allocator.tau_star@[x] == mid.tau_star@[x] {
                assert(mid.tau_star@[x] != before.tau_star@[x]);
            }
        }
        assert forall|x: int| 0 <= x < n implies no_worse(
            best_label(#[trigger] allocator.tau_star@[x], true),
            best_label(before.tau_star@[x], true),
            true,
        ) by {
            assert(no_worse(best_label(mid.tau_star@[x], true), best_label(before.tau_star@[x], true), true));
        }
        assert forall|r: int, x: int| 0 <= r < MAX_ROUNDS && r != round && 0 <= x < n implies #[trigger] allocator.parents@[flat(
            r,
            x,
            n,
        )] == before.parents@[flat(r, x, n)] by {
            assert(mid.parents@[flat(r, x, n)] == before.parents@[flat(r, x, n)]);
        }
    }
}

/// What the target of a search keeps: the stop it found best is one of its
/// stops, found in a round that exists.
pub open spec fn target_wf(target: Target, n: int) -> bool {
    &&& forall|k: int| 0 <= k < target.stops@.len() ==> #[trigger] target.stops@[k] < n
    &&& target.best_stop is Some <==> target.best_round is Some
    &&& target.best_stop matches Some(s) ==> target.stops@.contains(s)
    &&& target.best_round matches Some(r) ==> r < MAX_ROUNDS
}

/// The target's best time, best stop and round after looking at its stops
/// `stops` in order, in `round`: a stop whose best time beats the target's
/// best (earlier forward, later backwards) becomes the best stop, found in
/// `round`.
pub open spec fn scan_targets(
    best: (Time, Option<u32>, Option<usize>),
    tau: Seq<Option<Time>>,
    stops: Seq<u32>,
    round: usize,
    forward: bool,
) -> (Time, Option<u32>, Option<usize>)
    decreases stops.len(),
{
    if stops.len() == 0 {
        best
    } else {
        let t = scan_targets(best, tau, stops.drop_last(), round, forward);
        let s = stops.last();
        match tau[s as int] {
            Some(x) => if (forward && x.0 < t.0.0) || (!forward && x.0 > t.0.0) {
                (x, Some(s), Some(round))
            } else {
                t
            },
            None => t,
        }
    }
}

/// Scanning target stops leaves a best time no worse than before and no
/// worse than the best time of any stop scanned; either nothing changed, or
/// the best stop is one of the scanned stops, whose best time is the
/// target's new (strictly better) one, found in `round`.
pub proof fn lemma_scan_targets(
    best: (Time, Option<u32>, Option<usize>),
    tau: Seq<Option<Time>>,
    stops: Seq<u32>,
    round: usize,
    forward: bool,
)
    ensures
        ({
            let t = scan_targets(best, tau, stops, round, forward);
            &&& no_worse(t.0.0 as int, best.0.0 as int, !forward)
            &&& forall|k: int|
                0 <= k < stops.len() ==> (#[trigger] tau[stops[k] as int] matches Some(x) ==> no_worse(
                    t.0.0 as int,
                    x.0 as int,
                    !forward,
                ))
            &&& t == best || (t.2 == Some(round) && t.1 is Some && stops.contains(t.1->Some_0) && tau[t.1->Some_0 as int]
                == Some(t.0) && t.0.0 != best.0.0)
        }),
    decreases stops.len(),
{
    if stops.len() > 0 {
        let init = stops.drop_last();
        lemma_scan_targets(best, tau, init, round, forward);
        let t0 = scan_targets(best, tau, init, round, forward);
        let t = scan_targets(best, tau, stops, round, forward);
        let last = stops.last();
        assert(stops[stops.len() - 1] == last);
        assert forall|k: int| 0 <= k < stops.len() implies (#[trigger] tau[stops[k] as int] matches Some(x)
            ==> no_worse(t.0.0 as int, x.0 as int, !forward)) by {
            if k < init.len() {
                assert(init[k] == stops[k]);
                assert(tau[init[k] as int] matches Some(x) ==> no_worse(t0.0.0 as int, x.0 as int, !forward));
            }
        }
        if let Some(s0) = t0.1 {
            if init.contains(s0) {
                let j = choose|j: int| 0 <= j < init.len() && init[j] == s0;
                assert(stops[j] == s0);
            }
        }
    }
}

/// Takes, among the target stops that the search has reached, any whose
/// best time beats the best found so far (earlier, or later when the
/// search runs backwards), and records it as found in `round`.
fn update_target(allocator: &mut Allocator, round: usize, forward: bool)
    requires
        old(allocator).wf(old(allocator).stop_count as int, old(allocator).active@.len() as int),
        target_wf(old(allocator).target, old(allocator).stop_count as int),
        round < MAX_ROUNDS,
    ensures
        final(allocator).wf(old(allocator).stop_count as int, old(allocator).active@.len() as int),
        target_wf(final(allocator).target, old(allocator).stop_count as int),
        (final(allocator).target.tau_star, final(allocator).target.best_stop, final(allocator).target.best_round)
            == scan_targets(
            (old(allocator).target.tau_star, old(allocator).target.best_stop, old(allocator).target.best_round),
            old(allocator).tau_star@,
            old(allocator).target.stops@,
            round,
            forward,
        ),
        final(allocator).target.stops == old(allocator).target.stops,
        final(allocator).tau_star == old(allocator).tau_star,
        final(allocator).parents == old(allocator).parents,
        final(allocator).curr_labels == old(allocator).curr_labels,
        final(allocator).updates == old(allocator).updates,
        final(allocator).marked_stops == old(allocator).marked_stops,
        final(allocator).prev_labels == old(allocator).prev_labels,
        final(allocator).active == old(allocator).active,
        final(allocator).active_mask == old(allocator).active_mask,
        final(allocator).stop_count == old(allocator).stop_count,
        final(allocator).active@.len() == old(allocator).active@.len(),
{
    let ghost n = allocator.stop_count as int;
    let ghost nq = allocator.active@.len() as int;
    let mut i: usize = 0;
    while i < allocator.target.stops.len()
        invariant
            allocator.wf(n, nq),
            allocator.stop_count == n,
            allocator.active@.len() == nq,
            target_wf(allocator.target, n),
            round < MAX_ROUNDS,
            allocator.target.stops == old(allocator).target.stops,
            i <= allocator.target.stops@.len(),
            (allocator.target.tau_star, allocator.target.best_stop, allocator.target.best_round) == scan_targets(
                (old(allocator).target.tau_star, old(allocator).target.best_stop, old(allocator).target.best_round),
                old(allocator).tau_star@,
                old(allocator).target.stops@.subrange(0, i as int),
                round,
                forward,
            ),
            allocator.tau_star == old(allocator).tau_star,
            allocator.parents == old(allocator).parents,
            allocator.curr_labels == old(allocator).curr_labels,
            allocator.updates == old(allocator).updates,
            allocator.marked_stops == old(allocator).marked_stops,
            allocator.prev_labels == old(allocator).prev_labels,
            allocator.active == old(allocator).active,
            allocator.active_mask == old(allocator).active_mask,
        decreases allocator.target.stops@.len() - i,
    {
        let stop_idx = allocator.target.stops[i];
        proof {
            let pre = old(allocator).target.stops@.subrange(0, i + 1);
            assert(pre.drop_last() =~= old(allocator).target.stops@.subrange(0, i as int));
            assert(pre.last() == stop_idx);
        }
        if let Some(tau) = allocator.tau_star[stop_idx as usize] {
            let improvement = if forward {
                tau.0 < allocator.target.tau_star.0
            } else {
                tau.0 > allocator.target.tau_star.0
            };
            if improvement {
                allocator.target.tau_star = tau;
                allocator.target.best_stop = Some(stop_idx);
                allocator.target.best_round = Some(round);
                assert(allocator.target.stops@[i as int] == stop_idx);
            }
        }
        i = i + 1;
    }
    assert(old(allocator).target.stops@.subrange(0, i as int) =~= old(allocator).target.stops@);
}

/// No flag of `marks` is set.
pub open spec fn none_marked(marks: Seq<bool>) -> bool {
    forall|i: int| 0 <= i < marks.len() ==> !#[trigger] marks[i]
}

/// Stop `s` is one of `stops`.
pub open spec fn listed(stops: Seq<u32>, s: int) -> bool {
    exists|k: int| 0 <= k < stops.len() && #[trigger] stops[k] as int == s
}

/// The state of a search over `repo` before its first round: nothing is
/// known yet but the start time `time` at each stop of `origin`, which is
/// marked; the target has no best stop and the latest time (the earliest
/// when searching backwards). `prev` is whatever the previous-round labels
/// held, which the first round overwrites.
pub open spec fn seed_view(
    repo: Repository,
    prev: Seq<Option<Time>>,
    origin: Seq<u32>,
    time: Time,
    forward: bool,
) -> SearchView {
    let n = repo.stops@.len();
    let nq = repo.raptor_routes@.len();
    SearchView {
        tau: Seq::new(n, |s: int| None::<Time>),
        prev,
        curr: Seq::new(n, |s: int| if listed(origin, s) { Some(time) } else { None::<Time> }),
        parents: Seq::new((n * MAX_ROUNDS) as nat, |j: int| None::<Parent>),
        marks: Seq::new(n, |s: int| listed(origin, s)),
        active: Seq::new(nq, |q: int| u32::MAX),
        mask: Seq::new(nq, |q: int| false),
        target: (if forward { Time(u32::MAX) } else { Time(0) }, None, None),
    }
}

/// One round of a search over `repo` from state `v`: the labels of the last
/// round become the previous ones; every route serving a marked stop is
/// flagged from that stop's earliest position on it; the flagged routes are
/// ridden (forward from a departure, backwards to an arrival), then the
/// transfers and walks from the stops the rides improved are taken; the
/// stops improved in this round are the marked ones; last, the target
/// stops `targets` are scanned for a better best time.
pub open spec fn round_step(repo: Repository, v: SearchView, targets: Seq<u32>, round: int, forward: bool) -> SearchView {
    let n = repo.stops@.len() as int;
    let mid = round_start(repo, v, forward);
    let rides = apply_updates(
        (mid.tau, mid.curr, mid.parents, mid.marks),
        round,
        n,
        if forward {
            route_proposals(repo, mid, set_positions(mid.mask))
        } else {
            reverse_route_proposals(repo, mid, set_positions(mid.mask))
        },
        !forward,
    );
    let fin = apply_updates(
        rides,
        round,
        n,
        footpath_proposals(repo, rides.0, rides.1, v.target.0, set_positions(rides.3), !forward),
        !forward,
    );
    SearchView {
        tau: fin.0,
        prev: v.curr,
        curr: fin.1,
        parents: fin.2,
        marks: fin.3,
        active: mid.active,
        mask: mid.mask,
        target: scan_targets(v.target, fin.0, targets, round as usize, forward),
    }
}

/// The state in which a round of a search over `repo` from state `v` starts
/// riding: the last round's labels are the previous ones, the current ones
/// and the marks are cleared, and each route serving a marked stop is
/// flagged, scanned from the earliest position on it of a marked stop when
/// searching forward, from the latest when searching backwards (positions
/// start afresh every round).
pub open spec fn round_start(repo: Repository, v: SearchView, forward: bool) -> SearchView {
    let n = repo.stops@.len();
    let nq = repo.raptor_routes@.len();
    let pairs = serving_all(repo, set_positions(v.marks));
    SearchView {
        tau: v.tau,
        prev: v.curr,
        curr: Seq::new(n, |s: int| None::<Time>),
        parents: v.parents,
        marks: Seq::new(n, |s: int| false),
        active: Seq::new(nq, |q: int| best_position(pairs, q, forward)),
        mask: Seq::new(nq, |q: int| best_position(pairs, q, forward) < u32::MAX),
        target: v.target,
    }
}

/// The state a search reaches from `v` at round `round`: rounds follow each
/// other until no stop is marked or `MAX_ROUNDS` rounds have run.
pub open spec fn search(repo: Repository, v: SearchView, targets: Seq<u32>, round: int, forward: bool) -> SearchView
    decreases MAX_ROUNDS - round,
{
    if round >= MAX_ROUNDS || round < 0 || none_marked(v.marks) {
        v
    } else {
        search(repo, round_step(repo, v, targets, round, forward), targets, round + 1, forward)
    }
}

/// The state in which a search from the stops `origin` towards the stops
/// `targets`, at `time`, ends.
pub open spec fn search_outcome(
    repo: Repository,
    origin: Seq<u32>,
    targets: Seq<u32>,
    time: Time,
    forward: bool,
) -> SearchView {
    search(repo, seed_view(repo, Seq::new(repo.stops@.len(), |s: int| None::<Time>), origin, time, forward), targets, 0, forward)
}

/// What a search that ended in state `fin` answers: no best target stop
/// means no route; otherwise an itinerary exactly when the parents chain
/// back from the best stop to a ride of round zero. The itinerary reaches
/// the end of the search at the target's best time, which is the best time
/// over all rounds of the best target stop and no worse than that of any
/// other target stop.
pub open spec fn outcome_matches(
    r: Result<Itinerary, Error>,
    repo: Repository,
    fin: SearchView,
    targets: Seq<u32>,
    forward: bool,
) -> bool {
    let n = repo.stops@.len() as int;
    &&& fin.target.1 is Some <==> target_reached(fin.tau, targets, forward)
    &&& fin.target.1 is None ==> r == Err::<Itinerary, Error>(Error::NoRouteFound)
    &&& fin.target.1 matches Some(s) ==> {
        &&& fin.target.2 is Some
        &&& (r is Ok <==> chain_ends(fin.parents, n, fin.target.2->Some_0 as int, s as int, (n * MAX_ROUNDS) as nat, !forward))
        &&& r is Err ==> r == Err::<Itinerary, Error>(Error::FailedToBuildRoute)
    }
    &&& fin.target.1 matches Some(s) ==> fin.tau[s as int] == Some(fin.target.0)
    &&& r matches Ok(it) ==> {
        &&& reached_time(it, forward) == fin.target.0
        &&& best_among(fin.tau, targets, fin.target.0, forward)
        &&& legs_follow(
            repo,
            it.legs@,
            travel_order(
                chain_path(fin.parents, n, fin.target.2->Some_0 as int, fin.target.1->Some_0 as int, (n * MAX_ROUNDS) as nat, !forward),
                !forward,
            ),
        )
    }
}

/// Some stop of `targets` got a best time: one before the last second a
/// time can hold when searching forward, after the first second of the day
/// when searching backwards.
pub open spec fn target_reached(tau: Seq<Option<Time>>, targets: Seq<u32>, forward: bool) -> bool {
    exists|k: int| 0 <= k < targets.len() && reached_label(#[trigger] tau[targets[k] as int], forward)
}

/// A best time that beats the start time of a target: before the last
/// second forward, after the first second backwards.
pub open spec fn reached_label(t: Option<Time>, forward: bool) -> bool {
    match t {
        Some(x) => if forward {
            x.0 < u32::MAX
        } else {
            x.0 > 0
        },
        None => false,
    }
}

/// Leaving at `time`, no journey of at most `MAX_ROUNDS` rides from a stop
/// of `origin`, each ride followed by at most one transfer or walk, reaches
/// a stop of `targets` before the itinerary `r` gives arrives; and where one
/// arrives before the last second a time can hold, `r` is not that there is
/// no route.
pub open spec fn earliest_among_journeys(
    r: Result<Itinerary, Error>,
    repo: Repository,
    origin: Seq<u32>,
    targets: Seq<u32>,
    time: Time,
) -> bool {
    forall|steps: Seq<Step>|
        #[trigger] journey(repo, origin, time, steps) && steps.len() <= MAX_ROUNDS && targets.contains(
            step_end(repo, steps.last()),
        ) ==> {
            &&& r matches Ok(it) ==> reached_time(it, true).0 <= step_arrival(repo, steps.last())
            &&& step_arrival(repo, steps.last()) < u32::MAX ==> r != Err::<Itinerary, Error>(Error::NoRouteFound)
        }
}

/// An answer that matches the outcome of a search forward is no later than
/// any journey it competes with, when the trips of every RAPTOR route keep
/// their order along it and run forward in time, and two footpaths in a row
/// are never faster than one.
pub proof fn lemma_outcome_earliest(
    r: Result<Itinerary, Error>,
    repo: Repository,
    origin: Seq<u32>,
    targets: Seq<u32>,
    time: Time,
)
    requires
        repo.wf(),
        no_overtaking(repo),
        rides_forward(repo),
        footpaths_closed(repo),
        forall|k: int| 0 <= k < targets.len() ==> #[trigger] targets[k] < repo.stops@.len(),
        outcome_matches(r, repo, search_outcome(repo, origin, targets, time, true), targets, true),
    ensures
        earliest_among_journeys(r, repo, origin, targets, time),
{
    assert forall|steps: Seq<Step>|
        #[trigger] journey(repo, origin, time, steps) && steps.len() <= MAX_ROUNDS && targets.contains(
            step_end(repo, steps.last()),
        ) implies {
        &&& r matches Ok(it) ==> reached_time(it, true).0 <= step_arrival(repo, steps.last())
        &&& step_arrival(repo, steps.last()) < u32::MAX ==> r != Err::<Itinerary, Error>(Error::NoRouteFound)
    } by {
        lemma_earliest_arrival(repo, origin, targets, time, steps);
    }
}

/// Arriving by `time`, no journey of at most `MAX_ROUNDS` rides to a stop
/// of `origin`, each ride reached by at most one transfer or walk, leaves a
/// stop of `targets` later than the itinerary `r` gives leaves; and where
/// one leaves after the first second, `r` is not that there is no route.
pub open spec fn latest_among_journeys(
    r: Result<Itinerary, Error>,
    repo: Repository,
    origin: Seq<u32>,
    targets: Seq<u32>,
    time: Time,
) -> bool {
    forall|steps: Seq<Step>|
        #[trigger] journey_back(repo, origin, time, steps) && steps.len() <= MAX_ROUNDS && targets.contains(
            step_start(repo, steps[0]),
        ) ==> {
            &&& r matches Ok(it) ==> reached_time(it, false).0 >= step_departure(repo, steps[0])
            &&& step_departure(repo, steps[0]) > 0 ==> r != Err::<Itinerary, Error>(Error::NoRouteFound)
        }
}

/// An answer that matches the outcome of a search backwards leaves no
/// earlier than any journey it competes with, when the trips of every
/// RAPTOR route keep their order backwards along it and run forward in
/// time, each route calls at each of its stops once, and two footpaths in a
/// row are never faster than one.
pub proof fn lemma_outcome_latest(
    r: Result<Itinerary, Error>,
    repo: Repository,
    origin: Seq<u32>,
    targets: Seq<u32>,
    time: Time,
)
    requires
        repo.wf(),
        no_overtaking_back(repo),
        calls_once(repo),
        rides_forward(repo),
        footpaths_closed(repo),
        forall|k: int| 0 <= k < targets.len() ==> #[trigger] targets[k] < repo.stops@.len(),
        outcome_matches(r, repo, search_outcome(repo, origin, targets, time, false), targets, false),
    ensures
        latest_among_journeys(r, repo, origin, targets, time),
{
    assert forall|steps: Seq<Step>|
        #[trigger] journey_back(repo, origin, time, steps) && steps.len() <= MAX_ROUNDS && targets.contains(
            step_start(repo, steps[0]),
        ) implies {
        &&& r matches Ok(it) ==> reached_time(it, false).0 >= step_departure(repo, steps[0])
        &&& step_departure(repo, steps[0]) > 0 ==> r != Err::<Itinerary, Error>(Error::NoRouteFound)
    } by {
        lemma_latest_departure(repo, origin, targets, time, steps);
    }
}

/// Two answers that match the outcome of one search agree: both give an
/// itinerary or both the same error, and two itineraries have the same
/// legs, between the same stops (by id), at the same times, of the same
/// kind and calling at the same stops on the way. So `solve` answers as
/// `solve_with_allocator` does with a fresh allocator.
pub proof fn lemma_outcome_determined(
    r1: Result<Itinerary, Error>,
    r2: Result<Itinerary, Error>,
    repo: Repository,
    fin: SearchView,
    targets: Seq<u32>,
    forward: bool,
)
    requires
        outcome_matches(r1, repo, fin, targets, forward),
        outcome_matches(r2, repo, fin, targets, forward),
    ensures
        r1 is Ok <==> r2 is Ok,
        r1 is Err ==> r1 == r2,
        r1 matches Ok(a) ==> r2 matches Ok(b) && a.legs@.len() == b.legs@.len() && forall|k: int|
            0 <= k < a.legs@.len() ==> {
                &&& same_stop((#[trigger] a.legs@[k]).from, b.legs@[k].from)
                &&& same_stop(a.legs@[k].to, b.legs@[k].to)
                &&& a.legs@[k].departue_time == b.legs@[k].departue_time
                &&& a.legs@[k].arrival_time == b.legs@[k].arrival_time
                &&& a.legs@[k].leg_type == b.legs@[k].leg_type
                &&& same_leg_stops(a.legs@[k].stops@, b.legs@[k].stops@)
            },
{
    if let Ok(a) = r1 {
        if let Ok(b) = r2 {
            let n = repo.stops@.len() as int;
            let path = travel_order(
                chain_path(fin.parents, n, fin.target.2->Some_0 as int, fin.target.1->Some_0 as int, (n * MAX_ROUNDS) as nat, !forward),
                !forward,
            );
            assert forall|k: int| 0 <= k < a.legs@.len() implies {
                &&& same_stop((#[trigger] a.legs@[k]).from, b.legs@[k].from)
                &&& same_stop(a.legs@[k].to, b.legs@[k].to)
                &&& a.legs@[k].departue_time == b.legs@[k].departue_time
                &&& a.legs@[k].arrival_time == b.legs@[k].arrival_time
                &&& a.legs@[k].leg_type == b.legs@[k].leg_type
                &&& same_leg_stops(a.legs@[k].stops@, b.legs@[k].stops@)
            } by {
                let la = a.legs@[k];
                let lb = b.legs@[k];
                let p = path[k];
                assert(leg_stops_ok(repo, p, la.stops@) && leg_stops_ok(repo, p, lb.stops@));
                assert(la.stops@.len() == lb.stops@.len());
                assert forall|m: int| 0 <= m < la.stops@.len() implies {
                    &&& same_stop((#[trigger] la.stops@[m]).location, lb.stops@[m].location)
                    &&& la.stops@[m].departure_time == lb.stops@[m].departure_time
                    &&& la.stops@[m].arrival_time == lb.stops@[m].arrival_time
                } by {
                    assert(lb.stops@[m] == lb.stops@[m]);
                }
                assert(names_point(repo, la.from, path[k].from) && names_point(repo, lb.from, path[k].from));
                assert(names_point(repo, la.to, path[k].to) && names_point(repo, lb.to, path[k].to));
            }
        }
    }
}

/// Two lists of the stops a leg calls at agree: as many, each the same stop
/// (by id) at the same times.
pub open spec fn same_leg_stops(x: Seq<LegStop>, y: Seq<LegStop>) -> bool {
    &&& x.len() == y.len()
    &&& forall|m: int|
        0 <= m < x.len() ==> {
            &&& same_stop((#[trigger] x[m]).location, y[m].location)
            &&& x[m].departure_time == y[m].departure_time
            &&& x[m].arrival_time == y[m].arrival_time
        }
}

/// The legs stand for the recorded legs `path` one for one: the same stops
/// (by id), times and kind.
pub open spec fn legs_follow(repo: Repository, legs: Seq<Leg>, path: Seq<Parent>) -> bool {
    &&& legs.len() == path.len()
    &&& forall|k: int|
        0 <= k < path.len() ==> {
            let leg = #[trigger] legs[k];
            &&& names_point(repo, leg.from, path[k].from)
            &&& names_point(repo, leg.to, path[k].to)
            &&& leg.departue_time == path[k].departure_time
            &&& leg.arrival_time == path[k].arrival_time
            &&& leg.leg_type == leg_type_of(path[k].parent_type)
            &&& leg_stops_ok(repo, path[k], leg.stops@)
        }
}

/// What the previous-round labels held before a search changes nothing of
/// the best times, parents and target it ends with.
pub proof fn lemma_search_prev_irrelevant(
    repo: Repository,
    prev1: Seq<Option<Time>>,
    prev2: Seq<Option<Time>>,
    origin: Seq<u32>,
    targets: Seq<u32>,
    time: Time,
    forward: bool,
)
    ensures
        ({
            let f1 = search(repo, seed_view(repo, prev1, origin, time, forward), targets, 0, forward);
            let f2 = search(repo, seed_view(repo, prev2, origin, time, forward), targets, 0, forward);
            f1.tau == f2.tau && f1.curr == f2.curr && f1.parents == f2.parents && f1.target == f2.target
        }),
{
    let v1 = seed_view(repo, prev1, origin, time, forward);
    let v2 = seed_view(repo, prev2, origin, time, forward);
    assert(round_step(repo, v1, targets, 0, forward) == round_step(repo, v2, targets, 0, forward));
}

impl<'a> Raptor<'a> {
    /// Runs the search with the working memory `allocator`, which must be
    /// fresh (as `Allocator::new` or `reset` leaves it) and sized for the
    /// repository, and builds the itinerary to the best target stop found.
    ///
    /// The locations are resolved first; an unknown one is reported. A
    /// search with no stop to start from finds nothing. The search then
    /// runs round after round, as `search` describes, and ends in the state
    /// that spec gives; the answer is the one `outcome_matches` describes
    /// for that state. Where trips run forward in time, every leg of the
    /// itinerary leaves no later than it arrives. Where trips do not
    /// overtake one another and two
    /// footpaths in a row are never faster than one, the itinerary arrives
    /// no later than any journey of at most `MAX_ROUNDS` rides, each with at
    /// most one transfer or walk after it (leaves no earlier, when arriving
    /// by a time, each ride then with at most one before it). The allocator is
    /// left sized for the repository, to be `reset` for the next search.
    pub fn solve_with_allocator(self, allocator: &mut Allocator) -> (r: Result<Itinerary, Error>)
        requires
            self.repository.wf(),
            old(allocator).fresh(
                self.repository.stops@.len() as int,
                self.repository.raptor_routes@.len() as int,
            ),
        ensures
            final(allocator).wf(self.repository.stops@.len() as int, self.repository.raptor_routes@.len() as int),
            final(allocator).updates@.len() == 0,
            match (
                location_stops(*self.repository, self.from),
                location_stops(*self.repository, self.to),
            ) {
                (Err(e), _) => r == Err::<Itinerary, Error>(e),
                (Ok(_), Err(e)) => r == Err::<Itinerary, Error>(e),
                (Ok(fs), Ok(ts)) => {
                    let (origin, targets) = search_ends(self.forward(), fs, ts);
                    &&& origin.len() == 0 ==> r == Err::<Itinerary, Error>(Error::NoRouteFound)
                    &&& r matches Err(e) ==> e == Error::NoRouteFound || e == Error::FailedToBuildRoute
                    &&& r matches Ok(it) ==> found_itinerary(
                        *self.repository,
                        it,
                        self.from,
                        self.to,
                        self.forward(),
                        origin,
                        targets,
                        constraint_time(self.time_constraint),
                    )
                    &&& r matches Ok(it) ==> (rides_forward(*self.repository) ==> legs_forward(it.legs@))
                    &&& final(allocator).target.stops@ == targets
                    &&& search_view(*final(allocator)) == search(
                        *self.repository,
                        seed_view(
                            *self.repository,
                            old(allocator).prev_labels@,
                            origin,
                            constraint_time(self.time_constraint),
                            self.forward(),
                        ),
                        targets,
                        0,
                        self.forward(),
                    )
                    &&& outcome_matches(r, *self.repository, search_view(*final(allocator)), targets, self.forward())
                    &&& outcome_matches(
                        r,
                        *self.repository,
                        search_outcome(
                            *self.repository,
                            origin,
                            targets,
                            constraint_time(self.time_constraint),
                            self.forward(),
                        ),
                        targets,
                        self.forward(),
                    )
                    &&& self.forward() && no_overtaking(*self.repository) && rides_forward(*self.repository)
                        && footpaths_closed(*self.repository)
                        ==> earliest_among_journeys(r, *self.repository, origin, targets, constraint_time(self.time_constraint))
                    &&& !self.forward() && no_overtaking_back(*self.repository) && calls_once(*self.repository)
                        && rides_forward(*self.repository) && footpaths_closed(*self.repository) ==> latest_among_journeys(
                        r,
                        *self.repository,
                        origin,
                        targets,
                        constraint_time(self.time_constraint),
                    )
                },
            },
    {
        let repository = self.repository;
        let ghost n = repository.stops@.len() as int;
        let ghost nq = repository.raptor_routes@.len() as int;
        let ghost from_loc = self.from;
        let ghost to_loc = self.to;
        let from_stops = match stops_by_location(repository, &self.from) {
            Ok(v) => v,
            Err(e) => return Err(e),
        };
        let to_stops = match stops_by_location(repository, &self.to) {
            Ok(v) => v,
            Err(e) => return Err(e),
        };
        let ghost fs = location_stops(*repository, from_loc)->Ok_0;
        let ghost ts = location_stops(*repository, to_loc)->Ok_0;
        let forward = match self.time_constraint {
            TimeConstraint::Departure(_) => true,
            TimeConstraint::Arrival(_) => false,
        };
        let ghost (origin, targets) = search_ends(forward, fs, ts);
        let time = self.time_constraint.time();
        proof {
            assert forall|k: int| 0 <= k < from_stops@.len() implies (#[trigger] from_stops@[k]).index
                == fs[k] by {
                assert(repository.stops@[fs[k] as int].index == fs[k]);
            }
            assert forall|k: int| 0 <= k < to_stops@.len() implies (#[trigger] to_stops@[k]).index == ts[k] by {
                assert(repository.stops@[ts[k] as int].index == ts[k]);
            }
        }
        if forward {
            seed(allocator, &from_stops, time);
            allocator.target.stops = stop_indices(&to_stops);
            allocator.target.tau_star = Time::latest();
        } else {
            seed(allocator, &to_stops, time);
            allocator.target.stops = stop_indices(&from_stops);
            allocator.target.tau_star = Time::earliest();
        }
        assert(allocator.target.stops@ =~= targets);
        let ghost sv0 = seed_view(*repository, old(allocator).prev_labels@, origin, time, forward);
        proof {
            let seeds = if forward {
                from_stops@
            } else {
                to_stops@
            };
            assert forall|s: int| 0 <= s < n implies (exists|k: int|
                0 <= k < seeds.len() && (#[trigger] seeds[k]).index == s) == listed(origin, s) by {
                if listed(origin, s) {
                    let k = choose|k: int| 0 <= k < origin.len() && #[trigger] origin[k] as int == s;
                    assert(seeds[k].index == s);
                }
                if exists|k: int| 0 <= k < seeds.len() && (#[trigger] seeds[k]).index == s {
                    let k = choose|k: int| 0 <= k < seeds.len() && (#[trigger] seeds[k]).index == s;
                    assert(origin[k] as int == s);
                }
            }
            assert(allocator.tau_star@ =~= sv0.tau);
            assert(allocator.curr_labels@ =~= sv0.curr);
            assert(allocator.parents@ =~= sv0.parents);
            assert(mask_bits(allocator.marked_stops) =~= sv0.marks);
            assert(allocator.active@ =~= sv0.active);
            assert(mask_bits(allocator.active_mask) =~= sv0.mask);
            assert(search_view(*allocator) == sv0);
        }
        assert(round_zero_leaves_after(allocator.parents@, n, time)) by {
            assert forall|s: int| 0 <= s < n implies (#[trigger] allocator.parents@[flat(0, s, n)] matches Some(p)
                ==> (p.parent_type is Transit ==> p.departure_time.0 >= time.0)) by {
                lemma_flat(0, s, 0, s, n, MAX_ROUNDS as int);
            }
        }
        assert(parents_land(allocator.parents@, n)) by {
            assert forall|r: int, s: int| 0 <= r < MAX_ROUNDS && 0 <= s < n implies (
            #[trigger] allocator.parents@[flat(r, s, n)] matches Some(p) ==> p.to == Point::Stop(s as u32)) by {
                lemma_flat(r, s, r, s, n, MAX_ROUNDS as int);
            }
        }
        assert(parents_leave(allocator.parents@, n) && round_zero_arrives_by(allocator.parents@, n, time)) by {
            assert forall|r: int, s: int| 0 <= r < MAX_ROUNDS && 0 <= s < n implies (
            #[trigger] allocator.parents@[flat(r, s, n)] matches Some(p) ==> p.from == Point::Stop(s as u32)) by {
                lemma_flat(r, s, r, s, n, MAX_ROUNDS as int);
            }
            assert forall|s: int| 0 <= s < n implies (#[trigger] allocator.parents@[flat(0, s, n)] matches Some(p)
                ==> (p.parent_type is Transit ==> p.arrival_time.0 <= time.0)) by {
                lemma_flat(0, s, 0, s, n, MAX_ROUNDS as int);
            }
        }
        assert(round_zero_starts(allocator.parents@, n, !forward, origin)) by {
            assert forall|s: int| 0 <= s < n implies (#[trigger] allocator.parents@[flat(0, s, n)]) is None by {
                lemma_flat(0, s, 0, s, n, MAX_ROUNDS as int);
            }
        }
        assert forall|s: int| 0 <= s < n && (#[trigger] allocator.curr_labels@[s]) is Some implies origin.contains(
            s as u32,
        ) by {
            if allocator.curr_labels@[s] is Some {
                let seeds = if forward {
                    from_stops@
                } else {
                    to_stops@
                };
                let k = choose|k: int| 0 <= k < seeds.len() && (#[trigger] seeds[k]).index == s;
                assert(origin[k] == s as u32);
            }
        }
        assert(rows_empty_from(allocator.parents@, 0, n)) by {
            assert forall|r: int, s: int| 0 <= r < MAX_ROUNDS && 0 <= s < n implies (#[trigger] allocator.parents@[flat(
                r,
                s,
                n,
            )]) is None by {
                lemma_flat(r, s, r, s, n, MAX_ROUNDS as int);
            }
        }
        let mut round: usize = 0;
        while round < MAX_ROUNDS
            invariant
                repository.wf(),
                n == repository.stops@.len(),
                nq == repository.raptor_routes@.len(),
                allocator.wf(n, nq),
                allocator.updates@.len() == 0,
                forward ==> parents_land(allocator.parents@, n),
                forward ==> round_zero_leaves_after(allocator.parents@, n, time),
                !forward ==> parents_leave(allocator.parents@, n),
                !forward ==> round_zero_arrives_by(allocator.parents@, n, time),
                round <= MAX_ROUNDS,
                best_among(allocator.tau_star@, targets, allocator.target.tau_star, forward),
                allocator.target.best_stop is Some ==> {
                    let s = allocator.target.best_stop->Some_0 as int;
                    let br = allocator.target.best_round->Some_0 as int;
                    &&& allocator.target.best_round is Some
                    &&& br < round
                    &&& allocator.parents@[flat(br, s, n)] is Some
                    &&& label_of(allocator.parents@[flat(br, s, n)]->Some_0, !forward) == allocator.target.tau_star.0
                },
                round_zero_starts(allocator.parents@, n, !forward, origin),
                round == 0 ==> forall|s: int|
                    0 <= s < n ==> (#[trigger] allocator.curr_labels@[s] is Some ==> origin.contains(s as u32)),
                rows_linked(allocator.parents@, round as int, n, !forward),
                rows_empty_from(allocator.parents@, round as int, n),
                round >= 1 ==> row_agrees(allocator.parents@, allocator.curr_labels@, round - 1, n, !forward),
                round == 0 ==> forall|s: int|
                    0 <= s < n ==> #[trigger] allocator.curr_labels@[s] is None || allocator.curr_labels@[s]
                        == Some(time),
                allocator.target.stops@ == targets,
                target_wf(allocator.target, n),
                allocator.target.best_stop matches Some(s) ==> allocator.tau_star@[s as int] == Some(allocator.target.tau_star),
                allocator.target.best_stop is None ==> allocator.target.tau_star.0 == (if forward {
                    u32::MAX
                } else {
                    0
                }),
                allocator.target.best_stop is Some ==> (if forward {
                    allocator.target.tau_star.0 < u32::MAX
                } else {
                    allocator.target.tau_star.0 > 0
                }),
                origin.len() == 0 ==> allocator.target.best_stop is None && forall|s: int|
                    0 <= s < n ==> !(#[trigger] mask_bits(allocator.marked_stops)[s]),
                search(*repository, search_view(*allocator), targets, round as int, forward) == search(
                    *repository,
                    sv0,
                    targets,
                    0,
                    forward,
                ),
            ensures
                round >= MAX_ROUNDS || none_marked(mask_bits(allocator.marked_stops)),
            decreases MAX_ROUNDS - round,
        {
            if allocator.marked_stops.not_any() {
                break;
            }
            let ghost v0 = search_view(*allocator);
            allocator.swap_labels();
            let ones = allocator.marked_stops.iter_ones();
            allocator.active_mask.fill(false);
            fill_active(&mut allocator.active);
            let ghost cleared = mask_bits(allocator.active_mask);
            let ghost swapped_active = allocator.active@;
            activate_routes(repository, allocator, &ones, forward);
            allocator.marked_stops.fill(false);
            let ghost before_round = *allocator;
            if forward {
                run_round(repository, allocator, round, Ghost(time), Ghost(origin));
            } else {
                run_round_reverse(repository, allocator, round, Ghost(time), Ghost(origin));
            }
            let ghost after_round = *allocator;
            update_target(allocator, round, forward);
            proof {
                lemma_scan_targets(
                    (after_round.target.tau_star, after_round.target.best_stop, after_round.target.best_round),
                    after_round.tau_star@,
                    targets,
                    round,
                    forward,
                );
                let t0 = before_round.target;
                let t1 = allocator.target;
                if !(t1.tau_star == t0.tau_star && t1.best_stop == t0.best_stop && t1.best_round == t0.best_round) {
                    let s1 = t1.best_stop->Some_0 as int;
                    let j = choose|j: int| 0 <= j < targets.len() && targets[j] == s1 as u32;
                    assert(before_round.tau_star@[targets[j] as int] matches Some(x) ==> no_worse(
                        t0.tau_star.0 as int,
                        x.0 as int,
                        !forward,
                    ));
                    assert(after_round.tau_star@[s1] != before_round.tau_star@[s1]);
                    assert(after_round.curr_labels@[s1] is Some);
                    assert(after_round.parents@[flat(round as int, s1, n)] is Some);
                } else {
                    if let Some(s0) = t0.best_stop {
                        let br = t0.best_round->Some_0 as int;
                        assert(after_round.parents@[flat(br, s0 as int, n)] == before_round.parents@[flat(br, s0 as int, n)]);
                        let j = choose|j: int| 0 <= j < targets.len() && targets[j] == s0;
                        assert(after_round.tau_star@[targets[j] as int] matches Some(x) ==> no_worse(
                            t1.tau_star.0 as int,
                            x.0 as int,
                            !forward,
                        ));
                        assert(no_worse(
                            best_label(after_round.tau_star@[s0 as int], !forward),
                            best_label(before_round.tau_star@[s0 as int], !forward),
                            !forward,
                        ));
                    }
                }
            }
            proof {
                let mid = round_start(*repository, v0, forward);
                assert(before_round.active@ =~= mid.active);
                assert forall|q: int| 0 <= q < nq implies #[trigger] mask_bits(before_round.active_mask)[q] == mid.mask[q] by {
                    assert(before_round.active@[q] == mid.active[q]);
                    assert(!cleared[q]);
                    assert(swapped_active[q] == u32::MAX);
                }
                assert(mask_bits(before_round.active_mask) =~= mid.mask);
                assert(before_round.curr_labels@ =~= mid.curr);
                assert(mask_bits(before_round.marked_stops) =~= mid.marks);
                assert(search_view(before_round) == mid);
                assert(before_round.label_state() == (mid.tau, mid.curr, mid.parents, mid.marks));
                assert(search_view(*allocator) == round_step(*repository, v0, targets, round as int, forward));
                assert(!none_marked(v0.marks));
            }
            round = round + 1;
        }
        proof {
            lemma_rows_timed(allocator.parents@, round as int, n, !forward);
            assert(search(*repository, search_view(*allocator), targets, round as int, forward) == search_view(*allocator));
            if let Some(sb) = allocator.target.best_stop {
                let j = choose|j: int| 0 <= j < targets.len() && targets[j] == sb;
                assert(allocator.tau_star@[targets[j] as int] == Some(allocator.target.tau_star));
            } else {
                assert forall|k: int| 0 <= k < targets.len() implies !reached_label(#[trigger] allocator.tau_star@[targets[k] as int], forward) by {
                    assert(allocator.tau_star@[targets[k] as int] matches Some(x) ==> no_worse(
                        allocator.target.tau_star.0 as int,
                        x.0 as int,
                        !forward,
                    ));
                }
            }
            lemma_search_prev_irrelevant(
                *repository,
                old(allocator).prev_labels@,
                Seq::new(n as nat, |s: int| None::<Time>),
                origin,
                targets,
                time,
                forward,
            );
        }
        let result = match (allocator.target.best_stop, allocator.target.best_round) {
            (Some(target_stop), Some(target_round)) => {
                let path = match backtrack(repository, allocator, target_stop, target_round, self.time_constraint) {
                    Ok(p) => p,
                    Err(e) => {
                        return Err(e);
                    },
                };
                let ghost legs_path = path@;
                let it = Itinerary::new(self.from, self.to, path, repository);
                proof {
                    if rides_forward(*repository) {
                        lemma_search_fwd(*repository, sv0, targets, 0, forward);
                        assert(search_view(*allocator) == search(*repository, sv0, targets, 0, forward));
                        assert(parents_forward(allocator.parents@));
                        assert forall|k: int| 0 <= k < it.legs@.len() implies (#[trigger] it.legs@[k]).departue_time.0
                            <= it.legs@[k].arrival_time.0 by {
                            assert(legs_path[k].departure_time.0 <= legs_path[k].arrival_time.0);
                        }
                    }
                    assert forall|k: int| 0 <= k < it.legs@.len() - 1 implies same_stop(
                        (#[trigger] it.legs@[k]).to,
                        it.legs@[k + 1].from,
                    ) by {
                        assert(legs_path[k].to == legs_path[k + 1].from);
                    }
                    assert forall|k: int| 0 <= k < it.legs@.len() - 1 implies (#[trigger] it.legs@[k]).arrival_time.0
                        <= it.legs@[k + 1].departue_time.0 by {
                        assert(legs_path[k].arrival_time.0 <= legs_path[k + 1].departure_time.0);
                    }
                    let j = choose|j: int| 0 <= j < targets.len() && targets[j] == target_stop;
                    let last = legs_path.len() - 1;
                    if forward {
                        assert(names_stop(*repository, it.legs@.last().to, targets[j] as int));
                        let s0 = choose|s: int| 0 <= s < n && allocator.parents@[flat(0, s, n)] == Some(legs_path[0]);
                        assert(legs_path[0].departure_time.0 >= time.0);
                        assert(starts_at(legs_path[0], false, origin));
                        if let Point::Stop(b) = legs_path[0].from {
                            if origin.contains(b) {
                                let jo = choose|jo: int| 0 <= jo < origin.len() && origin[jo] == b;
                                assert(names_stop(*repository, it.legs@[0].from, origin[jo] as int));
                            }
                        }
                    } else {
                        assert(names_stop(*repository, it.legs@[0].from, targets[j] as int));
                        let s0 = choose|s: int| 0 <= s < n && allocator.parents@[flat(0, s, n)] == Some(legs_path[last]);
                        assert(legs_path[last].arrival_time.0 <= time.0);
                        assert(it.legs@.last() == it.legs@[last]);
                        assert(starts_at(legs_path[last], true, origin));
                        if let Point::Stop(b) = legs_path[last].to {
                            if origin.contains(b) {
                                let jo = choose|jo: int| 0 <= jo < origin.len() && origin[jo] == b;
                                assert(names_stop(*repository, it.legs@[last].to, origin[jo] as int));
                            }
                        }
                    }
                }
                Ok(it)
            },
            _ => Err(Error::NoRouteFound),
        };
        proof {
            if forward && no_overtaking(*repository) && rides_forward(*repository) && footpaths_closed(*repository) {
                assert(outcome_matches(result, *repository, search_outcome(*repository, origin, targets, time, forward), targets, forward));
                lemma_outcome_earliest(result, *repository, origin, targets, time);
            }
            if !forward && no_overtaking_back(*repository) && calls_once(*repository) && rides_forward(*repository)
                && footpaths_closed(*repository) {
                assert(outcome_matches(result, *repository, search_outcome(*repository, origin, targets, time, forward), targets, forward));
                lemma_outcome_latest(result, *repository, origin, targets, time);
            }
        }
        result
    }
}

impl<'a> Raptor<'a> {
    /// Runs the search with working memory of its own, as
    /// `solve_with_allocator` does with a fresh allocator: the same search
    /// state is reached and the same answer given.
    pub fn solve(self) -> (r: Result<Itinerary, Error>)
        requires
            self.repository.wf(),
            self.repository.stops@.len() * MAX_ROUNDS <= usize::MAX,
            self.repository.stops@.len() <= usize::MAX / 8,
            self.repository.raptor_routes@.len() <= usize::MAX / 8,
        ensures
            match (
                location_stops(*self.repository, self.from),
                location_stops(*self.repository, self.to),
            ) {
                (Err(e), _) => r == Err::<Itinerary, Error>(e),
                (Ok(_), Err(e)) => r == Err::<Itinerary, Error>(e),
                (Ok(fs), Ok(ts)) => {
                    let (origin, targets) = search_ends(self.forward(), fs, ts);
                    &&& origin.len() == 0 ==> r == Err::<Itinerary, Error>(Error::NoRouteFound)
                    &&& r matches Err(e) ==> e == Error::NoRouteFound || e == Error::FailedToBuildRoute
                    &&& r matches Ok(it) ==> found_itinerary(
                        *self.repository,
                        it,
                        self.from,
                        self.to,
                        self.forward(),
                        origin,
                        targets,
                        constraint_time(self.time_constraint),
                    )
                    &&& r matches Ok(it) ==> (rides_forward(*self.repository) ==> legs_forward(it.legs@))
                    &&& outcome_matches(
                        r,
                        *self.repository,
                        search_outcome(
                            *self.repository,
                            origin,
                            targets,
                            constraint_time(self.time_constraint),
                            self.forward(),
                        ),
                        targets,
                        self.forward(),
                    )
                    &&& self.forward() && no_overtaking(*self.repository) && rides_forward(*self.repository)
                        && footpaths_closed(*self.repository)
                        ==> earliest_among_journeys(r, *self.repository, origin, targets, constraint_time(self.time_constraint))
                    &&& !self.forward() && no_overtaking_back(*self.repository) && calls_once(*self.repository)
                        && rides_forward(*self.repository) && footpaths_closed(*self.repository) ==> latest_among_journeys(
                        r,
                        *self.repository,
                        origin,
                        targets,
                        constraint_time(self.time_constraint),
                    )
                },
            },
    {
        let mut allocator = Allocator::new(self.repository);
        self.solve_with_allocator(&mut allocator)
    }
}

impl Repository {
    /// A search over this repository, leaving now.
    pub fn router(&self, from: Location, to: Location) -> (r: Raptor<'_>)
        ensures
            r.repository == self,
            r.from == from,
            r.to == to,
            r.time_constraint matches TimeConstraint::Departure(t) && t.0 < 86400,
    {
        Raptor::new(self, from, to)
    }
}

} // verus!
