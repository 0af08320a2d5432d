//! Turning the path of a search into legs that name stops by id.

use crate::raptor::allocator::parent_wf;
use crate::raptor::discovery::{first_index_of, lemma_first_index_exists, lemma_first_index_of};
use crate::raptor::location::{Location, Point};
use crate::raptor::state::{Parent, ParentType};
use crate::repository::{Repository, Stop, StopTime};
use crate::time::Time;
use vstd::prelude::*;

verus! {

/// How a leg is travelled.
#[derive(Debug, Clone, Copy, PartialEq, Eq)]
pub enum LegType {
    /// On the trip with this index.
    Transit(u32),
    Transfer,
    Walk,
}

impl LegType {
    pub fn from(value: ParentType) -> (t: LegType)
        ensures
            t == leg_type_of(value),
    {
        match value {
            ParentType::Transit(trip_idx) => LegType::Transit(trip_idx),
            ParentType::Transfer => LegType::Transfer,
            ParentType::Walk => LegType::Walk,
        }
    }
}

pub open spec fn leg_type_of(value: ParentType) -> LegType {
    match value {
        ParentType::Transit(trip_idx) => LegType::Transit(trip_idx),
        ParentType::Transfer => LegType::Transfer,
        ParentType::Walk => LegType::Walk,
    }
}

/// A stop called at during a leg.
#[derive(Debug, Clone)]
pub struct LegStop {
    pub location: Location,
    pub departure_time: Time,
    pub arrival_time: Time,
}

/// One leg of a journey.
#[derive(Debug, Clone)]
pub struct Leg {
    pub from: Location,
    pub to: Location,
    pub departue_time: Time,
    pub arrival_time: Time,
    pub stops: Vec<LegStop>,
    pub leg_type: LegType,
}

/// A journey from one location to another.
#[derive(Debug, Clone)]
pub struct Itinerary {
    pub from: Location,
    pub to: Location,
    pub legs: Vec<Leg>,
}

/// `location` names stop `s` of `stops` by its id.
pub open spec fn names_stop_in(stops: Seq<Stop>, location: Location, s: int) -> bool {
    location matches Location::Stop(id) && id@ == stops[s].id@
}

/// `location` names stop `s` of the repository by its id.
pub open spec fn names_stop(repo: Repository, location: Location, s: int) -> bool {
    names_stop_in(repo.stops@, location, s)
}

/// `location` names the stop that point `p` is.
pub open spec fn names_point(repo: Repository, location: Location, p: Point) -> bool {
    p matches Point::Stop(s) && names_stop(repo, location, s as int)
}

/// Both locations are stops with the same id.
pub open spec fn same_stop(a: Location, b: Location) -> bool {
    a matches Location::Stop(x) && b matches Location::Stop(y) && x@ == y@
}

/// Each leg starts at the stop where the previous one ends.
pub open spec fn legs_chained(legs: Seq<Leg>) -> bool {
    forall|k: int| 0 <= k < legs.len() - 1 ==> same_stop((#[trigger] legs[k]).to, legs[k + 1].from)
}

/// Each leg leaves no later than it arrives.
pub open spec fn legs_forward(legs: Seq<Leg>) -> bool {
    forall|k: int| 0 <= k < legs.len() ==> (#[trigger] legs[k]).departue_time.0 <= legs[k].arrival_time.0
}

/// Each leg arrives no later than the next one leaves, so that every
/// connection can be made.
pub open spec fn legs_timed(legs: Seq<Leg>) -> bool {
    forall|k: int| 0 <= k < legs.len() - 1 ==> (#[trigger] legs[k]).arrival_time.0 <= legs[k + 1].departue_time.0
}

/// The stops that a run of stop times calls at, in order.
pub open spec fn call_ids(calls: Seq<StopTime>) -> Seq<u32> {
    calls.map_values(|st: StopTime| st.stop_idx)
}

/// The stops that trip `t` calls at, in order.
pub open spec fn trip_stop_ids(repo: Repository, t: int) -> Seq<u32> {
    let slice = repo.trip_to_stop_slice@[t];
    call_ids(repo.stop_times@.subrange(slice.start_idx as int, slice.start_idx + slice.count))
}

/// Where the calls of a leg begin among `ids`: the first call at the
/// boarding stop (-1 when there is none).
pub open spec fn span_begin(ids: Seq<u32>, from: u32) -> int {
    first_index_of(ids, from)
}

/// Where they end (exclusive): just after the first call at the alighting
/// stop from the beginning on, or the end of `ids`.
pub open spec fn span_end(ids: Seq<u32>, from: u32, to: u32) -> int {
    let b = span_begin(ids, from);
    let e = first_index_of(ids.subrange(b, ids.len() as int), to);
    if e >= 0 {
        b + e + 1
    } else {
        ids.len() as int
    }
}

/// `r` holds the calls `calls[b..e]` as leg stops, each naming its stop.
pub open spec fn leg_stops_of(
    r: Seq<LegStop>,
    stops: Seq<Stop>,
    calls: Seq<StopTime>,
    b: int,
    e: int,
) -> bool {
    &&& r.len() == e - b
    &&& forall|k: int|
        0 <= k < r.len() ==> {
            let st = calls[b + k];
            &&& names_stop_in(stops, (#[trigger] r[k]).location, st.stop_idx as int)
            &&& r[k].departure_time == st.departure_time
            &&& r[k].arrival_time == st.arrival_time
        }
}

/// Leg stops that hold the calls from the first one at the boarding stop,
/// made at position `j`, start with that call.
#[verifier::rlimit(40)]
proof fn lemma_calls_from_boarding(
    calls: Seq<StopTime>,
    stops: Seq<Stop>,
    from_idx: u32,
    to_idx: u32,
    out: Seq<LegStop>,
    j: int,
)
    requires
        span_begin(call_ids(calls), from_idx) >= 0 ==> leg_stops_of(
            out,
            stops,
            calls,
            span_begin(call_ids(calls), from_idx),
            span_end(call_ids(calls), from_idx, to_idx),
        ),
        0 <= j < calls.len(),
        calls[j].stop_idx == from_idx,
        forall|i: int| 0 <= i < j ==> calls[i].stop_idx != from_idx,
    ensures
        1 <= out.len() <= calls.len() - j,
        names_stop_in(stops, out[0].location, from_idx as int),
        out[0].departure_time == calls[j].departure_time,
        out[0].arrival_time == calls[j].arrival_time,
{
    let ids = call_ids(calls);
    assert(ids[j] == from_idx);
    assert forall|i: int| 0 <= i < j implies ids[i] != from_idx by {
        assert(ids[i] == calls[i].stop_idx);
    }
    lemma_first_index_of(ids, from_idx, j);
    assert(span_begin(ids, from_idx) == j);
    let rest = ids.subrange(j, ids.len() as int);
    if rest.contains(to_idx) {
        lemma_first_index_exists(rest, to_idx);
        let e = first_index_of(rest, to_idx);
        assert(0 <= e < rest.len());
    }
    let e = span_end(ids, from_idx, to_idx);
    assert(j + 1 <= e <= calls.len());
    assert(leg_stops_of(out, stops, calls, j, e));
    let st = calls[j + 0];
    assert(names_stop_in(stops, out[0].location, st.stop_idx as int));
}

/// Leg stops of a trip that never calls at the boarding stop are none.
proof fn lemma_calls_never_boarding(calls: Seq<StopTime>, from_idx: u32, out: Seq<LegStop>)
    requires
        span_begin(call_ids(calls), from_idx) < 0 ==> out.len() == 0,
        forall|j: int| 0 <= j < calls.len() ==> calls[j].stop_idx != from_idx,
    ensures
        out.len() == 0,
{
    let ids = call_ids(calls);
    assert(!ids.contains(from_idx)) by {
        if ids.contains(from_idx) {
            let j = choose|j: int| 0 <= j < ids.len() && ids[j] == from_idx;
            assert(ids[j] == calls[j].stop_idx);
        }
    }
}

/// The stops of a ride's leg start where it is boarded: with the trip's
/// first call at the boarding stop, none of its earlier calls listed.
pub proof fn lemma_leg_starts_at_boarding(repo: Repository, p: Parent, stops: Seq<LegStop>, j: int)
    requires
        leg_stops_ok(repo, p, stops),
        p.parent_type matches ParentType::Transit(t) && t < repo.trips@.len() && ({
            let slice = repo.trip_to_stop_slice@[t as int];
            let calls = repo.stop_times@.subrange(slice.start_idx as int, slice.start_idx + slice.count);
            &&& p.from matches Point::Stop(f) && 0 <= j < calls.len() && calls[j].stop_idx == f && forall|i: int|
                0 <= i < j ==> calls[i].stop_idx != f
        }),
        p.to is Stop,
    ensures
        p.parent_type matches ParentType::Transit(t) && p.from matches Point::Stop(f) && ({
            let slice = repo.trip_to_stop_slice@[t as int];
            let calls = repo.stop_times@.subrange(slice.start_idx as int, slice.start_idx + slice.count);
            &&& 1 <= stops.len() <= calls.len() - j
            &&& names_stop(repo, stops[0].location, f as int)
            &&& stops[0].departure_time == calls[j].departure_time
            &&& stops[0].arrival_time == calls[j].arrival_time
        }),
{
    if let ParentType::Transit(t) = p.parent_type {
        if let Point::Stop(f) = p.from {
            if let Point::Stop(to) = p.to {
                let slice = repo.trip_to_stop_slice@[t as int];
                let calls = repo.stop_times@.subrange(slice.start_idx as int, slice.start_idx + slice.count);
                assert(trip_stop_ids(repo, t as int) == call_ids(calls));
                lemma_calls_from_boarding(calls, repo.stops@, f, to, stops, j);
            }
        }
    }
}

/// The calls of `calls` from the first one at `from_idx` up to and including
/// the next one at `to_idx` (or to the end), as leg stops.
fn collect_calls(calls: &[StopTime], stops: &Vec<Stop>, from_idx: u32, to_idx: u32) -> (r: Vec<
    LegStop,
>)
    requires
        forall|j: int| 0 <= j < calls@.len() ==> #[trigger] calls@[j].stop_idx < stops@.len(),
    ensures
        span_begin(call_ids(calls@), from_idx) < 0 ==> r@.len() == 0,
        span_begin(call_ids(calls@), from_idx) >= 0 ==> leg_stops_of(
            r@,
            stops@,
            calls@,
            span_begin(call_ids(calls@), from_idx),
            span_end(call_ids(calls@), from_idx, to_idx),
        ),
        forall|j: int|
            0 <= j < calls@.len() && #[trigger] calls@[j].stop_idx == from_idx && (forall|i: int|
                0 <= i < j ==> calls@[i].stop_idx != from_idx) ==> {
                &&& 1 <= r@.len() <= calls@.len() - j
                &&& names_stop_in(stops@, r@[0].location, from_idx as int)
                &&& r@[0].departure_time == calls@[j].departure_time
                &&& r@[0].arrival_time == calls@[j].arrival_time
            },
        (forall|j: int| 0 <= j < calls@.len() ==> calls@[j].stop_idx != from_idx) ==> r@.len() == 0,
{
    let ghost ids = call_ids(calls@);
    let mut out: Vec<LegStop> = Vec::new();
    let ghost mut b: int = -1;
    let mut in_trip = false;
    let mut k: usize = 0;
    while k < calls.len()
        invariant_except_break
            in_trip ==> {
                &&& b == span_begin(ids, from_idx)
                &&& 0 <= b < k
                &&& forall|j: int| b <= j < k ==> ids[j] != to_idx
            },
            in_trip ==> leg_stops_of(out@, stops@, calls@, b, k as int),
        invariant
            forall|j: int| 0 <= j < calls@.len() ==> #[trigger] calls@[j].stop_idx < stops@.len(),
            ids == call_ids(calls@),
            ids.len() == calls@.len(),
            k <= calls@.len(),
            !in_trip ==> out@.len() == 0,
            !in_trip ==> forall|j: int| 0 <= j < k ==> ids[j] != from_idx,
        ensures
            !in_trip ==> out@.len() == 0 && forall|j: int| 0 <= j < calls@.len() ==> ids[j] != from_idx,
            in_trip ==> b == span_begin(ids, from_idx) && 0 <= b <= k,
            in_trip && k < calls@.len() ==> ids[k as int] == to_idx && (forall|j: int|
                b <= j < k ==> ids[j] != to_idx) && leg_stops_of(out@, stops@, calls@, b, k + 1),
            in_trip && k >= calls@.len() ==> k == calls@.len() && (forall|j: int|
                b <= j < k ==> ids[j] != to_idx) && leg_stops_of(out@, stops@, calls@, b, k as int),
        decreases calls@.len() - k,
    {
        let stop_time = &calls[k];
        assert(ids[k as int] == stop_time.stop_idx);
        if stop_time.stop_idx == from_idx && !in_trip {
            proof {
                lemma_first_index_of(ids, from_idx, k as int);
                b = k as int;
            }
            in_trip = true;
        }
        if in_trip {
            let stop = &stops[stop_time.stop_idx as usize];
            out.push(
                LegStop {
                    location: Location::Stop(stop.id.clone()),
                    departure_time: stop_time.departure_time,
                    arrival_time: stop_time.arrival_time,
                },
            );
            if stop_time.stop_idx == to_idx {
                break;
            }
        }
        k = k + 1;
    }
    proof {
        if in_trip {
            let rest = ids.subrange(b, ids.len() as int);
            if k < calls@.len() {
                lemma_first_index_of(rest, to_idx, k - b);
            } else {
                assert(!rest.contains(to_idx)) by {
                    if rest.contains(to_idx) {
                        let j = choose|j: int| 0 <= j < rest.len() && rest[j] == to_idx;
                        assert(ids[b + j] == to_idx);
                    }
                }
            }
        } else {
            assert(!ids.contains(from_idx)) by {
                if ids.contains(from_idx) {
                    let j = choose|j: int| 0 <= j < ids.len() && ids[j] == from_idx;
                    assert(ids[j] != from_idx);
                }
            }
        }
    }
    proof {
        assert forall|j: int|
            0 <= j < calls@.len() && #[trigger] calls@[j].stop_idx == from_idx && (forall|i: int|
                0 <= i < j ==> calls@[i].stop_idx != from_idx) implies {
            &&& 1 <= out@.len() <= calls@.len() - j
            &&& names_stop_in(stops@, out@[0].location, from_idx as int)
            &&& out@[0].departure_time == calls@[j].departure_time
            &&& out@[0].arrival_time == calls@[j].arrival_time
        } by {
            lemma_calls_from_boarding(calls@, stops@, from_idx, to_idx, out@, j);
        }
        if forall|j: int| 0 <= j < calls@.len() ==> calls@[j].stop_idx != from_idx {
            lemma_calls_never_boarding(calls@, from_idx, out@);
        }
    }
    out
}

/// The stops that the leg of `p` lists: for a ride, the trip's calls from
/// the boarding stop to the alighting stop; none for a transfer or walk.
pub open spec fn leg_stops_ok(repo: Repository, p: Parent, stops: Seq<LegStop>) -> bool {
    match (p.parent_type, p.from, p.to) {
        (ParentType::Transit(t), Point::Stop(from), Point::Stop(to)) => if t
            < repo.trips@.len() {
            let ids = trip_stop_ids(repo, t as int);
            let slice = repo.trip_to_stop_slice@[t as int];
            let calls = repo.stop_times@.subrange(
                slice.start_idx as int,
                slice.start_idx + slice.count,
            );
            &&& span_begin(ids, from) < 0 ==> stops.len() == 0
            &&& span_begin(ids, from) >= 0 ==> leg_stops_of(
                stops,
                repo.stops@,
                calls,
                span_begin(ids, from),
                span_end(ids, from, to),
            )
        } else {
            stops.len() == 0
        },
        _ => stops.len() == 0,
    }
}

impl LegStop {
    /// The stops a transit leg calls at, from the boarding stop to the
    /// alighting stop; transfers and walks call nowhere in between.
    pub fn generate_stops(parent: &Parent, repository: &Repository) -> (r: Vec<LegStop>)
        requires
            repository.wf(),
            parent_wf(*parent, repository.stops@.len() as int),
        ensures
            leg_stops_ok(*repository, *parent, r@),
    {
        match parent.parent_type {
            ParentType::Transit(trip_idx) => {
                if trip_idx as usize >= repository.trips.len() {
                    return Vec::new();
                }
                match (parent.from, parent.to) {
                    (Point::Stop(from_idx), Point::Stop(to_idx)) => {
                        let calls = repository.stop_times_by_trip_idx(trip_idx);
                        let ghost slice = repository.trip_to_stop_slice@[trip_idx as int];
                        assert forall|j: int| 0 <= j < calls@.len() implies #[trigger] calls@[j].stop_idx
                            < repository.stops@.len() by {
                            assert(calls@[j] == repository.stop_times@[slice.start_idx + j]);
                        }
                        collect_calls(calls, &repository.stops, from_idx, to_idx)
                    },
                    _ => Vec::new(),
                }
            },
            ParentType::Transfer => Vec::new(),
            ParentType::Walk => Vec::new(),
        }
    }
}

/// The location of a point: a stop by its id.
pub fn point_to_location(point: &Point, repository: &Repository) -> (l: Location)
    requires
        repository.wf(),
        point matches Point::Stop(s) && s < repository.stops@.len(),
    ensures
        names_point(*repository, l, *point),
{
    match point {
        Point::Stop(idx) => {
            let stop = &repository.stops[*idx as usize];
            Location::Stop(stop.id.clone())
        },
        Point::Coordinate => Location::Coordinate(Vec::new()),
    }
}

impl Itinerary {
    /// One leg per parent of the path, in order.
    pub fn new(from: Location, to: Location, path: Vec<Parent>, repository: &Repository) -> (it: Itinerary)
        requires
            repository.wf(),
            forall|k: int| 0 <= k < path@.len() ==> parent_wf(#[trigger] path@[k], repository.stops@.len() as int),
        ensures
            it.from == from,
            it.to == to,
            it.legs@.len() == path@.len(),
            forall|k: int|
                0 <= k < path@.len() ==> {
                    let leg = #[trigger] it.legs@[k];
                    &&& names_point(*repository, leg.from, path@[k].from)
                    &&& names_point(*repository, leg.to, path@[k].to)
                    &&& leg.departue_time == path@[k].departure_time
                    &&& leg.arrival_time == path@[k].arrival_time
                    &&& leg.leg_type == leg_type_of(path@[k].parent_type)
                    &&& leg_stops_ok(*repository, path@[k], leg.stops@)
                },
    {
        let mut legs: Vec<Leg> = Vec::new();
        let mut k: usize = 0;
        while k < path.len()
            invariant
                repository.wf(),
                forall|j: int| 0 <= j < path@.len() ==> parent_wf(#[trigger] path@[j], repository.stops@.len() as int),
                k <= path@.len(),
                legs@.len() == k,
                forall|j: int|
                    0 <= j < k ==> {
                        let leg = #[trigger] legs@[j];
                        &&& names_point(*repository, leg.from, path@[j].from)
                        &&& names_point(*repository, leg.to, path@[j].to)
                        &&& leg.departue_time == path@[j].departure_time
                        &&& leg.arrival_time == path@[j].arrival_time
                        &&& leg.leg_type == leg_type_of(path@[j].parent_type)
                        &&& leg_stops_ok(*repository, path@[j], leg.stops@)
                    },
            decreases path@.len() - k,
        {
            let parent = &path[k];
            assert(parent_wf(*parent, repository.stops@.len() as int));
            let leg_from = point_to_location(&parent.from, repository);
            let leg_to = point_to_location(&parent.to, repository);
            legs.push(
                Leg {
                    from: leg_from,
                    to: leg_to,
                    departue_time: parent.departure_time,
                    arrival_time: parent.arrival_time,
                    stops: LegStop::generate_stops(parent, repository),
                    leg_type: LegType::from(parent.parent_type),
                },
            );
            k = k + 1;
        }
        Itinerary { from, to, legs }
    }
}

} // verus!
