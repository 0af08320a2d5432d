//! How the answer of a search compares with the journeys it competes with.

use crate::bitmask::set_positions;
use crate::raptor::allocator::{
    apply_update, apply_updates, best_or_earliest, best_or_latest, improves, improves_reverse, lemma_flat, parents_forward,
    LabelState, SearchView,
};
use crate::raptor::discovery::{
    arrival_at, catchable, departure_at, first_index_of, is_earliest, is_latest, lemma_first_index_exists, lemma_serving_valid,
    reachable_by,
    serving_routes, transfer_time,
};
use crate::raptor::{
    best_position, lemma_scan_targets, listed, none_marked, reached_label, search_outcome, seed_view, target_reached, round_start, round_step, scan_targets, search, serving_all,
};
use crate::raptor::allocator::MAX_ROUNDS;
use crate::raptor::timing::no_worse;
use crate::raptor::state::ServingRoute;
use crate::raptor::explorer::{
    earliest_index, footpath_proposals, latest_index, reverse_route_proposals, reverse_scan, route_proposals, scan_backward,
    footpath_proposal, push_some, scan_forward, transfer_proposals, walk_proposals,
};
use crate::raptor::state::{ParentType, Update};
use crate::repository::{Repository, Walk};
use crate::time::Time;
use vstd::prelude::*;

verus! {

/// The trips of every RAPTOR route keep their order along it: a trip that
/// leaves a position no later than another also leaves and arrives no
/// later at every later position.
pub open spec fn no_overtaking(repo: Repository) -> bool {
    forall|q: int, k1: int, k2: int, a: int, b: int| #[trigger] keeps_order(repo, q, k1, k2, a, b)
}

/// On RAPTOR route `q`, if trip `k1` leaves position `a` no later than trip
/// `k2`, it leaves and arrives no later at position `b` further on.
pub open spec fn keeps_order(repo: Repository, q: int, k1: int, k2: int, a: int, b: int) -> bool {
    let trips = repo.raptor_routes@[q].trips@;
    0 <= q < repo.raptor_routes@.len() && 0 <= k1 < trips.len() && 0 <= k2 < trips.len() && 0 <= a < b
        < repo.raptor_routes@[q].stops@.len() && departure_at(repo, trips[k1] as int, a).0 <= departure_at(
        repo,
        trips[k2] as int,
        a,
    ).0 ==> {
        &&& departure_at(repo, trips[k1] as int, b).0 <= departure_at(repo, trips[k2] as int, b).0
        &&& arrival_at(repo, trips[k1] as int, b).0 <= arrival_at(repo, trips[k2] as int, b).0
    }
}

/// Among the first `m` trips, the position of the first of those that can
/// be caught at position `index` at `time` and leave earliest; -1 if none.
spec fn earliest_upto(repo: Repository, trips: Seq<u32>, index: int, time: Time, m: int) -> int
    decreases m,
{
    if m <= 0 {
        -1
    } else {
        let c = earliest_upto(repo, trips, index, time, m - 1);
        if catchable(repo, trips, index, time, m - 1) && (c < 0 || departure_at(repo, trips[m - 1] as int, index).0
            < departure_at(repo, trips[c] as int, index).0) {
            m - 1
        } else {
            c
        }
    }
}

proof fn lemma_earliest_upto(repo: Repository, trips: Seq<u32>, index: int, time: Time, m: int)
    requires
        0 <= m <= trips.len(),
    ensures
        ({
            let c = earliest_upto(repo, trips, index, time, m);
            &&& -1 <= c < m
            &&& c < 0 <==> forall|j: int| 0 <= j < m ==> !catchable(repo, trips, index, time, j)
            &&& c >= 0 ==> catchable(repo, trips, index, time, c)
            &&& c >= 0 ==> forall|j: int|
                0 <= j < m && catchable(repo, trips, index, time, j) ==> departure_at(repo, trips[c] as int, index).0
                    <= departure_at(repo, trips[j] as int, index).0
            &&& c >= 0 ==> forall|j: int|
                0 <= j < c && catchable(repo, trips, index, time, j) ==> departure_at(repo, trips[c] as int, index).0
                    < departure_at(repo, trips[j] as int, index).0
        }),
    decreases m,
{
    if m > 0 {
        lemma_earliest_upto(repo, trips, index, time, m - 1);
    }
}

/// A trip that can be caught makes the earliest one exist, and it leaves no
/// later than that trip.
proof fn lemma_earliest_exists(repo: Repository, trips: Seq<u32>, index: int, time: Time, k: int)
    requires
        0 <= k < trips.len(),
        catchable(repo, trips, index, time, k),
    ensures
        0 <= earliest_index(repo, trips, index, time) < trips.len(),
        is_earliest(repo, trips, index, time, earliest_index(repo, trips, index, time)),
        departure_at(repo, trips[earliest_index(repo, trips, index, time)] as int, index).0 <= departure_at(
            repo,
            trips[k] as int,
            index,
        ).0,
{
    lemma_earliest_upto(repo, trips, index, time, trips.len() as int);
    let c = earliest_upto(repo, trips, index, time, trips.len() as int);
    assert(is_earliest(repo, trips, index, time, c));
}

/// A ride arriving at `a` is matched: an update proposes stop `s` by `a`,
/// or the stop's best time or the target's is already no later.
pub open spec fn covered(us: Seq<Update>, tau: Seq<Option<Time>>, target: Time, s: u32, a: int) -> bool {
    ||| exists|m: int| 0 <= m < us.len() && (#[trigger] us[m]).stop_idx == s && us[m].arrival_time.0 <= a
    ||| tau[s as int] matches Some(x) && x.0 <= a
    ||| target.0 <= a
}

/// The trip a forward scan rides is one of the route's trips, or none.
proof fn lemma_scan_trip_range(repo: Repository, v: SearchView, q: int, p: int)
    requires
        0 <= q < repo.raptor_routes@.len(),
    ensures
        -1 <= scan_forward(repo, v, q, p).1 < repo.raptor_routes@[q].trips@.len(),
    decreases p,
{
    if !(p <= v.active[q] || p <= 0) {
        lemma_scan_trip_range(repo, v, q, p - 1);
        let route = repo.raptor_routes@[q];
        let j = p - 1;
        let stop = route.stops@[j];
        let prev_label = match v.prev[stop as int] {
            Some(l) => l,
            None => Time(u32::MAX),
        };
        let e = earliest_index(repo, route.trips@, j, prev_label);
        if e >= 0 {
            assert(exists|k: int| is_earliest(repo, route.trips@, j, prev_label, k));
        }
    }
}

/// Scanning a route forward from no later than position `i`, where the
/// stop was reached in the previous round no later than trip `kt` leaves
/// it, rides a trip that leaves every position from `i` on no later than
/// `kt`, and matches every arrival of `kt` after `i`.
proof fn lemma_scan_ride(repo: Repository, v: SearchView, q: int, kt: int, i: int, p: int)
    requires
        no_overtaking(repo),
        0 <= q < repo.raptor_routes@.len(),
        0 <= kt < repo.raptor_routes@[q].trips@.len(),
        v.active[q] <= i < p <= repo.raptor_routes@[q].stops@.len(),
        v.prev[repo.raptor_routes@[q].stops@[i] as int] matches Some(l) && l.0 <= departure_at(
            repo,
            repo.raptor_routes@[q].trips@[kt] as int,
            i,
        ).0,
    ensures
        ({
            let route = repo.raptor_routes@[q];
            let r = scan_forward(repo, v, q, p);
            &&& 0 <= r.1 < route.trips@.len()
            &&& departure_at(repo, route.trips@[r.1] as int, p - 1).0 <= departure_at(
                repo,
                route.trips@[kt] as int,
                p - 1,
            ).0
            &&& forall|j: int|
                i < j < p ==> #[trigger] covered(
                    r.0,
                    v.tau,
                    v.target.0,
                    route.stops@[j],
                    arrival_at(repo, route.trips@[kt] as int, j).0 as int,
                )
        }),
    decreases p,
{
    let route = repo.raptor_routes@[q];
    let trips = route.trips@;
    let t_kt = trips[kt] as int;
    let (us0, k0, b0) = scan_forward(repo, v, q, p - 1);
    lemma_scan_trip_range(repo, v, q, p - 1);
    let j = p - 1;
    let stop = route.stops@[j];
    let prev_label = match v.prev[stop as int] {
        Some(l) => l,
        None => Time(u32::MAX),
    };
    let current = if k0 >= 0 {
        departure_at(repo, trips[k0] as int, j).0
    } else {
        u32::MAX
    };
    let e = earliest_index(repo, trips, j, prev_label);
    let r = scan_forward(repo, v, q, p);
    if j == i {
        if prev_label.0 <= current {
            lemma_earliest_exists(repo, trips, i, prev_label, kt);
            assert(r.1 == e);
        } else {
            assert(r.1 == k0);
        }
    } else {
        lemma_scan_ride(repo, v, q, kt, i, p - 1);
        assert(keeps_order(repo, q, k0, kt, j - 1, j));
        let t = trips[k0];
        let arrival = arrival_at(repo, t as int, j);
        let a = arrival_at(repo, t_kt, j).0 as int;
        let us2 = if k0 >= 0 && improves(arrival, v.tau[stop as int]) && arrival.0 < v.target.0.0 {
            us0.push(
                Update {
                    stop_idx: stop,
                    arrival_time: arrival,
                    parent: crate::raptor::state::Parent {
                        from: crate::raptor::location::Point::Stop(route.stops@[b0]),
                        to: crate::raptor::location::Point::Stop(stop),
                        parent_type: crate::raptor::state::ParentType::Transit(t),
                        departure_time: departure_at(repo, t as int, b0),
                        arrival_time: arrival,
                    },
                },
            )
        } else {
            us0
        };
        assert(r.0 == us2);
        assert forall|jj: int| i < jj < p implies #[trigger] covered(
            r.0,
            v.tau,
            v.target.0,
            route.stops@[jj],
            arrival_at(repo, route.trips@[kt] as int, jj).0 as int,
        ) by {
            if jj < j {
                let aj = arrival_at(repo, route.trips@[kt] as int, jj).0 as int;
                assert(covered(us0, v.tau, v.target.0, route.stops@[jj], aj));
                if exists|m: int| 0 <= m < us0.len() && (#[trigger] us0[m]).stop_idx == route.stops@[jj] && us0[m].arrival_time.0 <= aj {
                    let m = choose|m: int| 0 <= m < us0.len() && (#[trigger] us0[m]).stop_idx == route.stops@[jj] && us0[m].arrival_time.0 <= aj;
                    assert(us2[m] == us0[m]);
                }
            } else {
                if k0 >= 0 && improves(arrival, v.tau[stop as int]) && arrival.0 < v.target.0.0 {
                    assert(us2[us0.len() as int].stop_idx == stop);
                }
            }
        }
        if prev_label.0 <= current && e >= 0 {
            assert(exists|k: int| is_earliest(repo, trips, j, prev_label, k));
            assert(is_earliest(repo, trips, j, prev_label, e));
            assert(catchable(repo, trips, j, prev_label, k0));
            assert(r.1 == e);
        } else {
            assert(r.1 == k0);
        }
    }
}

/// What the scans of routes `qs` propose matches all that the scan of one
/// of them matches.
proof fn lemma_proposals_cover(
    repo: Repository,
    v: SearchView,
    qs: Seq<usize>,
    q: int,
    s: u32,
    a: int,
)
    requires
        qs.contains(q as usize),
        0 <= q <= usize::MAX,
        covered(scan_forward(repo, v, q, repo.raptor_routes@[q].stops@.len() as int).0, v.tau, v.target.0, s, a),
    ensures
        covered(route_proposals(repo, v, qs), v.tau, v.target.0, s, a),
    decreases qs.len(),
{
    let init = qs.drop_last();
    let last = qs.last() as int;
    let before = route_proposals(repo, v, init);
    let sc = scan_forward(repo, v, last, repo.raptor_routes@[last].stops@.len() as int).0;
    let all = route_proposals(repo, v, qs);
    assert(all == before + sc);
    if last == q {
        let us = sc;
        if exists|m: int| 0 <= m < us.len() && (#[trigger] us[m]).stop_idx == s && us[m].arrival_time.0 <= a {
            let m = choose|m: int| 0 <= m < us.len() && (#[trigger] us[m]).stop_idx == s && us[m].arrival_time.0 <= a;
            assert(all[before.len() + m] == us[m]);
        }
    } else {
        let k = choose|k: int| 0 <= k < qs.len() && qs[k] == q as usize;
        assert(qs[qs.len() - 1] == qs.last());
        assert(k < init.len());
        assert(init[k] == q as usize);
        lemma_proposals_cover(repo, v, init, q, s, a);
        if exists|m: int| 0 <= m < before.len() && (#[trigger] before[m]).stop_idx == s && before[m].arrival_time.0 <= a {
            let m = choose|m: int| 0 <= m < before.len() && (#[trigger] before[m]).stop_idx == s && before[m].arrival_time.0 <= a;
            assert(all[m] == before[m]);
        }
    }
}

/// A best time `a` no later than `b`, where `b` is one.
pub open spec fn no_later(a: Option<Time>, b: Option<Time>) -> bool {
    match b {
        Some(x) => a matches Some(y) && y.0 <= x.0,
        None => true,
    }
}

/// Applying updates never worsens a best time forward.
proof fn lemma_apply_mono(st: LabelState, round: int, n: int, us: Seq<Update>)
    requires
        forall|k: int| 0 <= k < us.len() ==> #[trigger] us[k].stop_idx < st.0.len(),
    ensures
        apply_updates(st, round, n, us, false).0.len() == st.0.len(),
        st.3.len() == st.0.len() ==> apply_updates(st, round, n, us, false).3.len() == st.0.len(),
        forall|s: int| 0 <= s < st.0.len() ==> no_later(#[trigger] apply_updates(st, round, n, us, false).0[s], st.0[s]),
    decreases us.len(),
{
    if us.len() > 0 {
        let init = us.drop_last();
        assert forall|k: int| 0 <= k < init.len() implies #[trigger] init[k].stop_idx < st.0.len() by {
            assert(init[k] == us[k]);
        }
        lemma_apply_mono(st, round, n, init);
        let pre = apply_updates(st, round, n, init, false);
        let u = us.last();
        let res = apply_update(pre, round, n, u, false);
        assert(apply_updates(st, round, n, us, false) == res);
        assert forall|s: int| 0 <= s < st.0.len() implies no_later(#[trigger] res.0[s], st.0[s]) by {
            assert(no_later(pre.0[s], st.0[s]));
        }
    }
}

/// After applying updates forward, the stop of each of them has a best time
/// no later than the update's, unless that is the last second.
proof fn lemma_apply_has(st: LabelState, round: int, n: int, us: Seq<Update>, m: int)
    requires
        0 <= m < us.len(),
        forall|k: int| 0 <= k < us.len() ==> #[trigger] us[k].stop_idx < st.0.len(),
        us[m].arrival_time.0 < u32::MAX,
    ensures
        apply_updates(st, round, n, us, false).0[us[m].stop_idx as int] matches Some(y) && y.0 <= us[m].arrival_time.0,
    decreases us.len(),
{
    let init = us.drop_last();
    let pre = apply_updates(st, round, n, init, false);
    assert forall|k: int| 0 <= k < init.len() implies #[trigger] init[k].stop_idx < st.0.len() by {
        assert(init[k] == us[k]);
    }
    lemma_apply_mono(st, round, n, init);
    let u = us.last();
    let res = apply_update(pre, round, n, u, false);
    assert(apply_updates(st, round, n, us, false) == res);
    let s = us[m].stop_idx as int;
    if m == us.len() - 1 {
        assert(u == us[m]);
    } else {
        assert(init[m] == us[m]);
        lemma_apply_has(st, round, n, init, m);
        assert(pre.0[s] matches Some(y) && y.0 <= us[m].arrival_time.0);
    }
}

/// Every update in `us` is for a stop below `n`.
pub open spec fn stops_below(us: Seq<Update>, n: int) -> bool {
    forall|k: int| 0 <= k < us.len() ==> #[trigger] us[k].stop_idx < n
}

proof fn lemma_transfer_proposals_below(
    repo: Repository,
    tau: Seq<Option<Time>>,
    labels: Seq<Option<Time>>,
    target_tau: Time,
    s: int,
    xs: Seq<u32>,
    reverse: bool,
)
    requires
        repo.wf(),
        forall|k: int| 0 <= k < xs.len() ==> #[trigger] xs[k] < repo.transfers@.len(),
    ensures
        stops_below(transfer_proposals(repo, tau, labels, target_tau, s, xs, reverse), repo.stops@.len() as int),
    decreases xs.len(),
{
    if xs.len() > 0 {
        let init = xs.drop_last();
        assert forall|k: int| 0 <= k < init.len() implies #[trigger] init[k] < repo.transfers@.len() by {
            assert(init[k] == xs[k]);
        }
        lemma_transfer_proposals_below(repo, tau, labels, target_tau, s, init, reverse);
        let tr = repo.transfers@[xs.last() as int];
        assert(xs[xs.len() - 1] == xs.last());
        let pre = transfer_proposals(repo, tau, labels, target_tau, s, init, reverse);
        let all = transfer_proposals(repo, tau, labels, target_tau, s, xs, reverse);
        assert forall|k: int| 0 <= k < all.len() implies #[trigger] all[k].stop_idx < repo.stops@.len() by {
            if k < pre.len() {
                assert(all[k] == pre[k]);
            }
        }
    }
}

proof fn lemma_walk_proposals_below(
    repo: Repository,
    tau: Seq<Option<Time>>,
    labels: Seq<Option<Time>>,
    target_tau: Time,
    s: int,
    ws: Seq<Walk>,
    reverse: bool,
)
    requires
        forall|k: int| 0 <= k < ws.len() ==> #[trigger] ws[k].to_stop_idx < repo.stops@.len(),
    ensures
        stops_below(walk_proposals(tau, labels, target_tau, s, ws, reverse), repo.stops@.len() as int),
    decreases ws.len(),
{
    if ws.len() > 0 {
        let init = ws.drop_last();
        assert forall|k: int| 0 <= k < init.len() implies #[trigger] init[k].to_stop_idx < repo.stops@.len() by {
            assert(init[k] == ws[k]);
        }
        lemma_walk_proposals_below(repo, tau, labels, target_tau, s, init, reverse);
        assert(ws[ws.len() - 1] == ws.last());
        let pre = walk_proposals(tau, labels, target_tau, s, init, reverse);
        let all = walk_proposals(tau, labels, target_tau, s, ws, reverse);
        assert forall|k: int| 0 <= k < all.len() implies #[trigger] all[k].stop_idx < repo.stops@.len() by {
            if k < pre.len() {
                assert(all[k] == pre[k]);
            }
        }
    }
}

/// Footpaths lead to stops of the repository.
proof fn lemma_footpath_proposals_below(
    repo: Repository,
    tau: Seq<Option<Time>>,
    labels: Seq<Option<Time>>,
    target_tau: Time,
    stops: Seq<usize>,
    reverse: bool,
)
    requires
        repo.wf(),
        forall|k: int| 0 <= k < stops.len() ==> #[trigger] stops[k] < repo.stops@.len(),
    ensures
        stops_below(footpath_proposals(repo, tau, labels, target_tau, stops, reverse), repo.stops@.len() as int),
    decreases stops.len(),
{
    if stops.len() > 0 {
        let init = stops.drop_last();
        assert forall|k: int| 0 <= k < init.len() implies #[trigger] init[k] < repo.stops@.len() by {
            assert(init[k] == stops[k]);
        }
        lemma_footpath_proposals_below(repo, tau, labels, target_tau, init, reverse);
        let s = stops.last() as int;
        assert(stops[stops.len() - 1] == stops.last());
        let xs = repo.stop_to_transfers@[s]@;
        assert forall|k: int| 0 <= k < xs.len() implies #[trigger] xs[k] < repo.transfers@.len() by {}
        lemma_transfer_proposals_below(repo, tau, labels, target_tau, s, xs, reverse);
        let ws = repo.stop_to_walk_stop@[s]@;
        assert forall|k: int| 0 <= k < ws.len() implies #[trigger] ws[k].to_stop_idx < repo.stops@.len() by {}
        lemma_walk_proposals_below(repo, tau, labels, target_tau, s, ws, reverse);
        let a = footpath_proposals(repo, tau, labels, target_tau, init, reverse);
        let b = transfer_proposals(repo, tau, labels, target_tau, s, xs, reverse);
        let c = walk_proposals(tau, labels, target_tau, s, ws, reverse);
        let all = footpath_proposals(repo, tau, labels, target_tau, stops, reverse);
        assert(all == a + b + c);
        assert forall|k: int| 0 <= k < all.len() implies #[trigger] all[k].stop_idx < repo.stops@.len() by {
            if k < a.len() {
                assert(all[k] == a[k]);
            } else if k < a.len() + b.len() {
                assert(all[k] == b[k - a.len()]);
            } else {
                assert(all[k] == c[k - a.len() - b.len()]);
            }
        }
    }
}

/// Scanning routes forward proposes stops of the repository.
proof fn lemma_route_proposals_below(repo: Repository, v: SearchView, qs: Seq<usize>)
    requires
        repo.wf(),
        forall|k: int| 0 <= k < qs.len() ==> #[trigger] qs[k] < repo.raptor_routes@.len(),
    ensures
        stops_below(route_proposals(repo, v, qs), repo.stops@.len() as int),
    decreases qs.len(),
{
    if qs.len() > 0 {
        let init = qs.drop_last();
        assert forall|k: int| 0 <= k < init.len() implies #[trigger] init[k] < repo.raptor_routes@.len() by {
            assert(init[k] == qs[k]);
        }
        lemma_route_proposals_below(repo, v, init);
        let q = qs.last() as int;
        assert(qs[qs.len() - 1] == qs.last());
        assert(repo.raptor_route_wf(q));
        lemma_scan_below(repo, v, q, repo.raptor_routes@[q].stops@.len() as int);
        let a = route_proposals(repo, v, init);
        let b = scan_forward(repo, v, q, repo.raptor_routes@[q].stops@.len() as int).0;
        let all = route_proposals(repo, v, qs);
        assert(all == a + b);
        assert forall|k: int| 0 <= k < all.len() implies #[trigger] all[k].stop_idx < repo.stops@.len() by {
            if k < a.len() {
                assert(all[k] == a[k]);
            } else {
                assert(all[k] == b[k - a.len()]);
            }
        }
    }
}

/// Scanning one route forward proposes its stops.
proof fn lemma_scan_below(repo: Repository, v: SearchView, q: int, p: int)
    requires
        repo.wf(),
        0 <= q < repo.raptor_routes@.len(),
        p <= repo.raptor_routes@[q].stops@.len(),
    ensures
        stops_below(scan_forward(repo, v, q, p).0, repo.stops@.len() as int),
    decreases p,
{
    if !(p <= v.active[q] || p <= 0) {
        lemma_scan_below(repo, v, q, p - 1);
        assert(repo.raptor_route_wf(q));
        let us0 = scan_forward(repo, v, q, p - 1).0;
        let all = scan_forward(repo, v, q, p).0;
        assert forall|k: int| 0 <= k < all.len() implies #[trigger] all[k].stop_idx < repo.stops@.len() by {
            if k < us0.len() {
                assert(all[k] == us0[k]);
            }
        }
    }
}

/// The positions of the set flags lie below the length, and each set flag
/// is among them.
proof fn lemma_set_positions(bits: Seq<bool>)
    ensures
        forall|k: int| 0 <= k < set_positions(bits).len() ==> #[trigger] set_positions(bits)[k] < bits.len(),
        forall|i: int| 0 <= i < bits.len() && #[trigger] bits[i] ==> set_positions(bits).contains(i as usize),
        bits.len() <= u32::MAX ==> forall|k: int|
            0 <= k < set_positions(bits).len() ==> bits[#[trigger] set_positions(bits)[k] as int],
    decreases bits.len(),
{
    if bits.len() > 0 {
        let init = bits.drop_last();
        lemma_set_positions(init);
        let pre = set_positions(init);
        let all = set_positions(bits);
        assert forall|k: int| 0 <= k < all.len() implies #[trigger] all[k] < bits.len() && (bits.len() <= u32::MAX ==> bits[all[k] as int]) by {
            if k < pre.len() {
                assert(all[k] == pre[k]);
                assert(pre[k] < init.len());
                assert(init[pre[k] as int] == bits[pre[k] as int]);
            } else {
                assert(bits.last());
                assert(all == pre.push((bits.len() - 1) as usize));
                assert(k == pre.len());
                assert(bits[bits.len() - 1] == bits.last());
            }
        }
        assert forall|i: int| 0 <= i < bits.len() && #[trigger] bits[i] implies all.contains(i as usize) by {
            if i < init.len() {
                assert(init[i] == bits[i]);
                let k = choose|k: int| 0 <= k < pre.len() && pre[k] == i as usize;
                assert(all[k] == pre[k]);
            } else {
                assert(all[all.len() - 1] == i as usize);
            }
        }
    }
}

/// The routes serving a stop include each listed route that calls at it,
/// with the first position of the stop on it.
proof fn lemma_serving_has(repo: Repository, stop: u32, qs: Seq<u32>, q: u32)
    requires
        qs.contains(q),
        repo.raptor_routes@[q as int].stops@.contains(stop),
    ensures
        exists|m: int|
            0 <= m < serving_routes(repo, stop, qs).len() && (#[trigger] serving_routes(repo, stop, qs)[m]).route_idx
                == repo.raptor_routes@[q as int].index && serving_routes(repo, stop, qs)[m].idx_in_route
                == first_index_of(repo.raptor_routes@[q as int].stops@, stop) as u32,
    decreases qs.len(),
{
    let init = qs.drop_last();
    let pre = serving_routes(repo, stop, init);
    let all = serving_routes(repo, stop, qs);
    lemma_first_index_exists(repo.raptor_routes@[q as int].stops@, stop);
    if qs.last() == q {
        assert(all[all.len() - 1].route_idx == repo.raptor_routes@[q as int].index);
    } else {
        let k = choose|k: int| 0 <= k < qs.len() && qs[k] == q;
        assert(qs[qs.len() - 1] == qs.last());
        assert(init[k] == q);
        lemma_serving_has(repo, stop, init, q);
        let m = choose|m: int|
            0 <= m < pre.len() && (#[trigger] pre[m]).route_idx == repo.raptor_routes@[q as int].index
                && pre[m].idx_in_route == first_index_of(repo.raptor_routes@[q as int].stops@, stop) as u32;
        assert(all[m] == pre[m]);
    }
}

/// The routes serving the stops `ss` include those serving each of them.
proof fn lemma_serving_all_has(repo: Repository, ss: Seq<usize>, x: usize, sr: ServingRoute)
    requires
        ss.contains(x),
        serving_routes(repo, x as u32, repo.stop_to_raptors@[x as u32 as int]@).contains(sr),
    ensures
        serving_all(repo, ss).contains(sr),
    decreases ss.len(),
{
    let init = ss.drop_last();
    let pre = serving_all(repo, init);
    let all = serving_all(repo, ss);
    let last = ss.last();
    let here = serving_routes(repo, last as u32, repo.stop_to_raptors@[last as u32 as int]@);
    assert(all == pre + here);
    if last == x {
        let m = choose|m: int| 0 <= m < here.len() && here[m] == sr;
        assert(all[pre.len() + m] == sr);
    } else {
        let k = choose|k: int| 0 <= k < ss.len() && ss[k] == x;
        assert(ss[ss.len() - 1] == ss.last());
        assert(init[k] == x);
        lemma_serving_all_has(repo, init, x, sr);
        let m = choose|m: int| 0 <= m < pre.len() && pre[m] == sr;
        assert(all[m] == sr);
    }
}

/// Scanning forward starts a route no later than any position listed for it.
proof fn lemma_best_position_below(pairs: Seq<ServingRoute>, q: int, m: int)
    requires
        0 <= m < pairs.len(),
        pairs[m].route_idx == q,
    ensures
        best_position(pairs, q, true) <= pairs[m].idx_in_route,
    decreases pairs.len(),
{
    if m < pairs.len() - 1 {
        assert(pairs.drop_last()[m] == pairs[m]);
        lemma_best_position_below(pairs.drop_last(), q, m);
    }
}

/// A round forward never worsens a best time, nor the target's.
proof fn lemma_round_mono(repo: Repository, v: SearchView, targets: Seq<u32>, round: int)
    requires
        repo.wf(),
        v.tau.len() == repo.stops@.len(),
    ensures
        ({
            let w = round_step(repo, v, targets, round, true);
            &&& w.tau.len() == repo.stops@.len()
            &&& forall|s: int| 0 <= s < repo.stops@.len() ==> no_later(#[trigger] w.tau[s], v.tau[s])
            &&& w.target.0.0 <= v.target.0.0
        }),
{
    let n = repo.stops@.len() as int;
    let mid = round_start(repo, v, true);
    let qs = set_positions(mid.mask);
    lemma_set_positions(mid.mask);
    let props = route_proposals(repo, mid, qs);
    lemma_route_proposals_below(repo, mid, qs);
    let st0: LabelState = (mid.tau, mid.curr, mid.parents, mid.marks);
    lemma_apply_mono(st0, round, n, props);
    let rides = apply_updates(st0, round, n, props, false);
    lemma_set_positions(rides.3);
    let fps = footpath_proposals(repo, rides.0, rides.1, v.target.0, set_positions(rides.3), false);
    lemma_footpath_proposals_below(repo, rides.0, rides.1, v.target.0, set_positions(rides.3), false);
    lemma_apply_mono(rides, round, n, fps);
    let fin = apply_updates(rides, round, n, fps, false);
    lemma_scan_targets(v.target, fin.0, targets, round as usize, true);
    assert forall|s: int| 0 <= s < n implies no_later(#[trigger] fin.0[s], v.tau[s]) by {
        assert(no_later(rides.0[s], v.tau[s]));
        assert(no_later(fin.0[s], rides.0[s]));
    }
}

/// The rest of a search forward never worsens a best time, nor the
/// target's.
proof fn lemma_search_mono(repo: Repository, v: SearchView, targets: Seq<u32>, round: int)
    requires
        repo.wf(),
        v.tau.len() == repo.stops@.len(),
    ensures
        ({
            let w = search(repo, v, targets, round, true);
            &&& forall|s: int| 0 <= s < repo.stops@.len() ==> no_later(#[trigger] w.tau[s], v.tau[s])
            &&& w.target.0.0 <= v.target.0.0
        }),
    decreases MAX_ROUNDS - round,
{
    if !(round >= MAX_ROUNDS || round < 0 || none_marked(v.marks)) {
        let w1 = round_step(repo, v, targets, round, true);
        lemma_round_mono(repo, v, targets, round);
        lemma_search_mono(repo, w1, targets, round + 1);
        let w = search(repo, v, targets, round, true);
        assert forall|s: int| 0 <= s < repo.stops@.len() implies no_later(#[trigger] w.tau[s], v.tau[s]) by {
            assert(no_later(w.tau[s], w1.tau[s]));
            assert(no_later(w1.tau[s], v.tau[s]));
        }
    }
}

/// A round forward from a state where stop `i` of RAPTOR route `q` is
/// marked and was reached no later than trip `kt` leaves it ends with a
/// target time no later than `kt` reaches position `j`, when the stop there
/// is a target.
proof fn lemma_round_rides(
    repo: Repository,
    v: SearchView,
    targets: Seq<u32>,
    round: int,
    q: int,
    kt: int,
    i: int,
    j: int,
)
    requires
        repo.wf(),
        no_overtaking(repo),
        v.tau.len() == repo.stops@.len(),
        v.marks.len() == repo.stops@.len(),
        0 <= q < repo.raptor_routes@.len(),
        0 <= kt < repo.raptor_routes@[q].trips@.len(),
        0 <= i < j < repo.raptor_routes@[q].stops@.len(),
        v.marks[repo.raptor_routes@[q].stops@[i] as int],
        v.curr[repo.raptor_routes@[q].stops@[i] as int] matches Some(l) && l.0 <= departure_at(
            repo,
            repo.raptor_routes@[q].trips@[kt] as int,
            i,
        ).0,
        repo.stop_to_raptors@[repo.raptor_routes@[q].stops@[i] as int]@.contains(q as u32),
    ensures
        covers(
            round_step(repo, v, targets, round, true),
            repo.raptor_routes@[q].stops@[j],
            arrival_at(repo, repo.raptor_routes@[q].trips@[kt] as int, j).0 as int,
        ),
{
    let n = repo.stops@.len() as int;
    let route = repo.raptor_routes@[q];
    let si = route.stops@[i];
    let sj = route.stops@[j];
    let a = arrival_at(repo, route.trips@[kt] as int, j).0 as int;
    if a < u32::MAX {
        assert(repo.raptor_route_wf(q));
        let mid = round_start(repo, v, true);
        lemma_set_positions(v.marks);
        assert(route.stops@.contains(si));
        lemma_serving_has(repo, si, repo.stop_to_raptors@[si as int]@, q as u32);
        let here = serving_routes(repo, si, repo.stop_to_raptors@[si as int]@);
        let m = choose|m: int|
            0 <= m < here.len() && (#[trigger] here[m]).route_idx == route.index && here[m].idx_in_route
                == first_index_of(route.stops@, si) as u32;
        let sr = here[m];
        assert(here.contains(sr));
        let marked = set_positions(v.marks);
        assert(marked.contains(si as usize));
        lemma_serving_all_has(repo, marked, si as usize, sr);
        let pairs = serving_all(repo, marked);
        let m2 = choose|m2: int| 0 <= m2 < pairs.len() && pairs[m2] == sr;
        lemma_best_position_below(pairs, q, m2);
        lemma_first_index_exists(route.stops@, si);
        let fi = first_index_of(route.stops@, si);
        if fi > i {
            assert(route.stops@[i] != si);
        }
        assert(mid.active[q] <= i);
        let qs = set_positions(mid.mask);
        lemma_set_positions(mid.mask);
        assert(mid.mask[q]);
        assert(qs.contains(q as usize));
        lemma_scan_ride(repo, mid, q, kt, i, route.stops@.len() as int);
        let sc = scan_forward(repo, mid, q, route.stops@.len() as int);
        assert(covered(sc.0, mid.tau, mid.target.0, sj, a));
        lemma_proposals_cover(repo, mid, qs, q, sj, a);
        let props = route_proposals(repo, mid, qs);
        lemma_route_proposals_below(repo, mid, qs);
        let st0: LabelState = (mid.tau, mid.curr, mid.parents, mid.marks);
        lemma_apply_mono(st0, round, n, props);
        let rides = apply_updates(st0, round, n, props, false);
        lemma_set_positions(rides.3);
        let fps = footpath_proposals(repo, rides.0, rides.1, v.target.0, set_positions(rides.3), false);
        lemma_footpath_proposals_below(repo, rides.0, rides.1, v.target.0, set_positions(rides.3), false);
        lemma_apply_mono(rides, round, n, fps);
        let fin = apply_updates(rides, round, n, fps, false);
        if v.target.0.0 > a {
            if exists|k: int| 0 <= k < props.len() && (#[trigger] props[k]).stop_idx == sj && props[k].arrival_time.0 <= a {
                let k = choose|k: int| 0 <= k < props.len() && (#[trigger] props[k]).stop_idx == sj && props[k].arrival_time.0 <= a;
                lemma_apply_has(st0, round, n, props, k);
            }
            assert(rides.0[sj as int] matches Some(y) && y.0 <= a);
            assert(no_later(fin.0[sj as int], rides.0[sj as int]));
        } else {
            lemma_scan_targets(v.target, fin.0, targets, round as usize, true);
        }
    } else {
        lemma_round_mono(repo, v, targets, round);
    }
}

/// Stop `s` has a best time no later than `a`, or the target has.
pub open spec fn covers(w: SearchView, s: u32, a: int) -> bool {
    (w.tau[s as int] matches Some(x) && x.0 <= a) || w.target.0.0 <= a
}

/// After a round, the target's time is no later than any target stop's.
proof fn lemma_round_target_below(repo: Repository, v: SearchView, targets: Seq<u32>, round: int)
    ensures
        target_below(round_step(repo, v, targets, round, true), targets),
{
    let w = round_step(repo, v, targets, round, true);
    lemma_scan_targets(v.target, w.tau, targets, round as usize, true);
}

/// The target's time is no later than the best time of any target stop.
pub open spec fn target_below(w: SearchView, targets: Seq<u32>) -> bool {
    forall|k: int| 0 <= k < targets.len() ==> (#[trigger] w.tau[targets[k] as int] matches Some(x) ==> w.target.0.0 <= x.0)
}

/// Best time `a` is strictly earlier than `b` (any time beats none).
pub open spec fn earlier(a: Option<Time>, b: Option<Time>) -> bool {
    match b {
        Some(x) => a matches Some(y) && y.0 < x.0,
        None => a is Some,
    }
}

/// Applying updates forward either leaves a stop's best time, label and
/// mark alone, or makes its best time strictly earlier, its label equal to
/// it and marks it.
proof fn lemma_apply_changed(st: LabelState, round: int, n: int, us: Seq<Update>)
    requires
        stops_below(us, st.0.len() as int),
        st.1.len() == st.0.len(),
        st.3.len() == st.0.len(),
    ensures
        ({
            let res = apply_updates(st, round, n, us, false);
            &&& res.1.len() == st.0.len()
            &&& res.3.len() == st.0.len()
            &&& forall|s: int|
                0 <= s < st.0.len() ==> {
                    ||| (#[trigger] res.0[s] == st.0[s] && res.1[s] == st.1[s] && res.3[s] == st.3[s])
                    ||| (res.1[s] == res.0[s] && res.3[s] && earlier(res.0[s], st.0[s]))
                }
        }),
    decreases us.len(),
{
    if us.len() > 0 {
        let init = us.drop_last();
        assert forall|k: int| 0 <= k < init.len() implies #[trigger] init[k].stop_idx < st.0.len() by {
            assert(init[k] == us[k]);
        }
        lemma_apply_changed(st, round, n, init);
        lemma_apply_mono(st, round, n, init);
        let pre = apply_updates(st, round, n, init, false);
        let u = us.last();
        assert(us[us.len() - 1] == u);
        let res = apply_update(pre, round, n, u, false);
        assert(apply_updates(st, round, n, us, false) == res);
        assert forall|s: int| 0 <= s < st.0.len() implies {
            ||| (#[trigger] res.0[s] == st.0[s] && res.1[s] == st.1[s] && res.3[s] == st.3[s])
            ||| (res.1[s] == res.0[s] && res.3[s] && earlier(res.0[s], st.0[s]))
        } by {
            assert(no_later(pre.0[s], st.0[s]));
        }
    }
}

/// A round forward either leaves a stop's best time alone, or makes it
/// strictly earlier, marks the stop and gives it that time as its label.
proof fn lemma_round_changed(repo: Repository, v: SearchView, targets: Seq<u32>, round: int)
    requires
        repo.wf(),
        v.tau.len() == repo.stops@.len(),
    ensures
        ({
            let w = round_step(repo, v, targets, round, true);
            &&& w.curr.len() == repo.stops@.len()
            &&& w.marks.len() == repo.stops@.len()
            &&& forall|s: int|
                0 <= s < repo.stops@.len() ==> (#[trigger] w.tau[s] == v.tau[s]) || (w.curr[s] == w.tau[s] && w.marks[s]
                    && earlier(w.tau[s], v.tau[s]))
        }),
{
    let n = repo.stops@.len() as int;
    let mid = round_start(repo, v, true);
    let qs = set_positions(mid.mask);
    lemma_set_positions(mid.mask);
    let props = route_proposals(repo, mid, qs);
    lemma_route_proposals_below(repo, mid, qs);
    let st0: LabelState = (mid.tau, mid.curr, mid.parents, mid.marks);
    lemma_apply_changed(st0, round, n, props);
    lemma_apply_mono(st0, round, n, props);
    let rides = apply_updates(st0, round, n, props, false);
    lemma_set_positions(rides.3);
    let fps = footpath_proposals(repo, rides.0, rides.1, v.target.0, set_positions(rides.3), false);
    lemma_footpath_proposals_below(repo, rides.0, rides.1, v.target.0, set_positions(rides.3), false);
    lemma_apply_changed(rides, round, n, fps);
    lemma_apply_mono(rides, round, n, fps);
    let fin = apply_updates(rides, round, n, fps, false);
    assert forall|s: int| 0 <= s < n implies (#[trigger] fin.0[s] == v.tau[s]) || (fin.1[s] == fin.0[s] && fin.3[s]
        && earlier(fin.0[s], v.tau[s])) by {
        assert(no_later(rides.0[s], v.tau[s]));
    }
}

/// Trip `kt` of RAPTOR route `q` boarded at position `i` and left at `j`.
pub open spec fn ride_valid(repo: Repository, q: int, kt: int, i: int, j: int) -> bool {
    &&& 0 <= q < repo.raptor_routes@.len()
    &&& 0 <= kt < repo.raptor_routes@[q].trips@.len()
    &&& 0 <= i < j < repo.raptor_routes@[q].stops@.len()
}

/// Trip `kt` of RAPTOR route `q` boarded at position `i` and left at `j`,
/// the route being listed for the stop where the ride starts.
pub open spec fn ride_ok(repo: Repository, q: int, kt: int, i: int, j: int) -> bool {
    &&& ride_valid(repo, q, kt, i, j)
    &&& repo.stop_to_raptors@[repo.raptor_routes@[q].stops@[i] as int]@.contains(q as u32)
}

/// Every ride leaving stop `b` no earlier than `l` is matched in `w`.
pub open spec fn rides_done(repo: Repository, w: SearchView, b: int, l: int) -> bool {
    forall|q: int, kt: int, i: int, j: int|
        #[trigger] ride_ok(repo, q, kt, i, j) && repo.raptor_routes@[q].stops@[i] == b && departure_at(
            repo,
            repo.raptor_routes@[q].trips@[kt] as int,
            i,
        ).0 >= l ==> covers(
            w,
            repo.raptor_routes@[q].stops@[j],
            arrival_at(repo, repo.raptor_routes@[q].trips@[kt] as int, j).0 as int,
        )
}

/// Every stop with a best time has had all rides from it by then matched,
/// or is marked with that time as its label, for the next round to ride
/// from.
pub open spec fn rides_settled(repo: Repository, w: SearchView) -> bool {
    forall|b: int|
        0 <= b < repo.stops@.len() ==> (#[trigger] w.tau[b] matches Some(l) ==> rides_done(repo, w, b, l.0 as int) || (
        w.marks[b] && w.curr[b] == Some(l)))
}

/// What is matched stays matched when best times and the target's only
/// improve.
proof fn lemma_covers_mono(repo: Repository, w: SearchView, w2: SearchView, s: u32, a: int)
    requires
        covers(w, s, a),
        s < repo.stops@.len(),
        forall|x: int| 0 <= x < repo.stops@.len() ==> no_later(#[trigger] w2.tau[x], w.tau[x]),
        w2.target.0.0 <= w.target.0.0,
    ensures
        covers(w2, s, a),
{
    assert(no_later(w2.tau[s as int], w.tau[s as int]));
}

/// A round forward keeps every stop's rides settled.
proof fn lemma_round_settles(repo: Repository, v: SearchView, targets: Seq<u32>, round: int)
    requires
        repo.wf(),
        no_overtaking(repo),
        v.tau.len() == repo.stops@.len(),
        v.marks.len() == repo.stops@.len(),
        rides_settled(repo, v),
    ensures
        rides_settled(repo, round_step(repo, v, targets, round, true)),
{
    let n = repo.stops@.len() as int;
    let w = round_step(repo, v, targets, round, true);
    lemma_round_changed(repo, v, targets, round);
    lemma_round_mono(repo, v, targets, round);
    assert forall|b: int| 0 <= b < n implies (#[trigger] w.tau[b] matches Some(l) ==> rides_done(repo, w, b, l.0 as int)
        || (w.marks[b] && w.curr[b] == Some(l))) by {
        if let Some(l) = w.tau[b] {
            if w.tau[b] == v.tau[b] {
                assert(v.tau[b] == Some(l));
                assert forall|q: int, kt: int, i: int, j: int|
                    #[trigger] ride_ok(repo, q, kt, i, j) && repo.raptor_routes@[q].stops@[i] == b && departure_at(
                        repo,
                        repo.raptor_routes@[q].trips@[kt] as int,
                        i,
                    ).0 >= l.0 implies covers(
                    w,
                    repo.raptor_routes@[q].stops@[j],
                    arrival_at(repo, repo.raptor_routes@[q].trips@[kt] as int, j).0 as int,
                ) by {
                    assert(repo.raptor_route_wf(q));
                    let sj = repo.raptor_routes@[q].stops@[j];
                    let a = arrival_at(repo, repo.raptor_routes@[q].trips@[kt] as int, j).0 as int;
                    if rides_done(repo, v, b, l.0 as int) {
                        assert(covers(v, sj, a));
                        lemma_covers_mono(repo, v, w, sj, a);
                    } else {
                        lemma_round_rides(repo, v, targets, round, q, kt, i, j);
                    }
                }
            }
        }
    }
}

/// On every RAPTOR route, a trip reaches each position no earlier than it
/// leaves any position before it.
pub open spec fn rides_forward(repo: Repository) -> bool {
    forall|q: int, kt: int, i: int, j: int|
        #[trigger] ride_valid(repo, q, kt, i, j) ==> departure_at(repo, repo.raptor_routes@[q].trips@[kt] as int, i).0
            <= arrival_at(repo, repo.raptor_routes@[q].trips@[kt] as int, j).0
}

/// A ride: a RAPTOR route, the position of a trip among its trips, and the
/// positions where the trip is boarded and left.
pub type Ride = (int, int, int, int);

/// Where a ride is boarded.
pub open spec fn board_at(repo: Repository, r: Ride) -> u32 {
    repo.raptor_routes@[r.0].stops@[r.2]
}

/// Where a ride is left.
pub open spec fn alight_at(repo: Repository, r: Ride) -> u32 {
    repo.raptor_routes@[r.0].stops@[r.3]
}

/// When a ride leaves.
pub open spec fn ride_departure(repo: Repository, r: Ride) -> int {
    departure_at(repo, repo.raptor_routes@[r.0].trips@[r.1] as int, r.2).0 as int
}

/// When a ride arrives.
pub open spec fn ride_arrival(repo: Repository, r: Ride) -> int {
    arrival_at(repo, repo.raptor_routes@[r.0].trips@[r.1] as int, r.3).0 as int
}

/// A step of a journey: a ride, then possibly a footpath from the stop where
/// it is left to a stop, with the seconds the footpath takes.
pub type Step = (Ride, Option<(u32, int)>);

/// Where a step ends: at the end of its footpath, or where its ride is left.
pub open spec fn step_end(repo: Repository, st: Step) -> u32 {
    match st.1 {
        Some(f) => f.0,
        None => alight_at(repo, st.0),
    }
}

/// When a step ends: its ride's arrival, plus its footpath's time.
pub open spec fn step_arrival(repo: Repository, st: Step) -> int {
    match st.1 {
        Some(f) => ride_arrival(repo, st.0) + f.1,
        None => ride_arrival(repo, st.0),
    }
}

/// A step's ride is valid and listed where it starts, and its footpath, if
/// any, is a transfer or walk listed where the ride is left.
pub open spec fn step_ok(repo: Repository, st: Step) -> bool {
    &&& ride_ok(repo, st.0.0, st.0.1, st.0.2, st.0.3)
    &&& st.1 matches Some(f) ==> footpath_ok(repo, alight_at(repo, st.0) as int, f.0, f.1)
}

/// A journey of one or more steps that leaves a stop of `origin` no earlier
/// than `time`; each further ride is boarded where the previous step ended,
/// no earlier than it ended.
pub open spec fn journey(repo: Repository, origin: Seq<u32>, time: Time, steps: Seq<Step>) -> bool {
    &&& steps.len() >= 1
    &&& forall|m: int| 0 <= m < steps.len() ==> step_ok(repo, #[trigger] steps[m])
    &&& origin.contains(board_at(repo, steps[0].0))
    &&& ride_departure(repo, steps[0].0) >= time.0
    &&& forall|m: int|
        0 <= m < steps.len() - 1 ==> board_at(repo, (#[trigger] steps[m + 1]).0) == step_end(repo, steps[m])
            && ride_departure(repo, steps[m + 1].0) >= step_arrival(repo, steps[m])
}

/// The state of a search forward from `v` after `m` rounds (fewer when no
/// stop is marked any more).
pub open spec fn state_after(repo: Repository, v: SearchView, targets: Seq<u32>, m: int, forward: bool) -> SearchView
    decreases m,
{
    if m <= 0 {
        v
    } else {
        let w = state_after(repo, v, targets, m - 1, forward);
        if none_marked(w.marks) || m - 1 >= MAX_ROUNDS {
            w
        } else {
            round_step(repo, w, targets, m - 1, forward)
        }
    }
}

/// A search forward ends where its rounds lead.
proof fn lemma_search_is_states(repo: Repository, v: SearchView, targets: Seq<u32>, m: int, forward: bool)
    requires
        0 <= m <= MAX_ROUNDS,
    ensures
        search(repo, v, targets, 0, forward) == search(
            repo,
            state_after(repo, v, targets, m, forward),
            targets,
            m,
            forward,
        ),
    decreases m,
{
    if m > 0 {
        lemma_search_is_states(repo, v, targets, m - 1, forward);
    }
}

/// The end of a journey is matched after as many rounds as it has rides.
pub open spec fn journey_matched(repo: Repository, w: SearchView, steps: Seq<Step>) -> bool {
    covers(w, step_end(repo, steps.last()), step_arrival(repo, steps.last()))
}

/// A step whose ride is matched is matched, footpath included, where
/// footpaths are settled and compose.
proof fn lemma_step_matched(repo: Repository, w: SearchView, st: Step)
    requires
        repo.wf(),
        footpaths_closed(repo),
        w.tau.len() == repo.stops@.len(),
        footpaths_settled(repo, w),
        step_ok(repo, st),
        covers(w, alight_at(repo, st.0), ride_arrival(repo, st.0)),
    ensures
        covers(w, step_end(repo, st), step_arrival(repo, st)),
        step_end(repo, st) < repo.stops@.len(),
{
    assert(repo.raptor_route_wf(st.0.0));
    if let Some(f) = st.1 {
        lemma_arrive(repo, w, alight_at(repo, st.0), ride_arrival(repo, st.0), f.0, f.1);
        lemma_footpath_dest(repo, alight_at(repo, st.0) as int, f.0, f.1);
    }
}

/// After `m` rounds of a search forward from the stops `origin` at `time`,
/// every stop's rides and footpaths are settled, the target's time is no
/// later than any target stop's, and every journey of at most `m` rides is
/// matched.
proof fn lemma_rounds(repo: Repository, origin: Seq<u32>, targets: Seq<u32>, time: Time, m: int)
    requires
        repo.wf(),
        no_overtaking(repo),
        rides_forward(repo),
        footpaths_closed(repo),
        1 <= m <= MAX_ROUNDS,
        forall|k: int| 0 <= k < targets.len() ==> #[trigger] targets[k] < repo.stops@.len(),
        !none_marked(seed_view(repo, Seq::new(repo.stops@.len(), |s: int| None::<Time>), origin, time, true).marks),
    ensures
        ({
            let v0 = seed_view(repo, Seq::new(repo.stops@.len(), |s: int| None::<Time>), origin, time, true);
            let w = state_after(repo, v0, targets, m, true);
            &&& w.tau.len() == repo.stops@.len()
            &&& w.marks.len() == repo.stops@.len()
            &&& rides_settled(repo, w)
            &&& footpaths_settled(repo, w)
            &&& target_below(w, targets)
            &&& target_witnessed(w, targets)
            &&& forall|steps: Seq<Step>|
                #[trigger] journey(repo, origin, time, steps) && steps.len() <= m ==> journey_matched(repo, w, steps)
        }),
    decreases m,
{
    let n = repo.stops@.len() as int;
    let v0 = seed_view(repo, Seq::new(repo.stops@.len(), |s: int| None::<Time>), origin, time, true);
    let w = state_after(repo, v0, targets, m, true);
    if m == 1 {
        assert(state_after(repo, v0, targets, 0, true) == v0);
        assert(w == round_step(repo, v0, targets, 0, true));
        lemma_round_mono(repo, v0, targets, 0);
        lemma_round_changed(repo, v0, targets, 0);
        assert(rides_settled(repo, v0));
        assert(footpaths_settled(repo, v0));
        lemma_round_settles(repo, v0, targets, 0);
        lemma_round_footpaths(repo, v0, targets, 0);
        lemma_round_target_below(repo, v0, targets, 0);
        lemma_round_witness(repo, v0, targets, 0);
        assert forall|steps: Seq<Step>| #[trigger] journey(repo, origin, time, steps) && steps.len() <= m implies journey_matched(
            repo,
            w,
            steps,
        ) by {
            let r = steps[0].0;
            assert(step_ok(repo, steps[0]));
            assert(repo.raptor_route_wf(r.0));
            let b = board_at(repo, r);
            let k = choose|k: int| 0 <= k < origin.len() && origin[k] == b;
            assert(origin[k] as int == b as int);
            assert(listed(origin, b as int));
            assert(steps.last() == steps[0]);
            lemma_round_rides(repo, v0, targets, 0, r.0, r.1, r.2, r.3);
            lemma_step_matched(repo, w, steps[0]);
        }
    } else {
        lemma_rounds(repo, origin, targets, time, m - 1);
        let u = state_after(repo, v0, targets, m - 1, true);
        let stepped = !(none_marked(u.marks) || m - 1 >= MAX_ROUNDS);
        if stepped {
            assert(w == round_step(repo, u, targets, m - 1, true));
            lemma_round_mono(repo, u, targets, m - 1);
            lemma_round_changed(repo, u, targets, m - 1);
            lemma_round_settles(repo, u, targets, m - 1);
            lemma_round_footpaths(repo, u, targets, m - 1);
            lemma_round_target_below(repo, u, targets, m - 1);
            lemma_round_witness(repo, u, targets, m - 1);
        } else {
            assert(w == u);
        }
        assert forall|x: int| 0 <= x < n implies no_later(#[trigger] w.tau[x], u.tau[x]) by {
            if !stepped {
                assert(w.tau[x] == u.tau[x]);
                if let Some(t) = u.tau[x] {
                }
            }
        }
        assert forall|steps: Seq<Step>| #[trigger] journey(repo, origin, time, steps) && steps.len() <= m implies journey_matched(
            repo,
            w,
            steps,
        ) by {
            let lst = steps.last();
            assert(step_ok(repo, steps[steps.len() - 1]));
            if steps.len() <= m - 1 {
                assert(journey_matched(repo, u, steps));
                assert(repo.raptor_route_wf(lst.0.0));
                if let Some(f) = lst.1 {
                    lemma_footpath_dest(repo, alight_at(repo, lst.0) as int, f.0, f.1);
                }
                lemma_covers_mono(repo, u, w, step_end(repo, lst), step_arrival(repo, lst));
            } else {
                let pre = steps.subrange(0, steps.len() - 1);
                assert forall|mm: int| 0 <= mm < pre.len() implies step_ok(repo, #[trigger] pre[mm]) by {
                    assert(pre[mm] == steps[mm]);
                }
                assert forall|mm: int| 0 <= mm < pre.len() - 1 implies board_at(repo, (#[trigger] pre[mm + 1]).0) == step_end(repo, pre[mm])
                    && ride_departure(repo, pre[mm + 1].0) >= step_arrival(repo, pre[mm]) by {
                    assert(pre[mm + 1] == steps[mm + 1]);
                    assert(pre[mm] == steps[mm]);
                }
                assert(pre[0] == steps[0]);
                assert(journey(repo, origin, time, pre));
                assert(journey_matched(repo, u, pre));
                let prev = pre.last();
                assert(prev == steps[steps.len() - 2]);
                assert(step_ok(repo, prev));
                let last = lst.0;
                let sj = alight_at(repo, last);
                let a = ride_arrival(repo, last);
                assert(repo.raptor_route_wf(last.0));
                let b = step_end(repo, prev);
                let a0 = step_arrival(repo, prev);
                let mm = steps.len() - 2;
                assert(steps[mm + 1] == lst);
                assert(board_at(repo, steps[mm + 1].0) == step_end(repo, steps[mm]));
                assert(board_at(repo, last) == b);
                assert(ride_departure(repo, last) >= a0);
                assert(repo.raptor_route_wf(prev.0.0));
                if let Some(f) = prev.1 {
                    lemma_footpath_dest(repo, alight_at(repo, prev.0) as int, f.0, f.1);
                }
                assert(b < n);
                assert(ride_valid(repo, last.0, last.1, last.2, last.3));
                assert(ride_departure(repo, last) <= a);
                if u.target.0.0 <= a0 {
                    if stepped {
                        assert(w.target.0.0 <= u.target.0.0);
                    }
                } else {
                    let x = u.tau[b as int]->Some_0;
                    assert(u.tau[b as int] == Some(x));
                    if rides_done(repo, u, b as int, x.0 as int) {
                        assert(covers(u, sj, a));
                        lemma_covers_mono(repo, u, w, sj, a);
                    } else {
                        assert(u.marks[b as int] && u.curr[b as int] == Some(x));
                        assert(!none_marked(u.marks));
                        assert(stepped);
                        lemma_round_rides(repo, u, targets, m - 1, last.0, last.1, last.2, last.3);
                    }
                }
                assert(covers(w, sj, a));
                lemma_step_matched(repo, w, lst);
            }
        }
    }
}

/// A target time before the last second is the best time of a target stop
/// or later.
pub open spec fn target_witnessed(w: SearchView, targets: Seq<u32>) -> bool {
    w.target.0.0 < u32::MAX ==> exists|k: int|
        0 <= k < targets.len() && (#[trigger] w.tau[targets[k] as int] matches Some(x) && x.0 <= w.target.0.0)
}

/// A round forward keeps the target's time witnessed by a target stop.
proof fn lemma_round_witness(repo: Repository, v: SearchView, targets: Seq<u32>, round: int)
    requires
        repo.wf(),
        v.tau.len() == repo.stops@.len(),
        forall|k: int| 0 <= k < targets.len() ==> #[trigger] targets[k] < repo.stops@.len(),
        v.target.0.0 == u32::MAX || target_witnessed(v, targets),
    ensures
        target_witnessed(round_step(repo, v, targets, round, true), targets),
{
    let w = round_step(repo, v, targets, round, true);
    lemma_round_mono(repo, v, targets, round);
    lemma_scan_targets(v.target, w.tau, targets, round as usize, true);
    if w.target.0.0 < u32::MAX {
        if w.target == v.target {
            let k = choose|k: int|
                0 <= k < targets.len() && (#[trigger] v.tau[targets[k] as int] matches Some(x) && x.0 <= v.target.0.0);
            assert(no_later(w.tau[targets[k] as int], v.tau[targets[k] as int]));
        } else {
            let s = w.target.1->Some_0;
            let k = choose|k: int| 0 <= k < targets.len() && targets[k] == s;
            assert(w.tau[targets[k] as int] == Some(w.target.0));
        }
    }
}

/// Leaving at `time` from the stops `origin`, a search ends with a target
/// time no later than the end of any journey of at most `MAX_ROUNDS` rides,
/// each followed by at most one transfer or walk, that ends at a stop of
/// `targets`, and a target stop reached before the last second, provided
/// the trips of every RAPTOR route keep their order along it and run
/// forward in time, and footpaths compose.
pub proof fn lemma_earliest_arrival(
    repo: Repository,
    origin: Seq<u32>,
    targets: Seq<u32>,
    time: Time,
    steps: Seq<Step>,
)
    requires
        repo.wf(),
        no_overtaking(repo),
        rides_forward(repo),
        footpaths_closed(repo),
        forall|k: int| 0 <= k < targets.len() ==> #[trigger] targets[k] < repo.stops@.len(),
        journey(repo, origin, time, steps),
        steps.len() <= MAX_ROUNDS,
        targets.contains(step_end(repo, steps.last())),
    ensures
        ({
            let fin = search_outcome(repo, origin, targets, time, true);
            &&& fin.target.0.0 <= step_arrival(repo, steps.last())
            &&& step_arrival(repo, steps.last()) < u32::MAX ==> target_reached(fin.tau, targets, true)
        }),
{
    let n = repo.stops@.len();
    let v0 = seed_view(repo, Seq::new(n, |s: int| None::<Time>), origin, time, true);
    let r0 = steps[0].0;
    assert(step_ok(repo, steps[0]));
    assert(repo.raptor_route_wf(r0.0));
    let b = board_at(repo, r0);
    let k = choose|k: int| 0 <= k < origin.len() && origin[k] == b;
    assert(origin[k] as int == b as int);
    assert(listed(origin, b as int));
    assert(v0.marks[b as int]);
    assert(!none_marked(v0.marks));
    lemma_rounds(repo, origin, targets, time, MAX_ROUNDS as int);
    lemma_search_is_states(repo, v0, targets, MAX_ROUNDS as int, true);
    let w = state_after(repo, v0, targets, MAX_ROUNDS as int, true);
    assert(search(repo, w, targets, MAX_ROUNDS as int, true) == w);
    assert(journey_matched(repo, w, steps));
    let sj = step_end(repo, steps.last());
    let a = step_arrival(repo, steps.last());
    let kk = choose|kk: int| 0 <= kk < targets.len() && targets[kk] == sj;
    assert(w.tau[targets[kk] as int] matches Some(x) ==> w.target.0.0 <= x.0);
    if a < u32::MAX {
        if w.tau[sj as int] matches Some(x) && x.0 <= a {
            assert(reached_label(w.tau[targets[kk] as int], true));
        } else {
            let k2 = choose|k2: int|
                0 <= k2 < targets.len() && (#[trigger] w.tau[targets[k2] as int] matches Some(x) && x.0 <= w.target.0.0);
            assert(reached_label(w.tau[targets[k2] as int], true));
        }
    }
}

/// The trips of every RAPTOR route keep their order backwards too: a trip
/// that reaches a position no later than another also leaves and reaches
/// every earlier position no later.
pub open spec fn no_overtaking_back(repo: Repository) -> bool {
    forall|q: int, k1: int, k2: int, a: int, b: int| #[trigger] keeps_order_back(repo, q, k1, k2, a, b)
}

/// On RAPTOR route `q`, if trip `k1` reaches position `b` no later than
/// trip `k2`, it leaves and reaches position `a` before it no later.
pub open spec fn keeps_order_back(repo: Repository, q: int, k1: int, k2: int, a: int, b: int) -> bool {
    let trips = repo.raptor_routes@[q].trips@;
    0 <= q < repo.raptor_routes@.len() && 0 <= k1 < trips.len() && 0 <= k2 < trips.len() && 0 <= a < b
        < repo.raptor_routes@[q].stops@.len() && arrival_at(repo, trips[k1] as int, b).0 <= arrival_at(
        repo,
        trips[k2] as int,
        b,
    ).0 ==> {
        &&& departure_at(repo, trips[k1] as int, a).0 <= departure_at(repo, trips[k2] as int, a).0
        &&& arrival_at(repo, trips[k1] as int, a).0 <= arrival_at(repo, trips[k2] as int, a).0
    }
}

/// Among the first `m` trips, the position of the first of those that reach
/// position `index` by `time` and arrive latest; -1 if none.
spec fn latest_upto(repo: Repository, trips: Seq<u32>, index: int, time: Time, m: int) -> int
    decreases m,
{
    if m <= 0 {
        -1
    } else {
        let c = latest_upto(repo, trips, index, time, m - 1);
        if reachable_by(repo, trips, index, time, m - 1) && (c < 0 || arrival_at(repo, trips[m - 1] as int, index).0
            > arrival_at(repo, trips[c] as int, index).0) {
            m - 1
        } else {
            c
        }
    }
}

proof fn lemma_latest_upto(repo: Repository, trips: Seq<u32>, index: int, time: Time, m: int)
    requires
        0 <= m <= trips.len(),
    ensures
        ({
            let c = latest_upto(repo, trips, index, time, m);
            &&& -1 <= c < m
            &&& c < 0 <==> forall|j: int| 0 <= j < m ==> !reachable_by(repo, trips, index, time, j)
            &&& c >= 0 ==> reachable_by(repo, trips, index, time, c)
            &&& c >= 0 ==> forall|j: int|
                0 <= j < m && reachable_by(repo, trips, index, time, j) ==> arrival_at(repo, trips[c] as int, index).0
                    >= arrival_at(repo, trips[j] as int, index).0
            &&& c >= 0 ==> forall|j: int|
                0 <= j < c && reachable_by(repo, trips, index, time, j) ==> arrival_at(repo, trips[c] as int, index).0
                    > arrival_at(repo, trips[j] as int, index).0
        }),
    decreases m,
{
    if m > 0 {
        lemma_latest_upto(repo, trips, index, time, m - 1);
    }
}

/// A trip that reaches a position in time makes the latest one exist, and
/// it arrives no earlier than that trip.
proof fn lemma_latest_exists(repo: Repository, trips: Seq<u32>, index: int, time: Time, k: int)
    requires
        0 <= k < trips.len(),
        reachable_by(repo, trips, index, time, k),
    ensures
        0 <= latest_index(repo, trips, index, time) < trips.len(),
        is_latest(repo, trips, index, time, latest_index(repo, trips, index, time)),
        arrival_at(repo, trips[latest_index(repo, trips, index, time)] as int, index).0 >= arrival_at(
            repo,
            trips[k] as int,
            index,
        ).0,
{
    lemma_latest_upto(repo, trips, index, time, trips.len() as int);
    let c = latest_upto(repo, trips, index, time, trips.len() as int);
    assert(is_latest(repo, trips, index, time, c));
}

/// The trip a backward scan rides is one of the route's trips, or none.
proof fn lemma_scan_back_trip_range(repo: Repository, v: SearchView, q: int, next: int)
    requires
        0 <= q < repo.raptor_routes@.len(),
    ensures
        -1 <= scan_backward(repo, v, q, next).1 < repo.raptor_routes@[q].trips@.len(),
    decreases v.active[q] + 1 - next,
{
    let p = v.active[q] as int;
    if !(next >= p + 1 || next < 0) {
        lemma_scan_back_trip_range(repo, v, q, next + 1);
        let route = repo.raptor_routes@[q];
        let stop = route.stops@[next];
        let prev_label = match v.prev[stop as int] {
            Some(l) => l,
            None => Time(0),
        };
        let e = latest_index(repo, route.trips@, next, prev_label);
        if e >= 0 {
            assert(exists|k: int| is_latest(repo, route.trips@, next, prev_label, k));
        }
    }
}

/// A ride leaving at `a` is matched backwards: an update proposes stop `s`
/// at `a` or later, or the stop's best time is already no earlier, or `a`
/// is the first second of the day.
pub open spec fn covered_back(us: Seq<Update>, tau: Seq<Option<Time>>, s: u32, a: int) -> bool {
    ||| exists|m: int| 0 <= m < us.len() && (#[trigger] us[m]).stop_idx == s && us[m].arrival_time.0 >= a
    ||| tau[s as int] matches Some(x) && x.0 >= a
    ||| a <= 0
}

/// Scanning a route backwards from no earlier than position `j`, where the
/// stop must be left in the previous round no earlier than trip `kt`
/// reaches it, rides a trip that reaches every position from `j` back no
/// earlier than `kt`, and matches every departure of `kt` before `j`.
proof fn lemma_scan_back_ride(repo: Repository, v: SearchView, q: int, kt: int, j: int, next: int)
    requires
        no_overtaking_back(repo),
        0 <= q < repo.raptor_routes@.len(),
        0 <= kt < repo.raptor_routes@[q].trips@.len(),
        0 <= next <= j <= v.active[q],
        j < repo.raptor_routes@[q].stops@.len(),
        v.prev[repo.raptor_routes@[q].stops@[j] as int] matches Some(l) && l.0 >= arrival_at(
            repo,
            repo.raptor_routes@[q].trips@[kt] as int,
            j,
        ).0,
    ensures
        ({
            let route = repo.raptor_routes@[q];
            let r = scan_backward(repo, v, q, next);
            &&& 0 <= r.1 < route.trips@.len()
            &&& arrival_at(repo, route.trips@[r.1] as int, next).0 >= arrival_at(repo, route.trips@[kt] as int, next).0
            &&& forall|i: int|
                next <= i < j ==> #[trigger] covered_back(
                    r.0,
                    v.tau,
                    route.stops@[i],
                    departure_at(repo, route.trips@[kt] as int, i).0 as int,
                )
        }),
    decreases j - next,
{
    let route = repo.raptor_routes@[q];
    let trips = route.trips@;
    let t_kt = trips[kt] as int;
    let (us0, k0, b0) = scan_backward(repo, v, q, next + 1);
    lemma_scan_back_trip_range(repo, v, q, next + 1);
    let stop = route.stops@[next];
    let prev_label = match v.prev[stop as int] {
        Some(l) => l,
        None => Time(0),
    };
    let current = if k0 >= 0 {
        arrival_at(repo, trips[k0] as int, next).0
    } else {
        0
    };
    let e = latest_index(repo, trips, next, prev_label);
    let r = scan_backward(repo, v, q, next);
    if next == j {
        if prev_label.0 >= current {
            lemma_latest_exists(repo, trips, j, prev_label, kt);
            assert(r.1 == e);
        } else {
            assert(r.1 == k0);
        }
    } else {
        lemma_scan_back_ride(repo, v, q, kt, j, next + 1);
        assert(keeps_order_back(repo, q, kt, k0, next, next + 1));
        let t = trips[k0];
        let departure = departure_at(repo, t as int, next);
        let a = departure_at(repo, t_kt, next).0 as int;
        let us2 = if k0 >= 0 && improves_reverse(departure, v.tau[stop as int]) {
            us0.push(
                Update {
                    stop_idx: stop,
                    arrival_time: departure,
                    parent: crate::raptor::state::Parent {
                        from: crate::raptor::location::Point::Stop(stop),
                        to: crate::raptor::location::Point::Stop(route.stops@[b0]),
                        parent_type: crate::raptor::state::ParentType::Transit(t),
                        departure_time: departure,
                        arrival_time: arrival_at(repo, t as int, b0),
                    },
                },
            )
        } else {
            us0
        };
        assert(r.0 == us2);
        assert forall|ii: int| next <= ii < j implies #[trigger] covered_back(
            r.0,
            v.tau,
            route.stops@[ii],
            departure_at(repo, route.trips@[kt] as int, ii).0 as int,
        ) by {
            if ii > next {
                let ai = departure_at(repo, route.trips@[kt] as int, ii).0 as int;
                assert(covered_back(us0, v.tau, route.stops@[ii], ai));
                if exists|m: int| 0 <= m < us0.len() && (#[trigger] us0[m]).stop_idx == route.stops@[ii] && us0[m].arrival_time.0 >= ai {
                    let m = choose|m: int| 0 <= m < us0.len() && (#[trigger] us0[m]).stop_idx == route.stops@[ii] && us0[m].arrival_time.0 >= ai;
                    assert(us2[m] == us0[m]);
                }
            } else {
                if k0 >= 0 && improves_reverse(departure, v.tau[stop as int]) {
                    assert(us2[us0.len() as int].stop_idx == stop);
                }
            }
        }
        if prev_label.0 >= current && e >= 0 {
            assert(exists|k: int| is_latest(repo, trips, next, prev_label, k));
            assert(is_latest(repo, trips, next, prev_label, e));
            assert(reachable_by(repo, trips, next, prev_label, k0));
            assert(r.1 == e);
        } else {
            assert(r.1 == k0);
        }
    }
}

/// What the backward scans of routes `qs` propose matches all that the
/// backward scan of one of them matches.
proof fn lemma_reverse_proposals_cover(repo: Repository, v: SearchView, qs: Seq<usize>, q: int, s: u32, a: int)
    requires
        qs.contains(q as usize),
        0 <= q <= usize::MAX,
        covered_back(reverse_scan(repo, v, q), v.tau, s, a),
    ensures
        covered_back(reverse_route_proposals(repo, v, qs), v.tau, s, a),
    decreases qs.len(),
{
    let init = qs.drop_last();
    let last = qs.last() as int;
    let before = reverse_route_proposals(repo, v, init);
    let sc = reverse_scan(repo, v, last);
    let all = reverse_route_proposals(repo, v, qs);
    assert(all == before + sc);
    if last == q {
        if exists|m: int| 0 <= m < sc.len() && (#[trigger] sc[m]).stop_idx == s && sc[m].arrival_time.0 >= a {
            let m = choose|m: int| 0 <= m < sc.len() && (#[trigger] sc[m]).stop_idx == s && sc[m].arrival_time.0 >= a;
            assert(all[before.len() + m] == sc[m]);
        }
    } else {
        let k = choose|k: int| 0 <= k < qs.len() && qs[k] == q as usize;
        assert(qs[qs.len() - 1] == qs.last());
        assert(k < init.len());
        assert(init[k] == q as usize);
        lemma_reverse_proposals_cover(repo, v, init, q, s, a);
        if exists|m: int| 0 <= m < before.len() && (#[trigger] before[m]).stop_idx == s && before[m].arrival_time.0 >= a {
            let m = choose|m: int| 0 <= m < before.len() && (#[trigger] before[m]).stop_idx == s && before[m].arrival_time.0 >= a;
            assert(all[m] == before[m]);
        }
    }
}

/// Scanning one route backwards proposes its stops.
proof fn lemma_scan_back_below(repo: Repository, v: SearchView, q: int, next: int)
    requires
        repo.wf(),
        0 <= q < repo.raptor_routes@.len(),
        v.active[q] < repo.raptor_routes@[q].stops@.len(),
    ensures
        stops_below(scan_backward(repo, v, q, next).0, repo.stops@.len() as int),
    decreases v.active[q] + 1 - next,
{
    let p = v.active[q] as int;
    if !(next >= p + 1 || next < 0) {
        lemma_scan_back_below(repo, v, q, next + 1);
        assert(repo.raptor_route_wf(q));
        let us0 = scan_backward(repo, v, q, next + 1).0;
        let all = scan_backward(repo, v, q, next).0;
        assert forall|k: int| 0 <= k < all.len() implies #[trigger] all[k].stop_idx < repo.stops@.len() by {
            if k < us0.len() {
                assert(all[k] == us0[k]);
            }
        }
    }
}

/// Scanning routes backwards proposes stops of the repository.
proof fn lemma_reverse_proposals_below(repo: Repository, v: SearchView, qs: Seq<usize>)
    requires
        repo.wf(),
        forall|k: int| 0 <= k < qs.len() ==> #[trigger] qs[k] < repo.raptor_routes@.len(),
    ensures
        stops_below(reverse_route_proposals(repo, v, qs), repo.stops@.len() as int),
    decreases qs.len(),
{
    if qs.len() > 0 {
        let init = qs.drop_last();
        assert forall|k: int| 0 <= k < init.len() implies #[trigger] init[k] < repo.raptor_routes@.len() by {
            assert(init[k] == qs[k]);
        }
        lemma_reverse_proposals_below(repo, v, init);
        let q = qs.last() as int;
        assert(qs[qs.len() - 1] == qs.last());
        if v.active[q] < repo.raptor_routes@[q].stops@.len() {
            lemma_scan_back_below(repo, v, q, 0);
        }
        let a = reverse_route_proposals(repo, v, init);
        let b = reverse_scan(repo, v, q);
        let all = reverse_route_proposals(repo, v, qs);
        assert(all == a + b);
        assert forall|k: int| 0 <= k < all.len() implies #[trigger] all[k].stop_idx < repo.stops@.len() by {
            if k < a.len() {
                assert(all[k] == a[k]);
            } else {
                assert(all[k] == b[k - a.len()]);
            }
        }
    }
}

/// A best time `a` no earlier than `b`, where `b` is one.
pub open spec fn no_earlier(a: Option<Time>, b: Option<Time>) -> bool {
    match b {
        Some(x) => a matches Some(y) && y.0 >= x.0,
        None => true,
    }
}

/// Best time `a` is strictly later than `b` (any time beats none).
pub open spec fn later(a: Option<Time>, b: Option<Time>) -> bool {
    match b {
        Some(x) => a matches Some(y) && y.0 > x.0,
        None => a is Some,
    }
}

/// Applying updates backwards never worsens a best time, and either leaves
/// a stop's best time, label and mark alone, or makes its best time strictly
/// later, its label equal to it and marks it.
proof fn lemma_apply_back(st: LabelState, round: int, n: int, us: Seq<Update>)
    requires
        stops_below(us, st.0.len() as int),
        st.1.len() == st.0.len(),
        st.3.len() == st.0.len(),
    ensures
        ({
            let res = apply_updates(st, round, n, us, true);
            &&& res.0.len() == st.0.len()
            &&& res.1.len() == st.0.len()
            &&& res.3.len() == st.0.len()
            &&& forall|s: int| 0 <= s < st.0.len() ==> no_earlier(#[trigger] res.0[s], st.0[s])
            &&& forall|s: int|
                0 <= s < st.0.len() ==> {
                    ||| (#[trigger] res.0[s] == st.0[s] && res.1[s] == st.1[s] && res.3[s] == st.3[s])
                    ||| (res.1[s] == res.0[s] && res.3[s] && later(res.0[s], st.0[s]))
                }
        }),
    decreases us.len(),
{
    if us.len() > 0 {
        let init = us.drop_last();
        assert forall|k: int| 0 <= k < init.len() implies #[trigger] init[k].stop_idx < st.0.len() by {
            assert(init[k] == us[k]);
        }
        lemma_apply_back(st, round, n, init);
        let pre = apply_updates(st, round, n, init, true);
        let u = us.last();
        assert(us[us.len() - 1] == u);
        let res = apply_update(pre, round, n, u, true);
        assert(apply_updates(st, round, n, us, true) == res);
        assert forall|s: int| 0 <= s < st.0.len() implies no_earlier(#[trigger] res.0[s], st.0[s]) by {
            assert(no_earlier(pre.0[s], st.0[s]));
        }
        assert forall|s: int| 0 <= s < st.0.len() implies {
            ||| (#[trigger] res.0[s] == st.0[s] && res.1[s] == st.1[s] && res.3[s] == st.3[s])
            ||| (res.1[s] == res.0[s] && res.3[s] && later(res.0[s], st.0[s]))
        } by {
            assert(no_earlier(pre.0[s], st.0[s]));
        }
    }
}

/// After applying updates backwards, the stop of each of them has a best
/// time no earlier than the update's, unless that is the first second.
proof fn lemma_apply_back_has(st: LabelState, round: int, n: int, us: Seq<Update>, m: int)
    requires
        0 <= m < us.len(),
        stops_below(us, st.0.len() as int),
        st.1.len() == st.0.len(),
        st.3.len() == st.0.len(),
        us[m].arrival_time.0 > 0,
    ensures
        apply_updates(st, round, n, us, true).0[us[m].stop_idx as int] matches Some(y) && y.0 >= us[m].arrival_time.0,
    decreases us.len(),
{
    let init = us.drop_last();
    let pre = apply_updates(st, round, n, init, true);
    assert forall|k: int| 0 <= k < init.len() implies #[trigger] init[k].stop_idx < st.0.len() by {
        assert(init[k] == us[k]);
    }
    lemma_apply_back(st, round, n, init);
    let u = us.last();
    let res = apply_update(pre, round, n, u, true);
    assert(apply_updates(st, round, n, us, true) == res);
    let s = us[m].stop_idx as int;
    if m == us.len() - 1 {
        assert(u == us[m]);
    } else {
        assert(init[m] == us[m]);
        lemma_apply_back_has(st, round, n, init, m);
        assert(pre.0[s] matches Some(y) && y.0 >= us[m].arrival_time.0);
    }
}

/// The routes serving the stops `ss` are routes of the repository, at
/// positions on them.
proof fn lemma_serving_all_valid(repo: Repository, ss: Seq<usize>)
    requires
        repo.wf(),
        forall|k: int| 0 <= k < ss.len() ==> #[trigger] ss[k] < repo.stops@.len(),
    ensures
        forall|m: int|
            0 <= m < serving_all(repo, ss).len() ==> (#[trigger] serving_all(repo, ss)[m]).route_idx
                < repo.raptor_routes@.len() && serving_all(repo, ss)[m].idx_in_route
                < repo.raptor_routes@[serving_all(repo, ss)[m].route_idx as int].stops@.len(),
    decreases ss.len(),
{
    if ss.len() > 0 {
        let init = ss.drop_last();
        assert forall|k: int| 0 <= k < init.len() implies #[trigger] init[k] < repo.stops@.len() by {
            assert(init[k] == ss[k]);
        }
        lemma_serving_all_valid(repo, init);
        let x = ss.last();
        assert(ss[ss.len() - 1] == x);
        let qs = repo.stop_to_raptors@[x as u32 as int]@;
        assert forall|k: int| 0 <= k < qs.len() implies #[trigger] qs[k] < repo.raptor_routes@.len() by {}
        lemma_serving_valid(repo, x as u32, qs);
        let pre = serving_all(repo, init);
        let here = serving_routes(repo, x as u32, qs);
        let all = serving_all(repo, ss);
        assert(all == pre + here);
        assert forall|m: int| 0 <= m < all.len() implies (#[trigger] all[m]).route_idx < repo.raptor_routes@.len()
            && all[m].idx_in_route < repo.raptor_routes@[all[m].route_idx as int].stops@.len() by {
            if m < pre.len() {
                assert(all[m] == pre[m]);
            } else {
                assert(all[m] == here[m - pre.len()]);
            }
        }
    }
}

/// No position listed for a route leaves it without one.
proof fn lemma_best_position_none(pairs: Seq<ServingRoute>, q: int, forward: bool)
    requires
        forall|x: int| 0 <= x < pairs.len() ==> (#[trigger] pairs[x]).route_idx != q,
    ensures
        best_position(pairs, q, forward) == u32::MAX,
    decreases pairs.len(),
{
    if pairs.len() > 0 {
        let init = pairs.drop_last();
        assert forall|x: int| 0 <= x < init.len() implies (#[trigger] init[x]).route_idx != q by {
            assert(init[x] == pairs[x]);
        }
        assert(pairs[pairs.len() - 1] == pairs.last());
        lemma_best_position_none(init, q, forward);
    }
}

/// Scanning backwards starts a route no earlier than any position listed
/// for it, at a position listed for it.
proof fn lemma_best_position_above(pairs: Seq<ServingRoute>, q: int, m: int)
    requires
        0 <= m < pairs.len(),
        pairs[m].route_idx == q,
        forall|x: int| 0 <= x < pairs.len() ==> #[trigger] pairs[x].idx_in_route < u32::MAX,
    ensures
        best_position(pairs, q, false) >= pairs[m].idx_in_route,
        exists|x: int| 0 <= x < pairs.len() && (#[trigger] pairs[x]).route_idx == q && pairs[x].idx_in_route == best_position(pairs, q, false),
    decreases pairs.len(),
{
    let init = pairs.drop_last();
    let last = pairs.last();
    assert(pairs[pairs.len() - 1] == last);
    assert forall|x: int| 0 <= x < init.len() implies #[trigger] init[x].idx_in_route < u32::MAX by {
        assert(init[x] == pairs[x]);
    }
    if m < pairs.len() - 1 {
        assert(init[m] == pairs[m]);
        lemma_best_position_above(init, q, m);
        let x = choose|x: int| 0 <= x < init.len() && (#[trigger] init[x]).route_idx == q && init[x].idx_in_route == best_position(init, q, false);
        assert(pairs[x] == init[x]);
    } else {
        if exists|x: int| 0 <= x < init.len() && (#[trigger] init[x]).route_idx == q {
            let x = choose|x: int| 0 <= x < init.len() && (#[trigger] init[x]).route_idx == q;
            lemma_best_position_above(init, q, x);
            let y = choose|y: int| 0 <= y < init.len() && (#[trigger] init[y]).route_idx == q && init[y].idx_in_route == best_position(init, q, false);
            assert(pairs[y] == init[y]);
        } else {
            lemma_best_position_none(init, q, false);
        }
    }
}

/// Each RAPTOR route calls at each of its stops once.
pub open spec fn calls_once(repo: Repository) -> bool {
    forall|q: int, a: int, b: int|
        0 <= q < repo.raptor_routes@.len() && 0 <= a < b < repo.raptor_routes@[q].stops@.len() ==> #[trigger] repo.raptor_routes@[q].stops@[a]
            != #[trigger] repo.raptor_routes@[q].stops@[b]
}

/// Trip `kt` of RAPTOR route `q` boarded at position `i` and left at `j`,
/// the route being listed for the stop where the ride ends.
pub open spec fn ride_ok_back(repo: Repository, q: int, kt: int, i: int, j: int) -> bool {
    &&& ride_valid(repo, q, kt, i, j)
    &&& repo.stop_to_raptors@[repo.raptor_routes@[q].stops@[j] as int]@.contains(q as u32)
}

/// Stop `s` has a best time no earlier than `a`, or `a` is the first second.
pub open spec fn covers_back(w: SearchView, s: u32, a: int) -> bool {
    (w.tau[s as int] matches Some(x) && x.0 >= a) || a <= 0
}

/// A round backwards from a state where stop `j` of RAPTOR route `q` is
/// marked and must be left no earlier than trip `kt` reaches it matches
/// the departure of `kt` from position `i` before it.
proof fn lemma_round_rides_back(
    repo: Repository,
    v: SearchView,
    targets: Seq<u32>,
    round: int,
    q: int,
    kt: int,
    i: int,
    j: int,
)
    requires
        repo.wf(),
        no_overtaking_back(repo),
        calls_once(repo),
        v.tau.len() == repo.stops@.len(),
        v.marks.len() == repo.stops@.len(),
        ride_ok_back(repo, q, kt, i, j),
        v.marks[repo.raptor_routes@[q].stops@[j] as int],
        v.curr[repo.raptor_routes@[q].stops@[j] as int] matches Some(l) && l.0 >= arrival_at(
            repo,
            repo.raptor_routes@[q].trips@[kt] as int,
            j,
        ).0,
    ensures
        covers_back(
            round_step(repo, v, targets, round, false),
            repo.raptor_routes@[q].stops@[i],
            departure_at(repo, repo.raptor_routes@[q].trips@[kt] as int, i).0 as int,
        ),
{
    let n = repo.stops@.len() as int;
    let route = repo.raptor_routes@[q];
    let si = route.stops@[i];
    let sj = route.stops@[j];
    let a = departure_at(repo, route.trips@[kt] as int, i).0 as int;
    if a > 0 {
        assert(repo.raptor_route_wf(q));
        let mid = round_start(repo, v, false);
        lemma_set_positions(v.marks);
        assert(route.stops@.contains(sj));
        lemma_serving_has(repo, sj, repo.stop_to_raptors@[sj as int]@, q as u32);
        let here = serving_routes(repo, sj, repo.stop_to_raptors@[sj as int]@);
        let m = choose|m: int|
            0 <= m < here.len() && (#[trigger] here[m]).route_idx == route.index && here[m].idx_in_route
                == first_index_of(route.stops@, sj) as u32;
        let sr = here[m];
        assert(here.contains(sr));
        let marked = set_positions(v.marks);
        assert(marked.contains(sj as usize));
        lemma_serving_all_has(repo, marked, sj as usize, sr);
        let pairs = serving_all(repo, marked);
        lemma_serving_all_valid(repo, marked);
        let m2 = choose|m2: int| 0 <= m2 < pairs.len() && pairs[m2] == sr;
        assert forall|x: int| 0 <= x < pairs.len() implies #[trigger] pairs[x].idx_in_route < u32::MAX by {
            assert(repo.raptor_route_wf(pairs[x].route_idx as int));
        }
        lemma_best_position_above(pairs, q, m2);
        lemma_first_index_exists(route.stops@, sj);
        let fi = first_index_of(route.stops@, sj);
        if fi < j {
            assert(route.stops@[fi] != route.stops@[j]);
        }
        assert(mid.active[q] >= j);
        let y = choose|y: int| 0 <= y < pairs.len() && (#[trigger] pairs[y]).route_idx == q && pairs[y].idx_in_route == best_position(pairs, q, false);
        assert(mid.active[q] < route.stops@.len());
        let qs = set_positions(mid.mask);
        lemma_set_positions(mid.mask);
        assert(mid.mask[q]);
        assert(qs.contains(q as usize));
        lemma_scan_back_ride(repo, mid, q, kt, j, 0);
        assert(covered_back(reverse_scan(repo, mid, q), mid.tau, si, a));
        lemma_reverse_proposals_cover(repo, mid, qs, q, si, a);
        let props = reverse_route_proposals(repo, mid, qs);
        lemma_reverse_proposals_below(repo, mid, qs);
        let st0: LabelState = (mid.tau, mid.curr, mid.parents, mid.marks);
        lemma_apply_back(st0, round, n, props);
        let rides = apply_updates(st0, round, n, props, true);
        lemma_set_positions(rides.3);
        let fps = footpath_proposals(repo, rides.0, rides.1, v.target.0, set_positions(rides.3), true);
        lemma_footpath_proposals_below(repo, rides.0, rides.1, v.target.0, set_positions(rides.3), true);
        lemma_apply_back(rides, round, n, fps);
        let fin = apply_updates(rides, round, n, fps, true);
        if exists|k: int| 0 <= k < props.len() && (#[trigger] props[k]).stop_idx == si && props[k].arrival_time.0 >= a {
            let k = choose|k: int| 0 <= k < props.len() && (#[trigger] props[k]).stop_idx == si && props[k].arrival_time.0 >= a;
            lemma_apply_back_has(st0, round, n, props, k);
        }
        assert(rides.0[si as int] matches Some(y) && y.0 >= a);
        assert(no_earlier(fin.0[si as int], rides.0[si as int]));
    }
}

/// A round backwards never worsens a best time, nor the target's; it
/// either leaves a stop's best time alone, or makes it strictly later,
/// marks the stop and gives it that time as its label; and afterwards the
/// target's time is no earlier than any target stop's.
proof fn lemma_round_back(repo: Repository, v: SearchView, targets: Seq<u32>, round: int)
    requires
        repo.wf(),
        v.tau.len() == repo.stops@.len(),
    ensures
        ({
            let w = round_step(repo, v, targets, round, false);
            &&& w.tau.len() == repo.stops@.len()
            &&& w.curr.len() == repo.stops@.len()
            &&& w.marks.len() == repo.stops@.len()
            &&& forall|s: int| 0 <= s < repo.stops@.len() ==> no_earlier(#[trigger] w.tau[s], v.tau[s])
            &&& forall|s: int|
                0 <= s < repo.stops@.len() ==> (#[trigger] w.tau[s] == v.tau[s]) || (w.curr[s] == w.tau[s] && w.marks[s]
                    && later(w.tau[s], v.tau[s]))
            &&& w.target.0.0 >= v.target.0.0
            &&& forall|k: int|
                0 <= k < targets.len() ==> (#[trigger] w.tau[targets[k] as int] matches Some(x) ==> w.target.0.0 >= x.0)
        }),
{
    let n = repo.stops@.len() as int;
    let mid = round_start(repo, v, false);
    let qs = set_positions(mid.mask);
    lemma_set_positions(mid.mask);
    let props = reverse_route_proposals(repo, mid, qs);
    lemma_reverse_proposals_below(repo, mid, qs);
    let st0: LabelState = (mid.tau, mid.curr, mid.parents, mid.marks);
    lemma_apply_back(st0, round, n, props);
    let rides = apply_updates(st0, round, n, props, true);
    lemma_set_positions(rides.3);
    let fps = footpath_proposals(repo, rides.0, rides.1, v.target.0, set_positions(rides.3), true);
    lemma_footpath_proposals_below(repo, rides.0, rides.1, v.target.0, set_positions(rides.3), true);
    lemma_apply_back(rides, round, n, fps);
    let fin = apply_updates(rides, round, n, fps, true);
    lemma_scan_targets(v.target, fin.0, targets, round as usize, false);
    assert forall|s: int| 0 <= s < n implies no_earlier(#[trigger] fin.0[s], v.tau[s]) by {
        assert(no_earlier(rides.0[s], v.tau[s]));
        assert(no_earlier(fin.0[s], rides.0[s]));
    }
    assert forall|s: int| 0 <= s < n implies (#[trigger] fin.0[s] == v.tau[s]) || (fin.1[s] == fin.0[s] && fin.3[s]
        && later(fin.0[s], v.tau[s])) by {
        assert(no_earlier(rides.0[s], v.tau[s]));
    }
}

/// Every ride reaching stop `b` no later than `l` is matched in `w`.
pub open spec fn rides_done_back(repo: Repository, w: SearchView, b: int, l: int) -> bool {
    forall|q: int, kt: int, i: int, j: int|
        #[trigger] ride_ok_back(repo, q, kt, i, j) && repo.raptor_routes@[q].stops@[j] == b && arrival_at(
            repo,
            repo.raptor_routes@[q].trips@[kt] as int,
            j,
        ).0 <= l ==> covers_back(
            w,
            repo.raptor_routes@[q].stops@[i],
            departure_at(repo, repo.raptor_routes@[q].trips@[kt] as int, i).0 as int,
        )
}

/// Every stop with a best time has had all rides into it by then matched,
/// or is marked with that time as its label, for the next round.
pub open spec fn rides_settled_back(repo: Repository, w: SearchView) -> bool {
    forall|b: int|
        0 <= b < repo.stops@.len() ==> (#[trigger] w.tau[b] matches Some(l) ==> rides_done_back(repo, w, b, l.0 as int)
            || (w.marks[b] && w.curr[b] == Some(l)))
}

/// A round backwards keeps every stop's rides settled.
proof fn lemma_round_settles_back(repo: Repository, v: SearchView, targets: Seq<u32>, round: int)
    requires
        repo.wf(),
        no_overtaking_back(repo),
        calls_once(repo),
        v.tau.len() == repo.stops@.len(),
        v.marks.len() == repo.stops@.len(),
        rides_settled_back(repo, v),
    ensures
        rides_settled_back(repo, round_step(repo, v, targets, round, false)),
{
    let n = repo.stops@.len() as int;
    let w = round_step(repo, v, targets, round, false);
    lemma_round_back(repo, v, targets, round);
    assert forall|b: int| 0 <= b < n implies (#[trigger] w.tau[b] matches Some(l) ==> rides_done_back(
        repo,
        w,
        b,
        l.0 as int,
    ) || (w.marks[b] && w.curr[b] == Some(l))) by {
        if let Some(l) = w.tau[b] {
            if w.tau[b] == v.tau[b] {
                assert(v.tau[b] == Some(l));
                assert forall|q: int, kt: int, i: int, j: int|
                    #[trigger] ride_ok_back(repo, q, kt, i, j) && repo.raptor_routes@[q].stops@[j] == b && arrival_at(
                        repo,
                        repo.raptor_routes@[q].trips@[kt] as int,
                        j,
                    ).0 <= l.0 implies covers_back(
                    w,
                    repo.raptor_routes@[q].stops@[i],
                    departure_at(repo, repo.raptor_routes@[q].trips@[kt] as int, i).0 as int,
                ) by {
                    assert(repo.raptor_route_wf(q));
                    let si = repo.raptor_routes@[q].stops@[i];
                    if rides_done_back(repo, v, b, l.0 as int) {
                        assert(no_earlier(w.tau[si as int], v.tau[si as int]));
                    } else {
                        lemma_round_rides_back(repo, v, targets, round, q, kt, i, j);
                    }
                }
            }
        }
    }
}

/// Where a step starts when it is read backwards: at the start of its
/// footpath, or where its ride is boarded.
pub open spec fn step_start(repo: Repository, st: Step) -> u32 {
    match st.1 {
        Some(f) => f.0,
        None => board_at(repo, st.0),
    }
}

/// When a step read backwards starts: its ride's departure, less its
/// footpath's time.
pub open spec fn step_departure(repo: Repository, st: Step) -> int {
    match st.1 {
        Some(f) => ride_departure(repo, st.0) - f.1,
        None => ride_departure(repo, st.0),
    }
}

/// A step read backwards: its ride is valid and listed where it ends, and
/// its footpath, if any, leads to where the ride is boarded, reversing a
/// transfer or walk listed there.
pub open spec fn step_ok_back(repo: Repository, st: Step) -> bool {
    &&& ride_ok_back(repo, st.0.0, st.0.1, st.0.2, st.0.3)
    &&& st.1 matches Some(f) ==> footpath_ok(repo, board_at(repo, st.0) as int, f.0, f.1)
}

/// A journey of one or more steps, each a footpath then a ride when read
/// backwards, that ends at a stop of `origin` no later than `time`; each
/// step after the first starts where the previous ride was left, no
/// earlier than it arrived.
pub open spec fn journey_back(repo: Repository, origin: Seq<u32>, time: Time, steps: Seq<Step>) -> bool {
    &&& steps.len() >= 1
    &&& forall|m: int| 0 <= m < steps.len() ==> step_ok_back(repo, #[trigger] steps[m])
    &&& origin.contains(alight_at(repo, steps.last().0))
    &&& ride_arrival(repo, steps.last().0) <= time.0
    &&& forall|m: int|
        0 <= m < steps.len() - 1 ==> step_start(repo, #[trigger] steps[m + 1]) == alight_at(repo, steps[m].0)
            && step_departure(repo, steps[m + 1]) >= ride_arrival(repo, steps[m].0)
}

/// A step whose ride is matched backwards is matched, footpath included,
/// where footpaths are settled backwards and compose.
proof fn lemma_step_matched_back(repo: Repository, w: SearchView, st: Step)
    requires
        repo.wf(),
        footpaths_closed(repo),
        w.tau.len() == repo.stops@.len(),
        footpaths_settled_back(repo, w),
        step_ok_back(repo, st),
        covers_back(w, board_at(repo, st.0), ride_departure(repo, st.0)),
    ensures
        covers_back(w, step_start(repo, st), step_departure(repo, st)),
        step_start(repo, st) < repo.stops@.len(),
{
    assert(repo.raptor_route_wf(st.0.0));
    if let Some(f) = st.1 {
        lemma_arrive_back(repo, w, board_at(repo, st.0), ride_departure(repo, st.0), f.0, f.1);
        lemma_footpath_dest(repo, board_at(repo, st.0) as int, f.0, f.1);
    }
}

/// A target time after the first second is the best time of a target stop
/// or earlier.
pub open spec fn target_witnessed_back(w: SearchView, targets: Seq<u32>) -> bool {
    w.target.0.0 > 0 ==> exists|k: int|
        0 <= k < targets.len() && (#[trigger] w.tau[targets[k] as int] matches Some(x) && x.0 >= w.target.0.0)
}

/// After `m` rounds of a search backwards to the stops `origin` by `time`,
/// every stop's rides and footpaths are settled, the target's time is no
/// earlier than any target stop's and witnessed by one, and every journey
/// of at most `m` rides is matched where it starts.
proof fn lemma_rounds_back(repo: Repository, origin: Seq<u32>, targets: Seq<u32>, time: Time, m: int)
    requires
        repo.wf(),
        no_overtaking_back(repo),
        calls_once(repo),
        rides_forward(repo),
        footpaths_closed(repo),
        1 <= m <= MAX_ROUNDS,
        forall|k: int| 0 <= k < targets.len() ==> #[trigger] targets[k] < repo.stops@.len(),
        !none_marked(seed_view(repo, Seq::new(repo.stops@.len(), |s: int| None::<Time>), origin, time, false).marks),
    ensures
        ({
            let v0 = seed_view(repo, Seq::new(repo.stops@.len(), |s: int| None::<Time>), origin, time, false);
            let w = state_after(repo, v0, targets, m, false);
            &&& w.tau.len() == repo.stops@.len()
            &&& w.marks.len() == repo.stops@.len()
            &&& rides_settled_back(repo, w)
            &&& footpaths_settled_back(repo, w)
            &&& forall|k: int|
                0 <= k < targets.len() ==> (#[trigger] w.tau[targets[k] as int] matches Some(x) ==> w.target.0.0 >= x.0)
            &&& target_witnessed_back(w, targets)
            &&& forall|steps: Seq<Step>|
                #[trigger] journey_back(repo, origin, time, steps) && steps.len() <= m ==> covers_back(
                    w,
                    step_start(repo, steps[0]),
                    step_departure(repo, steps[0]),
                )
        }),
    decreases m,
{
    let n = repo.stops@.len() as int;
    let v0 = seed_view(repo, Seq::new(repo.stops@.len(), |s: int| None::<Time>), origin, time, false);
    let w = state_after(repo, v0, targets, m, false);
    if m == 1 {
        assert(state_after(repo, v0, targets, 0, false) == v0);
        assert(w == round_step(repo, v0, targets, 0, false));
        lemma_round_back(repo, v0, targets, 0);
        assert(rides_settled_back(repo, v0));
        assert(footpaths_settled_back(repo, v0));
        lemma_round_settles_back(repo, v0, targets, 0);
        lemma_round_footpaths_back(repo, v0, targets, 0);
        lemma_scan_targets(v0.target, w.tau, targets, 0, false);
        assert forall|steps: Seq<Step>| #[trigger] journey_back(repo, origin, time, steps) && steps.len() <= m implies covers_back(
            w,
            step_start(repo, steps[0]),
            step_departure(repo, steps[0]),
        ) by {
            let r = steps[0].0;
            assert(step_ok_back(repo, steps[0]));
            assert(repo.raptor_route_wf(r.0));
            let b = alight_at(repo, r);
            assert(steps.last() == steps[0]);
            let k = choose|k: int| 0 <= k < origin.len() && origin[k] == b;
            assert(origin[k] as int == b as int);
            assert(listed(origin, b as int));
            lemma_round_rides_back(repo, v0, targets, 0, r.0, r.1, r.2, r.3);
            lemma_step_matched_back(repo, w, steps[0]);
        }
        if w.target.0.0 > 0 {
            let t = w.target;
            let sb = t.1->Some_0;
            let k = choose|k: int| 0 <= k < targets.len() && targets[k] == sb;
            assert(w.tau[targets[k] as int] == Some(t.0));
        }
    } else {
        lemma_rounds_back(repo, origin, targets, time, m - 1);
        let u = state_after(repo, v0, targets, m - 1, false);
        let stepped = !(none_marked(u.marks) || m - 1 >= MAX_ROUNDS);
        if stepped {
            assert(w == round_step(repo, u, targets, m - 1, false));
            lemma_round_back(repo, u, targets, m - 1);
            lemma_round_settles_back(repo, u, targets, m - 1);
            lemma_round_footpaths_back(repo, u, targets, m - 1);
            lemma_scan_targets(u.target, w.tau, targets, (m - 1) as usize, false);
            if w.target.0.0 > 0 {
                if w.target == u.target {
                    let k = choose|k: int|
                        0 <= k < targets.len() && (#[trigger] u.tau[targets[k] as int] matches Some(x) && x.0 >= u.target.0.0);
                    assert(no_earlier(w.tau[targets[k] as int], u.tau[targets[k] as int]));
                } else {
                    let sb = w.target.1->Some_0;
                    let k = choose|k: int| 0 <= k < targets.len() && targets[k] == sb;
                    assert(w.tau[targets[k] as int] == Some(w.target.0));
                }
            }
        } else {
            assert(w == u);
        }
        assert forall|steps: Seq<Step>| #[trigger] journey_back(repo, origin, time, steps) && steps.len() <= m implies covers_back(
            w,
            step_start(repo, steps[0]),
            step_departure(repo, steps[0]),
        ) by {
            let fst = steps[0];
            let first = fst.0;
            let si = board_at(repo, first);
            let a = ride_departure(repo, first);
            assert(step_ok_back(repo, steps[0]));
            assert(repo.raptor_route_wf(first.0));
            if steps.len() <= m - 1 {
                let s0 = step_start(repo, fst);
                let a0 = step_departure(repo, fst);
                assert(covers_back(u, s0, a0));
                if let Some(f) = fst.1 {
                    lemma_footpath_dest(repo, si as int, f.0, f.1);
                }
                if stepped {
                    assert(no_earlier(w.tau[s0 as int], u.tau[s0 as int]));
                }
            } else {
                let post = steps.subrange(1, steps.len() as int);
                assert forall|mm: int| 0 <= mm < post.len() implies step_ok_back(repo, #[trigger] post[mm]) by {
                    assert(post[mm] == steps[mm + 1]);
                }
                assert forall|mm: int| 0 <= mm < post.len() - 1 implies step_start(repo, #[trigger] post[mm + 1]) == alight_at(repo, post[mm].0)
                    && step_departure(repo, post[mm + 1]) >= ride_arrival(repo, post[mm].0) by {
                    assert(post[mm + 1] == steps[mm + 2]);
                    assert(post[mm] == steps[mm + 1]);
                }
                assert(post.last() == steps.last());
                assert(journey_back(repo, origin, time, post));
                let second = post[0];
                assert(second == steps[1]);
                assert(covers_back(u, step_start(repo, second), step_departure(repo, second)));
                assert(step_start(repo, steps[0int + 1]) == alight_at(repo, steps[0int].0));
                let b = alight_at(repo, first);
                let l0 = step_departure(repo, second);
                assert(l0 >= ride_arrival(repo, first));
                assert(b < n);
                if l0 <= 0 {
                    assert(ride_valid(repo, first.0, first.1, first.2, first.3));
                    assert(a <= ride_arrival(repo, first));
                } else {
                    let x = u.tau[b as int]->Some_0;
                    assert(u.tau[b as int] == Some(x));
                    if rides_done_back(repo, u, b as int, x.0 as int) {
                        assert(covers_back(u, si, a));
                        if stepped {
                            assert(no_earlier(w.tau[si as int], u.tau[si as int]));
                        }
                    } else {
                        assert(u.marks[b as int] && u.curr[b as int] == Some(x));
                        assert(!none_marked(u.marks));
                        assert(stepped);
                        lemma_round_rides_back(repo, u, targets, m - 1, first.0, first.1, first.2, first.3);
                    }
                }
                assert(covers_back(w, si, a));
                lemma_step_matched_back(repo, w, fst);
            }
        }
    }
}

/// Arriving by `time` at the stops `origin`, a search ends with a target
/// time no earlier than the start of any journey of at most `MAX_ROUNDS`
/// rides, each reached by at most one transfer or walk, that starts at a
/// stop of `targets`, and a target stop reached after the first second,
/// provided the trips of every RAPTOR route keep their order backwards
/// along it and run forward in time, each route calls at each of its stops
/// once, and footpaths compose.
pub proof fn lemma_latest_departure(
    repo: Repository,
    origin: Seq<u32>,
    targets: Seq<u32>,
    time: Time,
    steps: Seq<Step>,
)
    requires
        repo.wf(),
        no_overtaking_back(repo),
        calls_once(repo),
        rides_forward(repo),
        footpaths_closed(repo),
        forall|k: int| 0 <= k < targets.len() ==> #[trigger] targets[k] < repo.stops@.len(),
        journey_back(repo, origin, time, steps),
        steps.len() <= MAX_ROUNDS,
        targets.contains(step_start(repo, steps[0])),
    ensures
        ({
            let fin = search_outcome(repo, origin, targets, time, false);
            &&& fin.target.0.0 >= step_departure(repo, steps[0])
            &&& step_departure(repo, steps[0]) > 0 ==> target_reached(fin.tau, targets, false)
        }),
{
    let n = repo.stops@.len();
    let v0 = seed_view(repo, Seq::new(n, |s: int| None::<Time>), origin, time, false);
    let sl = steps.last();
    assert(steps[steps.len() - 1] == sl);
    assert(step_ok_back(repo, sl));
    let rl = sl.0;
    assert(repo.raptor_route_wf(rl.0));
    let b = alight_at(repo, rl);
    let k = choose|k: int| 0 <= k < origin.len() && origin[k] == b;
    assert(origin[k] as int == b as int);
    assert(listed(origin, b as int));
    assert(v0.marks[b as int]);
    assert(!none_marked(v0.marks));
    lemma_rounds_back(repo, origin, targets, time, MAX_ROUNDS as int);
    lemma_search_is_states(repo, v0, targets, MAX_ROUNDS as int, false);
    let w = state_after(repo, v0, targets, MAX_ROUNDS as int, false);
    assert(search(repo, w, targets, MAX_ROUNDS as int, false) == w);
    let si = step_start(repo, steps[0]);
    let a = step_departure(repo, steps[0]);
    assert(covers_back(w, si, a));
    let kk = choose|kk: int| 0 <= kk < targets.len() && targets[kk] == si;
    assert(w.tau[targets[kk] as int] matches Some(x) ==> w.target.0.0 >= x.0);
    if a > 0 {
        assert(reached_label(w.tau[targets[kk] as int], false));
    }
}

/// A footpath out of stop `a` to stop `c` that takes `d` seconds: one of
/// the transfers listed for `a`, taking its transfer time, or one of the
/// walks listed for it, taking its duration.
pub open spec fn footpath_ok(repo: Repository, a: int, c: u32, d: int) -> bool {
    ||| exists|k: int|
        0 <= k < repo.stop_to_transfers@[a]@.len() && repo.transfers@[(#[trigger] repo.stop_to_transfers@[a]@[k]) as int].to_stop_idx
            == c && transfer_time(repo.transfers@[repo.stop_to_transfers@[a]@[k] as int]).0 == d
    ||| exists|k: int|
        0 <= k < repo.stop_to_walk_stop@[a]@.len() && (#[trigger] repo.stop_to_walk_stop@[a]@[k]).to_stop_idx == c
            && repo.stop_to_walk_stop@[a]@[k].duration.0 == d
}

/// Footpaths compose: two footpaths in a row, from `a` to `b` and from `b`
/// to another stop `c`, are never faster than a footpath from `a` to `c`.
pub open spec fn footpaths_closed(repo: Repository) -> bool {
    forall|a: int, b: int, c: u32, d1: int, d2: int|
        #[trigger] footpath_ok(repo, a, b as u32, d1) && #[trigger] footpath_ok(repo, b, c, d2) && a != c ==> exists|d: int|
            #[trigger] footpath_ok(repo, a, c, d) && d <= d1 + d2
}

/// When a footpath of `d` seconds out of stop `a` ends, leaving `a` at its
/// label; backwards, when it starts so as to reach `a` by its label.
pub open spec fn fp_time(labels: Seq<Option<Time>>, a: int, d: int, reverse: bool) -> int {
    if reverse {
        best_or_earliest(labels[a]) - d
    } else {
        best_or_latest(labels[a]) + d
    }
}

/// A stop matched by `t` among updates: forward as `covered` says,
/// backwards as `covered_back` says.
pub open spec fn covered_dir(us: Seq<Update>, tau: Seq<Option<Time>>, target: Time, s: u32, t: int, reverse: bool) -> bool {
    if reverse {
        covered_back(us, tau, s, t)
    } else {
        covered(us, tau, target, s, t)
    }
}

/// The proposal of one footpath out of stop `a`: either it proposes `c`
/// by the footpath's time, or `c`'s best time (or, forward, the target's)
/// is already as good.
proof fn lemma_fp_one(
    tau: Seq<Option<Time>>,
    labels: Seq<Option<Time>>,
    target: Time,
    a: int,
    c: u32,
    d: int,
    walk: bool,
    reverse: bool,
    us: Seq<Update>,
)
    requires
        d >= 0,
    ensures
        covered_dir(
            push_some(us, footpath_proposal(tau, labels, target, a, c, d, walk, reverse)),
            tau,
            target,
            c,
            fp_time(labels, a, d, reverse),
            reverse,
        ),
        forall|m: int|
            0 <= m < us.len() ==> #[trigger] push_some(us, footpath_proposal(tau, labels, target, a, c, d, walk, reverse))[m]
                == us[m],
        footpath_proposal(tau, labels, target, a, c, d, walk, reverse) matches Some(u) ==> u.stop_idx == c
            && u.arrival_time.0 == fp_time(labels, a, d, reverse),
{
    let all = push_some(us, footpath_proposal(tau, labels, target, a, c, d, walk, reverse));
    if let Some(u) = footpath_proposal(tau, labels, target, a, c, d, walk, reverse) {
        assert(all[us.len() as int] == u);
    }
}

/// Every transfer of `xs` out of stop `a` is matched by the proposals they
/// make, and every proposal they make comes from one of them.
proof fn lemma_transfer_proposals_fp(
    repo: Repository,
    tau: Seq<Option<Time>>,
    labels: Seq<Option<Time>>,
    target: Time,
    a: int,
    xs: Seq<u32>,
    reverse: bool,
)
    ensures
        forall|k: int|
            0 <= k < xs.len() ==> #[trigger] covered_dir(
                transfer_proposals(repo, tau, labels, target, a, xs, reverse),
                tau,
                target,
                repo.transfers@[xs[k] as int].to_stop_idx,
                fp_time(labels, a, transfer_time(repo.transfers@[xs[k] as int]).0 as int, reverse),
                reverse,
            ),
        forall|m: int|
            0 <= m < transfer_proposals(repo, tau, labels, target, a, xs, reverse).len() ==> exists|k: int|
                0 <= k < xs.len() && repo.transfers@[xs[k] as int].to_stop_idx == (#[trigger] transfer_proposals(
                    repo,
                    tau,
                    labels,
                    target,
                    a,
                    xs,
                    reverse,
                )[m]).stop_idx && transfer_proposals(repo, tau, labels, target, a, xs, reverse)[m].arrival_time.0
                    == fp_time(labels, a, transfer_time(repo.transfers@[xs[k] as int]).0 as int, reverse),
    decreases xs.len(),
{
    if xs.len() > 0 {
        let init = xs.drop_last();
        lemma_transfer_proposals_fp(repo, tau, labels, target, a, init, reverse);
        let pre = transfer_proposals(repo, tau, labels, target, a, init, reverse);
        let x = xs.last();
        assert(xs[xs.len() - 1] == x);
        let tr = repo.transfers@[x as int];
        let d = transfer_time(tr).0 as int;
        lemma_fp_one(tau, labels, target, a, tr.to_stop_idx, d, false, reverse, pre);
        let all = transfer_proposals(repo, tau, labels, target, a, xs, reverse);
        assert(all == push_some(pre, footpath_proposal(tau, labels, target, a, tr.to_stop_idx, d, false, reverse)));
        assert forall|k: int| 0 <= k < xs.len() implies #[trigger] covered_dir(
            all,
            tau,
            target,
            repo.transfers@[xs[k] as int].to_stop_idx,
            fp_time(labels, a, transfer_time(repo.transfers@[xs[k] as int]).0 as int, reverse),
            reverse,
        ) by {
            if k < init.len() {
                assert(init[k] == xs[k]);
                let cc = repo.transfers@[xs[k] as int].to_stop_idx;
                let aa = fp_time(labels, a, transfer_time(repo.transfers@[xs[k] as int]).0 as int, reverse);
                assert(covered_dir(pre, tau, target, cc, aa, reverse));
                lemma_covered_prefix(pre, all, tau, target, cc, aa, reverse);
            }
        }
        assert forall|m: int| 0 <= m < all.len() implies exists|k: int|
            0 <= k < xs.len() && repo.transfers@[xs[k] as int].to_stop_idx == (#[trigger] all[m]).stop_idx
                && all[m].arrival_time.0 == fp_time(labels, a, transfer_time(repo.transfers@[xs[k] as int]).0 as int, reverse) by {
            if m < pre.len() {
                assert(all[m] == pre[m]);
                let k = choose|k: int|
                    0 <= k < init.len() && repo.transfers@[init[k] as int].to_stop_idx == (#[trigger] pre[m]).stop_idx
                        && pre[m].arrival_time.0 == fp_time(labels, a, transfer_time(repo.transfers@[init[k] as int]).0 as int, reverse);
                assert(init[k] == xs[k]);
            } else {
                assert(xs[xs.len() - 1] == x);
            }
        }
    }
}

/// A match among some updates is a match among more updates that start
/// with them.
proof fn lemma_covered_prefix(
    pre: Seq<Update>,
    all: Seq<Update>,
    tau: Seq<Option<Time>>,
    target: Time,
    c: u32,
    t: int,
    reverse: bool,
)
    requires
        covered_dir(pre, tau, target, c, t, reverse),
        pre.len() <= all.len(),
        forall|m: int| 0 <= m < pre.len() ==> #[trigger] all[m] == pre[m],
    ensures
        covered_dir(all, tau, target, c, t, reverse),
{
    if reverse {
        if exists|m: int| 0 <= m < pre.len() && (#[trigger] pre[m]).stop_idx == c && pre[m].arrival_time.0 >= t {
            let m = choose|m: int| 0 <= m < pre.len() && (#[trigger] pre[m]).stop_idx == c && pre[m].arrival_time.0 >= t;
            assert(all[m] == pre[m]);
        }
    } else {
        if exists|m: int| 0 <= m < pre.len() && (#[trigger] pre[m]).stop_idx == c && pre[m].arrival_time.0 <= t {
            let m = choose|m: int| 0 <= m < pre.len() && (#[trigger] pre[m]).stop_idx == c && pre[m].arrival_time.0 <= t;
            assert(all[m] == pre[m]);
        }
    }
}

/// Every walk of `ws` out of stop `a` is matched by the proposals they
/// make, and every proposal they make comes from one of them.
proof fn lemma_walk_proposals_fp(
    tau: Seq<Option<Time>>,
    labels: Seq<Option<Time>>,
    target: Time,
    a: int,
    ws: Seq<Walk>,
    reverse: bool,
)
    ensures
        forall|k: int|
            0 <= k < ws.len() ==> #[trigger] covered_dir(
                walk_proposals(tau, labels, target, a, ws, reverse),
                tau,
                target,
                ws[k].to_stop_idx,
                fp_time(labels, a, ws[k].duration.0 as int, reverse),
                reverse,
            ),
        forall|m: int|
            0 <= m < walk_proposals(tau, labels, target, a, ws, reverse).len() ==> exists|k: int|
                0 <= k < ws.len() && ws[k].to_stop_idx == (#[trigger] walk_proposals(tau, labels, target, a, ws, reverse)[m]).stop_idx
                    && walk_proposals(tau, labels, target, a, ws, reverse)[m].arrival_time.0 == fp_time(
                    labels,
                    a,
                    ws[k].duration.0 as int,
                    reverse,
                ),
    decreases ws.len(),
{
    if ws.len() > 0 {
        let init = ws.drop_last();
        lemma_walk_proposals_fp(tau, labels, target, a, init, reverse);
        let pre = walk_proposals(tau, labels, target, a, init, reverse);
        let w = ws.last();
        assert(ws[ws.len() - 1] == w);
        let d = w.duration.0 as int;
        lemma_fp_one(tau, labels, target, a, w.to_stop_idx, d, true, reverse, pre);
        let all = walk_proposals(tau, labels, target, a, ws, reverse);
        assert(all == push_some(pre, footpath_proposal(tau, labels, target, a, w.to_stop_idx, d, true, reverse)));
        assert forall|k: int| 0 <= k < ws.len() implies #[trigger] covered_dir(
            all,
            tau,
            target,
            ws[k].to_stop_idx,
            fp_time(labels, a, ws[k].duration.0 as int, reverse),
            reverse,
        ) by {
            if k < init.len() {
                assert(init[k] == ws[k]);
                let cc = ws[k].to_stop_idx;
                let aa = fp_time(labels, a, ws[k].duration.0 as int, reverse);
                assert(covered_dir(pre, tau, target, cc, aa, reverse));
                lemma_covered_prefix(pre, all, tau, target, cc, aa, reverse);
            }
        }
        assert forall|m: int| 0 <= m < all.len() implies exists|k: int|
            0 <= k < ws.len() && ws[k].to_stop_idx == (#[trigger] all[m]).stop_idx && all[m].arrival_time.0
                == fp_time(labels, a, ws[k].duration.0 as int, reverse) by {
            if m < pre.len() {
                assert(all[m] == pre[m]);
                let k = choose|k: int|
                    0 <= k < init.len() && init[k].to_stop_idx == (#[trigger] pre[m]).stop_idx && pre[m].arrival_time.0
                        == fp_time(labels, a, init[k].duration.0 as int, reverse);
                assert(init[k] == ws[k]);
            }
        }
    }
}

/// A match in any part of a list of updates is a match in the whole list.
proof fn lemma_covered_concat(
    u0: Seq<Update>,
    u1: Seq<Update>,
    u2: Seq<Update>,
    tau: Seq<Option<Time>>,
    target: Time,
    c: u32,
    a: int,
    reverse: bool,
)
    requires
        covered_dir(u0, tau, target, c, a, reverse) || covered_dir(u1, tau, target, c, a, reverse) || covered_dir(
            u2,
            tau,
            target,
            c,
            a,
            reverse,
        ),
    ensures
        covered_dir(u0 + u1 + u2, tau, target, c, a, reverse),
{
    let all = u0 + u1 + u2;
    if covered_dir(u0, tau, target, c, a, reverse) {
        lemma_covered_prefix(u0, all, tau, target, c, a, reverse);
    } else {
        let rest = u1 + u2;
        assert forall|m: int| 0 <= m < rest.len() implies #[trigger] all[u0.len() + m] == rest[m] by {}
        let (v, off) = if covered_dir(u1, tau, target, c, a, reverse) {
            (u1, u0.len() as int)
        } else {
            (u2, (u0.len() + u1.len()) as int)
        };
        assert forall|m: int| 0 <= m < v.len() implies #[trigger] all[off + m] == v[m] by {}
        if reverse {
            if exists|m: int| 0 <= m < v.len() && (#[trigger] v[m]).stop_idx == c && v[m].arrival_time.0 >= a {
                let m = choose|m: int| 0 <= m < v.len() && (#[trigger] v[m]).stop_idx == c && v[m].arrival_time.0 >= a;
                assert(all[off + m] == v[m]);
            }
        } else {
            if exists|m: int| 0 <= m < v.len() && (#[trigger] v[m]).stop_idx == c && v[m].arrival_time.0 <= a {
                let m = choose|m: int| 0 <= m < v.len() && (#[trigger] v[m]).stop_idx == c && v[m].arrival_time.0 <= a;
                assert(all[off + m] == v[m]);
            }
        }
    }
}

/// Update `u` proposes what a footpath out of one of `stops` leads to, by
/// when it ends (backwards, starts).
pub open spec fn fp_from(repo: Repository, stops: Seq<usize>, labels: Seq<Option<Time>>, u: Update, reverse: bool) -> bool {
    exists|i: int, d: int|
        0 <= i < stops.len() && footpath_ok(repo, stops[i] as int, u.stop_idx, d) && u.arrival_time.0 == fp_time(
            labels,
            stops[i] as int,
            d,
            reverse,
        )
}

/// Every footpath out of each of `stops` is matched by the proposals they
/// make, and every proposal comes from one of those footpaths.
proof fn lemma_footpath_proposals_fp(
    repo: Repository,
    tau: Seq<Option<Time>>,
    labels: Seq<Option<Time>>,
    target: Time,
    stops: Seq<usize>,
    reverse: bool,
)
    ensures
        forall|i: int, c: u32, d: int|
            0 <= i < stops.len() && #[trigger] footpath_ok(repo, stops[i] as int, c, d) ==> covered_dir(
                footpath_proposals(repo, tau, labels, target, stops, reverse),
                tau,
                target,
                c,
                fp_time(labels, stops[i] as int, d, reverse),
                reverse,
            ),
        forall|m: int|
            0 <= m < footpath_proposals(repo, tau, labels, target, stops, reverse).len() ==> fp_from(
                repo,
                stops,
                labels,
                #[trigger] footpath_proposals(repo, tau, labels, target, stops, reverse)[m],
                reverse,
            ),
    decreases stops.len(),
{
    if stops.len() > 0 {
        let init = stops.drop_last();
        lemma_footpath_proposals_fp(repo, tau, labels, target, init, reverse);
        let sl = stops.last();
        let a = sl as int;
        assert(stops[stops.len() - 1] == sl);
        let xs = repo.stop_to_transfers@[a]@;
        let ws = repo.stop_to_walk_stop@[a]@;
        lemma_transfer_proposals_fp(repo, tau, labels, target, a, xs, reverse);
        lemma_walk_proposals_fp(tau, labels, target, a, ws, reverse);
        let u0 = footpath_proposals(repo, tau, labels, target, init, reverse);
        let u1 = transfer_proposals(repo, tau, labels, target, a, xs, reverse);
        let u2 = walk_proposals(tau, labels, target, a, ws, reverse);
        let all = footpath_proposals(repo, tau, labels, target, stops, reverse);
        assert(all == u0 + u1 + u2);
        assert forall|i: int, c: u32, d: int|
            0 <= i < stops.len() && #[trigger] footpath_ok(repo, stops[i] as int, c, d) implies covered_dir(
            all,
            tau,
            target,
            c,
            fp_time(labels, stops[i] as int, d, reverse),
            reverse,
        ) by {
            let t = fp_time(labels, stops[i] as int, d, reverse);
            if i < init.len() {
                assert(init[i] == stops[i]);
                assert(footpath_ok(repo, init[i] as int, c, d));
            } else {
                if exists|k: int|
                    0 <= k < xs.len() && repo.transfers@[(#[trigger] xs[k]) as int].to_stop_idx == c && transfer_time(
                        repo.transfers@[xs[k] as int],
                    ).0 == d {
                    let k = choose|k: int|
                        0 <= k < xs.len() && repo.transfers@[(#[trigger] xs[k]) as int].to_stop_idx == c && transfer_time(
                            repo.transfers@[xs[k] as int],
                        ).0 == d;
                    assert(covered_dir(
                        u1,
                        tau,
                        target,
                        repo.transfers@[xs[k] as int].to_stop_idx,
                        fp_time(labels, a, transfer_time(repo.transfers@[xs[k] as int]).0 as int, reverse),
                        reverse,
                    ));
                } else {
                    let k = choose|k: int| 0 <= k < ws.len() && (#[trigger] ws[k]).to_stop_idx == c && ws[k].duration.0 == d;
                    assert(covered_dir(u2, tau, target, ws[k].to_stop_idx, fp_time(labels, a, ws[k].duration.0 as int, reverse), reverse));
                }
            }
            lemma_covered_concat(u0, u1, u2, tau, target, c, t, reverse);
        }
        assert forall|m: int| 0 <= m < all.len() implies fp_from(repo, stops, labels, #[trigger] all[m], reverse) by {
            if m < u0.len() {
                assert(all[m] == u0[m]);
                assert(fp_from(repo, init, labels, u0[m], reverse));
                let (i, d) = choose|i: int, d: int|
                    0 <= i < init.len() && footpath_ok(repo, init[i] as int, u0[m].stop_idx, d)
                        && u0[m].arrival_time.0 == fp_time(labels, init[i] as int, d, reverse);
                assert(init[i] == stops[i]);
            } else if m < u0.len() + u1.len() {
                let mm = m - u0.len();
                assert(all[m] == u1[mm]);
                let k = choose|k: int|
                    0 <= k < xs.len() && repo.transfers@[xs[k] as int].to_stop_idx == (#[trigger] u1[mm]).stop_idx
                        && u1[mm].arrival_time.0 == fp_time(labels, a, transfer_time(repo.transfers@[xs[k] as int]).0 as int, reverse);
                let d = transfer_time(repo.transfers@[xs[k] as int]).0 as int;
                assert(footpath_ok(repo, a, u1[mm].stop_idx, d));
                assert(stops[stops.len() - 1] as int == a);
            } else {
                let mm = m - u0.len() - u1.len();
                assert(all[m] == u2[mm]);
                let k = choose|k: int|
                    0 <= k < ws.len() && ws[k].to_stop_idx == (#[trigger] u2[mm]).stop_idx && u2[mm].arrival_time.0
                        == fp_time(labels, a, ws[k].duration.0 as int, reverse);
                let d = ws[k].duration.0 as int;
                assert(footpath_ok(repo, a, u2[mm].stop_idx, d));
                assert(stops[stops.len() - 1] as int == a);
            }
        }
    }
}

/// A footpath out of a stop of the repository leads to a stop of it and
/// takes no negative time.
proof fn lemma_footpath_dest(repo: Repository, a: int, c: u32, d: int)
    requires
        repo.wf(),
        0 <= a < repo.stops@.len(),
        footpath_ok(repo, a, c, d),
    ensures
        c < repo.stops@.len(),
        d >= 0,
{
    let xs = repo.stop_to_transfers@[a]@;
    if exists|k: int|
        0 <= k < xs.len() && repo.transfers@[(#[trigger] xs[k]) as int].to_stop_idx == c && transfer_time(
            repo.transfers@[xs[k] as int],
        ).0 == d {
        let k = choose|k: int|
            0 <= k < xs.len() && repo.transfers@[(#[trigger] xs[k]) as int].to_stop_idx == c && transfer_time(
                repo.transfers@[xs[k] as int],
            ).0 == d;
        assert(xs[k] < repo.transfers@.len());
    } else {
        let ws = repo.stop_to_walk_stop@[a]@;
        let k = choose|k: int| 0 <= k < ws.len() && (#[trigger] ws[k]).to_stop_idx == c && ws[k].duration.0 == d;
        assert(ws[k].to_stop_idx < repo.stops@.len());
    }
}

/// Every footpath out of stop `a` is matched in `w` when left at `y`.
pub open spec fn fp_done(repo: Repository, w: SearchView, a: int, y: int) -> bool {
    forall|c: u32, d: int| #[trigger] footpath_ok(repo, a, c, d) ==> covers(w, c, y + d)
}

/// Every stop with a best time has had its footpaths matched from then,
/// or was reached by a footpath, no later than that time, from a stop
/// whose footpaths were matched when it was left.
pub open spec fn footpaths_settled(repo: Repository, w: SearchView) -> bool {
    forall|s: int|
        0 <= s < repo.stops@.len() ==> (#[trigger] w.tau[s] matches Some(x) ==> fp_done(repo, w, s, x.0 as int) || exists|
            a: int,
            y: int,
            d: int,
        |
            #![trigger footpath_ok(repo, a, s as u32, d), fp_done(repo, w, a, y)]
            0 <= a < repo.stops@.len() && footpath_ok(repo, a, s as u32, d) && y + d <= x.0 && fp_done(
                repo,
                w,
                a,
                y,
            ) && covers(w, a as u32, y))
}

/// What footpaths matched stays matched when best times and the target's
/// only improve.
proof fn lemma_fp_done_mono(repo: Repository, w: SearchView, w2: SearchView, a: int, y: int)
    requires
        repo.wf(),
        0 <= a < repo.stops@.len(),
        fp_done(repo, w, a, y),
        forall|x: int| 0 <= x < repo.stops@.len() ==> no_later(#[trigger] w2.tau[x], w.tau[x]),
        w2.target.0.0 <= w.target.0.0,
    ensures
        fp_done(repo, w2, a, y),
{
    assert forall|c: u32, d: int| #[trigger] footpath_ok(repo, a, c, d) implies covers(w2, c, y + d) by {
        lemma_footpath_dest(repo, a, c, d);
        lemma_covers_mono(repo, w, w2, c, y + d);
    }
}

/// A stop matched by updates has, once they are applied forward, a best
/// time no later than the match, unless the target's time is.
proof fn lemma_covered_apply(st: LabelState, round: int, n: int, us: Seq<Update>, tv: Time, c: u32, t: int)
    requires
        stops_below(us, st.0.len() as int),
        c < st.0.len(),
        covered(us, st.0, tv, c, t),
    ensures
        (apply_updates(st, round, n, us, false).0[c as int] matches Some(x) && x.0 <= t) || tv.0 <= t,
{
    let res = apply_updates(st, round, n, us, false);
    lemma_apply_mono(st, round, n, us);
    if exists|m: int| 0 <= m < us.len() && (#[trigger] us[m]).stop_idx == c && us[m].arrival_time.0 <= t {
        let m = choose|m: int| 0 <= m < us.len() && (#[trigger] us[m]).stop_idx == c && us[m].arrival_time.0 <= t;
        if us[m].arrival_time.0 < u32::MAX {
            lemma_apply_has(st, round, n, us, m);
        }
    } else if st.0[c as int] matches Some(x) && x.0 <= t {
        assert(no_later(res.0[c as int], st.0[c as int]));
    }
}

/// A best time that applying updates forward changes is the arrival of
/// one of the updates for that stop.
proof fn lemma_apply_from(st: LabelState, round: int, n: int, us: Seq<Update>, reverse: bool)
    requires
        stops_below(us, st.0.len() as int),
    ensures
        apply_updates(st, round, n, us, reverse).0.len() == st.0.len(),
        forall|s: int|
            0 <= s < st.0.len() && #[trigger] apply_updates(st, round, n, us, reverse).0[s] != st.0[s] ==> exists|m: int|
                0 <= m < us.len() && (#[trigger] us[m]).stop_idx == s && apply_updates(st, round, n, us, reverse).0[s]
                    == Some(us[m].arrival_time),
    decreases us.len(),
{
    if us.len() > 0 {
        let init = us.drop_last();
        assert forall|k: int| 0 <= k < init.len() implies #[trigger] init[k].stop_idx < st.0.len() by {
            assert(init[k] == us[k]);
        }
        lemma_apply_from(st, round, n, init, reverse);
        let pre = apply_updates(st, round, n, init, reverse);
        let u = us.last();
        assert(us[us.len() - 1] == u);
        let res = apply_update(pre, round, n, u, reverse);
        assert(apply_updates(st, round, n, us, reverse) == res);
        assert forall|s: int| 0 <= s < st.0.len() && #[trigger] res.0[s] != st.0[s] implies exists|m: int|
            0 <= m < us.len() && (#[trigger] us[m]).stop_idx == s && res.0[s] == Some(us[m].arrival_time) by {
            if res.0[s] == pre.0[s] {
                let m = choose|m: int| 0 <= m < init.len() && (#[trigger] init[m]).stop_idx == s && pre.0[s] == Some(init[m].arrival_time);
                assert(init[m] == us[m]);
            }
        }
    }
}

/// A round forward keeps every stop's footpaths settled: the footpaths out
/// of each stop its rides improved are matched from the time they reached
/// it.
proof fn lemma_round_footpaths(repo: Repository, v: SearchView, targets: Seq<u32>, round: int)
    requires
        repo.wf(),
        v.tau.len() == repo.stops@.len(),
        footpaths_settled(repo, v),
    ensures
        footpaths_settled(repo, round_step(repo, v, targets, round, true)),
{
    let n = repo.stops@.len() as int;
    let w = round_step(repo, v, targets, round, true);
    let mid = round_start(repo, v, true);
    let qs = set_positions(mid.mask);
    lemma_set_positions(mid.mask);
    let props = route_proposals(repo, mid, qs);
    lemma_route_proposals_below(repo, mid, qs);
    let st0: LabelState = (mid.tau, mid.curr, mid.parents, mid.marks);
    lemma_apply_changed(st0, round, n, props);
    lemma_apply_mono(st0, round, n, props);
    let rides = apply_updates(st0, round, n, props, false);
    let stops = set_positions(rides.3);
    lemma_set_positions(rides.3);
    let fps = footpath_proposals(repo, rides.0, rides.1, v.target.0, stops, false);
    lemma_footpath_proposals_below(repo, rides.0, rides.1, v.target.0, stops, false);
    lemma_footpath_proposals_fp(repo, rides.0, rides.1, v.target.0, stops, false);
    lemma_apply_mono(rides, round, n, fps);
    lemma_apply_from(rides, round, n, fps, false);
    let fin = apply_updates(rides, round, n, fps, false);
    lemma_round_mono(repo, v, targets, round);
    assert(w.tau == fin.0);
    assert forall|a: int| 0 <= a < n && #[trigger] rides.3[a] implies (rides.1[a] matches Some(y) && rides.0[a] == Some(y)
        && fp_done(repo, w, a, y.0 as int)) by {
        assert(!st0.3[a]);
        let y = rides.0[a]->Some_0;
        assert(stops.contains(a as usize));
        let i = choose|i: int| 0 <= i < stops.len() && stops[i] == a as usize;
        assert forall|c: u32, d: int| #[trigger] footpath_ok(repo, a, c, d) implies covers(w, c, y.0 + d) by {
            assert(footpath_ok(repo, stops[i] as int, c, d));
            lemma_footpath_dest(repo, a, c, d);
            lemma_covered_apply(rides, round, n, fps, v.target.0, c, y.0 + d);
        }
    }
    assert forall|s: int| 0 <= s < n implies (#[trigger] w.tau[s] matches Some(x) ==> fp_done(repo, w, s, x.0 as int)
        || exists|a: int, y: int, d: int|
        #![trigger footpath_ok(repo, a, s as u32, d), fp_done(repo, w, a, y)]
        0 <= a < n && footpath_ok(repo, a, s as u32, d) && y + d <= x.0 && fp_done(repo, w, a, y) && covers(
            w,
            a as u32,
            y,
        )) by {
        if let Some(x) = w.tau[s] {
            if w.tau[s] == v.tau[s] {
                if fp_done(repo, v, s, x.0 as int) {
                    lemma_fp_done_mono(repo, v, w, s, x.0 as int);
                } else {
                    let (a, y, d) = choose|a: int, y: int, d: int|
                        #![trigger footpath_ok(repo, a, s as u32, d), fp_done(repo, v, a, y)]
                        0 <= a < n && footpath_ok(repo, a, s as u32, d) && y + d <= x.0 && fp_done(repo, v, a, y)
                            && covers(v, a as u32, y);
                    lemma_fp_done_mono(repo, v, w, a, y);
                    lemma_covers_mono(repo, v, w, a as u32, y);
                    assert(footpath_ok(repo, a, s as u32, d) && fp_done(repo, w, a, y));
                }
            } else if fin.0[s] == rides.0[s] {
                assert(rides.0[s] != st0.0[s]);
                assert(rides.3[s]);
            } else {
                let m = choose|m: int|
                    0 <= m < fps.len() && (#[trigger] fps[m]).stop_idx == s && fin.0[s] == Some(fps[m].arrival_time);
                assert(fp_from(repo, stops, rides.1, fps[m], false));
                let (i, d) = choose|i: int, d: int|
                    0 <= i < stops.len() && footpath_ok(repo, stops[i] as int, fps[m].stop_idx, d)
                        && fps[m].arrival_time.0 == fp_time(rides.1, stops[i] as int, d, false);
                let a = stops[i] as int;
                assert(rides.3[a]);
                let y = rides.1[a]->Some_0;
                assert(no_later(fin.0[a], rides.0[a]));
                assert(fps[m].stop_idx == s as u32);
                assert(footpath_ok(repo, a, s as u32, d) && fp_done(repo, w, a, y.0 as int));
            }
        }
    }
}

/// Where footpaths are settled and compose, a footpath out of a stop
/// matched by `a` is matched by `a` plus its time.
proof fn lemma_arrive(repo: Repository, w: SearchView, s: u32, a: int, c: u32, d: int)
    requires
        repo.wf(),
        footpaths_closed(repo),
        w.tau.len() == repo.stops@.len(),
        footpaths_settled(repo, w),
        s < repo.stops@.len(),
        covers(w, s, a),
        footpath_ok(repo, s as int, c, d),
    ensures
        covers(w, c, a + d),
{
    lemma_footpath_dest(repo, s as int, c, d);
    if w.target.0.0 > a {
        let x = w.tau[s as int]->Some_0;
        assert(w.tau[s as int] == Some(x));
        if fp_done(repo, w, s as int, x.0 as int) {
            assert(footpath_ok(repo, s as int, c, d));
        } else {
            let (b, y, d1) = choose|b: int, y: int, d1: int|
                #![trigger footpath_ok(repo, b, (s as int) as u32, d1), fp_done(repo, w, b, y)]
                0 <= b < repo.stops@.len() && footpath_ok(repo, b, (s as int) as u32, d1) && y + d1 <= x.0 && fp_done(
                    repo,
                    w,
                    b,
                    y,
                ) && covers(w, b as u32, y);
            assert((s as int) as u32 == s);
            lemma_footpath_dest(repo, b, s, d1);
            if b == c as int {
                assert(b as u32 == c);
            } else {
                assert(footpath_ok(repo, b, (s as int) as u32, d1) && footpath_ok(repo, s as int, c, d) && b != c);
                let d3 = choose|d3: int| #[trigger] footpath_ok(repo, b, c, d3) && d3 <= d1 + d;
                assert(covers(w, c, y + d3));
            }
        }
    }
}

/// Every footpath out of stop `a` is matched backwards in `w` when `a` must
/// be reached by `y`.
pub open spec fn fp_done_back(repo: Repository, w: SearchView, a: int, y: int) -> bool {
    forall|c: u32, d: int| #[trigger] footpath_ok(repo, a, c, d) ==> covers_back(w, c, y - d)
}

/// Every stop with a best time has had its footpaths matched backwards from
/// then, or was reached backwards by a footpath, no earlier than that
/// time, from a stop whose footpaths were matched when it was reached.
pub open spec fn footpaths_settled_back(repo: Repository, w: SearchView) -> bool {
    forall|s: int|
        0 <= s < repo.stops@.len() ==> (#[trigger] w.tau[s] matches Some(x) ==> fp_done_back(repo, w, s, x.0 as int)
            || exists|a: int, y: int, d: int|
            #![trigger footpath_ok(repo, a, s as u32, d), fp_done_back(repo, w, a, y)]
            0 <= a < repo.stops@.len() && footpath_ok(repo, a, s as u32, d) && y - d >= x.0 && fp_done_back(repo, w, a, y)
                && covers_back(w, a as u32, y))
}

/// What footpaths matched backwards stays matched when best times only
/// get later.
proof fn lemma_fp_done_back_mono(repo: Repository, w: SearchView, w2: SearchView, a: int, y: int)
    requires
        repo.wf(),
        0 <= a < repo.stops@.len(),
        fp_done_back(repo, w, a, y),
        forall|x: int| 0 <= x < repo.stops@.len() ==> no_earlier(#[trigger] w2.tau[x], w.tau[x]),
    ensures
        fp_done_back(repo, w2, a, y),
{
    assert forall|c: u32, d: int| #[trigger] footpath_ok(repo, a, c, d) implies covers_back(w2, c, y - d) by {
        lemma_footpath_dest(repo, a, c, d);
        assert(no_earlier(w2.tau[c as int], w.tau[c as int]));
    }
}

/// A stop matched by updates has, once they are applied backwards, a best
/// time no earlier than the match, unless the match is the first second.
proof fn lemma_covered_apply_back(st: LabelState, round: int, n: int, us: Seq<Update>, c: u32, t: int)
    requires
        stops_below(us, st.0.len() as int),
        st.1.len() == st.0.len(),
        st.3.len() == st.0.len(),
        c < st.0.len(),
        covered_back(us, st.0, c, t),
    ensures
        (apply_updates(st, round, n, us, true).0[c as int] matches Some(x) && x.0 >= t) || t <= 0,
{
    let res = apply_updates(st, round, n, us, true);
    lemma_apply_back(st, round, n, us);
    if t > 0 {
        if exists|m: int| 0 <= m < us.len() && (#[trigger] us[m]).stop_idx == c && us[m].arrival_time.0 >= t {
            let m = choose|m: int| 0 <= m < us.len() && (#[trigger] us[m]).stop_idx == c && us[m].arrival_time.0 >= t;
            lemma_apply_back_has(st, round, n, us, m);
        } else {
            assert(no_earlier(res.0[c as int], st.0[c as int]));
        }
    }
}

/// A round backwards keeps every stop's footpaths settled: the footpaths
/// out of each stop its rides improved are matched from the time they must
/// reach it by.
proof fn lemma_round_footpaths_back(repo: Repository, v: SearchView, targets: Seq<u32>, round: int)
    requires
        repo.wf(),
        v.tau.len() == repo.stops@.len(),
        footpaths_settled_back(repo, v),
    ensures
        footpaths_settled_back(repo, round_step(repo, v, targets, round, false)),
{
    let n = repo.stops@.len() as int;
    let w = round_step(repo, v, targets, round, false);
    let mid = round_start(repo, v, false);
    let qs = set_positions(mid.mask);
    lemma_set_positions(mid.mask);
    let props = reverse_route_proposals(repo, mid, qs);
    lemma_reverse_proposals_below(repo, mid, qs);
    let st0: LabelState = (mid.tau, mid.curr, mid.parents, mid.marks);
    lemma_apply_back(st0, round, n, props);
    let rides = apply_updates(st0, round, n, props, true);
    let stops = set_positions(rides.3);
    lemma_set_positions(rides.3);
    let fps = footpath_proposals(repo, rides.0, rides.1, v.target.0, stops, true);
    lemma_footpath_proposals_below(repo, rides.0, rides.1, v.target.0, stops, true);
    lemma_footpath_proposals_fp(repo, rides.0, rides.1, v.target.0, stops, true);
    lemma_apply_back(rides, round, n, fps);
    lemma_apply_from(rides, round, n, fps, true);
    let fin = apply_updates(rides, round, n, fps, true);
    lemma_round_back(repo, v, targets, round);
    assert(w.tau == fin.0);
    assert forall|a: int| 0 <= a < n && #[trigger] rides.3[a] implies (rides.1[a] matches Some(y) && rides.0[a] == Some(y)
        && fp_done_back(repo, w, a, y.0 as int)) by {
        assert(!st0.3[a]);
        let y = rides.0[a]->Some_0;
        assert(stops.contains(a as usize));
        let i = choose|i: int| 0 <= i < stops.len() && stops[i] == a as usize;
        assert forall|c: u32, d: int| #[trigger] footpath_ok(repo, a, c, d) implies covers_back(w, c, y.0 - d) by {
            assert(footpath_ok(repo, stops[i] as int, c, d));
            lemma_footpath_dest(repo, a, c, d);
            lemma_covered_apply_back(rides, round, n, fps, c, y.0 - d);
        }
    }
    assert forall|s: int| 0 <= s < n implies (#[trigger] w.tau[s] matches Some(x) ==> fp_done_back(repo, w, s, x.0 as int)
        || exists|a: int, y: int, d: int|
        #![trigger footpath_ok(repo, a, s as u32, d), fp_done_back(repo, w, a, y)]
        0 <= a < n && footpath_ok(repo, a, s as u32, d) && y - d >= x.0 && fp_done_back(repo, w, a, y) && covers_back(
            w,
            a as u32,
            y,
        )) by {
        if let Some(x) = w.tau[s] {
            if w.tau[s] == v.tau[s] {
                if fp_done_back(repo, v, s, x.0 as int) {
                    lemma_fp_done_back_mono(repo, v, w, s, x.0 as int);
                } else {
                    let (a, y, d) = choose|a: int, y: int, d: int|
                        #![trigger footpath_ok(repo, a, s as u32, d), fp_done_back(repo, v, a, y)]
                        0 <= a < n && footpath_ok(repo, a, s as u32, d) && y - d >= x.0 && fp_done_back(repo, v, a, y)
                            && covers_back(v, a as u32, y);
                    lemma_fp_done_back_mono(repo, v, w, a, y);
                    assert(no_earlier(w.tau[a], v.tau[a]));
                    assert(footpath_ok(repo, a, s as u32, d) && fp_done_back(repo, w, a, y));
                }
            } else if fin.0[s] == rides.0[s] {
                assert(rides.0[s] != st0.0[s]);
                assert(rides.3[s]);
            } else {
                let m = choose|m: int|
                    0 <= m < fps.len() && (#[trigger] fps[m]).stop_idx == s && fin.0[s] == Some(fps[m].arrival_time);
                assert(fp_from(repo, stops, rides.1, fps[m], true));
                let (i, d) = choose|i: int, d: int|
                    0 <= i < stops.len() && footpath_ok(repo, stops[i] as int, fps[m].stop_idx, d)
                        && fps[m].arrival_time.0 == fp_time(rides.1, stops[i] as int, d, true);
                let a = stops[i] as int;
                assert(rides.3[a]);
                let y = rides.1[a]->Some_0;
                assert(no_earlier(fin.0[a], rides.0[a]));
                assert(fps[m].stop_idx == s as u32);
                assert(footpath_ok(repo, a, s as u32, d) && fp_done_back(repo, w, a, y.0 as int));
            }
        }
    }
}

/// Where footpaths are settled backwards and compose, a footpath out of a
/// stop matched backwards by `a` is matched by `a` less its time, at the
/// stop it leads to.
proof fn lemma_arrive_back(repo: Repository, w: SearchView, s: u32, a: int, c: u32, d: int)
    requires
        repo.wf(),
        footpaths_closed(repo),
        w.tau.len() == repo.stops@.len(),
        footpaths_settled_back(repo, w),
        s < repo.stops@.len(),
        covers_back(w, s, a),
        footpath_ok(repo, s as int, c, d),
    ensures
        covers_back(w, c, a - d),
{
    lemma_footpath_dest(repo, s as int, c, d);
    if a - d > 0 {
        let x = w.tau[s as int]->Some_0;
        assert(w.tau[s as int] == Some(x));
        if fp_done_back(repo, w, s as int, x.0 as int) {
            assert(footpath_ok(repo, s as int, c, d));
            assert(covers_back(w, c, x.0 - d));
        } else {
            let (b, y, d1) = choose|b: int, y: int, d1: int|
                #![trigger footpath_ok(repo, b, (s as int) as u32, d1), fp_done_back(repo, w, b, y)]
                0 <= b < repo.stops@.len() && footpath_ok(repo, b, (s as int) as u32, d1) && y - d1 >= x.0
                    && fp_done_back(repo, w, b, y) && covers_back(w, b as u32, y);
            assert((s as int) as u32 == s);
            lemma_footpath_dest(repo, b, s, d1);
            if b == c as int {
                assert(b as u32 == c);
            } else {
                assert(footpath_ok(repo, b, (s as int) as u32, d1) && footpath_ok(repo, s as int, c, d) && b != c);
                let d3 = choose|d3: int| #[trigger] footpath_ok(repo, b, c, d3) && d3 <= d1 + d;
                assert(covers_back(w, c, y - d3));
            }
        }
    }
}

/// Every update leaves no later than it arrives.
pub open spec fn updates_forward(us: Seq<Update>) -> bool {
    forall|k: int| 0 <= k < us.len() ==> (#[trigger] us[k]).parent.departure_time.0 <= us[k].parent.arrival_time.0
}

/// Updates made of two runs that each leave no later than they arrive.
proof fn lemma_updates_forward_concat(a: Seq<Update>, b: Seq<Update>)
    requires
        updates_forward(a),
        updates_forward(b),
    ensures
        updates_forward(a + b),
{
    assert forall|k: int| 0 <= k < (a + b).len() implies (#[trigger] (a + b)[k]).parent.departure_time.0 <= (a
        + b)[k].parent.arrival_time.0 by {
        if k >= a.len() {
            assert((a + b)[k] == b[k - a.len()]);
        }
    }
}

/// Where trips run forward in time, a forward scan proposes rides that
/// leave no later than they arrive, and the trip it rides was boarded
/// before position `p`.
proof fn lemma_scan_forward_fwd(repo: Repository, v: SearchView, q: int, p: int)
    requires
        rides_forward(repo),
        0 <= q < repo.raptor_routes@.len(),
        p <= repo.raptor_routes@[q].stops@.len(),
    ensures
        updates_forward(scan_forward(repo, v, q, p).0),
        scan_forward(repo, v, q, p).1 >= 0 ==> 0 <= scan_forward(repo, v, q, p).2 < p,
    decreases p,
{
    if !(p <= v.active[q] || p <= 0) {
        lemma_scan_forward_fwd(repo, v, q, p - 1);
        lemma_scan_trip_range(repo, v, q, p - 1);
        let (us, k, b) = scan_forward(repo, v, q, p - 1);
        let j = p - 1;
        let all = scan_forward(repo, v, q, p).0;
        if k >= 0 {
            assert(ride_valid(repo, q, k, b, j));
        }
        assert forall|m: int| 0 <= m < all.len() implies (#[trigger] all[m]).parent.departure_time.0
            <= all[m].parent.arrival_time.0 by {
            if m < us.len() {
                assert(all[m] == us[m]);
            }
        }
    }
}

/// Where trips run forward in time, forward scans propose rides that leave
/// no later than they arrive.
proof fn lemma_route_proposals_fwd(repo: Repository, v: SearchView, qs: Seq<usize>)
    requires
        rides_forward(repo),
        forall|k: int| 0 <= k < qs.len() ==> #[trigger] qs[k] < repo.raptor_routes@.len(),
    ensures
        updates_forward(route_proposals(repo, v, qs)),
    decreases qs.len(),
{
    if qs.len() > 0 {
        let init = qs.drop_last();
        assert forall|k: int| 0 <= k < init.len() implies #[trigger] init[k] < repo.raptor_routes@.len() by {
            assert(init[k] == qs[k]);
        }
        lemma_route_proposals_fwd(repo, v, init);
        let q = qs.last() as int;
        assert(qs[qs.len() - 1] == qs.last());
        lemma_scan_forward_fwd(repo, v, q, repo.raptor_routes@[q].stops@.len() as int);
        lemma_updates_forward_concat(
            route_proposals(repo, v, init),
            scan_forward(repo, v, q, repo.raptor_routes@[q].stops@.len() as int).0,
        );
    }
}

/// Where trips run forward in time, a backward scan proposes rides that
/// leave no later than they arrive, and the trip it rides is left at or
/// after position `next`.
proof fn lemma_scan_backward_fwd(repo: Repository, v: SearchView, q: int, next: int)
    requires
        rides_forward(repo),
        0 <= q < repo.raptor_routes@.len(),
        v.active[q] < repo.raptor_routes@[q].stops@.len(),
    ensures
        updates_forward(scan_backward(repo, v, q, next).0),
        scan_backward(repo, v, q, next).1 >= 0 ==> next <= scan_backward(repo, v, q, next).2
            < repo.raptor_routes@[q].stops@.len(),
    decreases v.active[q] + 1 - next,
{
    let pa = v.active[q] as int;
    if !(next >= pa + 1 || next < 0) {
        lemma_scan_backward_fwd(repo, v, q, next + 1);
        lemma_scan_back_trip_range(repo, v, q, next + 1);
        let (us, k, b) = scan_backward(repo, v, q, next + 1);
        let all = scan_backward(repo, v, q, next).0;
        if k >= 0 {
            assert(ride_valid(repo, q, k, next, b));
        }
        assert forall|m: int| 0 <= m < all.len() implies (#[trigger] all[m]).parent.departure_time.0
            <= all[m].parent.arrival_time.0 by {
            if m < us.len() {
                assert(all[m] == us[m]);
            }
        }
    }
}

/// Where trips run forward in time, backward scans propose rides that
/// leave no later than they arrive.
proof fn lemma_reverse_route_proposals_fwd(repo: Repository, v: SearchView, qs: Seq<usize>)
    requires
        rides_forward(repo),
        forall|k: int| 0 <= k < qs.len() ==> #[trigger] qs[k] < repo.raptor_routes@.len(),
    ensures
        updates_forward(reverse_route_proposals(repo, v, qs)),
    decreases qs.len(),
{
    if qs.len() > 0 {
        let init = qs.drop_last();
        assert forall|k: int| 0 <= k < init.len() implies #[trigger] init[k] < repo.raptor_routes@.len() by {
            assert(init[k] == qs[k]);
        }
        lemma_reverse_route_proposals_fwd(repo, v, init);
        let q = qs.last() as int;
        assert(qs[qs.len() - 1] == qs.last());
        if v.active[q] < repo.raptor_routes@[q].stops@.len() {
            lemma_scan_backward_fwd(repo, v, q, 0);
        }
        lemma_updates_forward_concat(reverse_route_proposals(repo, v, init), reverse_scan(repo, v, q));
    }
}

/// A footpath's proposal leaves no later than it arrives.
proof fn lemma_fp_proposal_fwd(
    tau: Seq<Option<Time>>,
    labels: Seq<Option<Time>>,
    target: Time,
    a: int,
    c: u32,
    d: int,
    walk: bool,
    reverse: bool,
    us: Seq<Update>,
)
    requires
        d >= 0,
        updates_forward(us),
    ensures
        updates_forward(push_some(us, footpath_proposal(tau, labels, target, a, c, d, walk, reverse))),
{
    let all = push_some(us, footpath_proposal(tau, labels, target, a, c, d, walk, reverse));
    assert forall|m: int| 0 <= m < all.len() implies (#[trigger] all[m]).parent.departure_time.0
        <= all[m].parent.arrival_time.0 by {
        if m < us.len() {
            assert(all[m] == us[m]);
        }
    }
}

/// Transfers' proposals leave no later than they arrive.
proof fn lemma_transfer_proposals_fwd(
    repo: Repository,
    tau: Seq<Option<Time>>,
    labels: Seq<Option<Time>>,
    target: Time,
    a: int,
    xs: Seq<u32>,
    reverse: bool,
)
    ensures
        updates_forward(transfer_proposals(repo, tau, labels, target, a, xs, reverse)),
    decreases xs.len(),
{
    if xs.len() > 0 {
        lemma_transfer_proposals_fwd(repo, tau, labels, target, a, xs.drop_last(), reverse);
        let tr = repo.transfers@[xs.last() as int];
        lemma_fp_proposal_fwd(
            tau,
            labels,
            target,
            a,
            tr.to_stop_idx,
            transfer_time(tr).0 as int,
            false,
            reverse,
            transfer_proposals(repo, tau, labels, target, a, xs.drop_last(), reverse),
        );
    }
}

/// Walks' proposals leave no later than they arrive.
proof fn lemma_walk_proposals_fwd(
    tau: Seq<Option<Time>>,
    labels: Seq<Option<Time>>,
    target: Time,
    a: int,
    ws: Seq<Walk>,
    reverse: bool,
)
    ensures
        updates_forward(walk_proposals(tau, labels, target, a, ws, reverse)),
    decreases ws.len(),
{
    if ws.len() > 0 {
        lemma_walk_proposals_fwd(tau, labels, target, a, ws.drop_last(), reverse);
        let w = ws.last();
        lemma_fp_proposal_fwd(
            tau,
            labels,
            target,
            a,
            w.to_stop_idx,
            w.duration.0 as int,
            true,
            reverse,
            walk_proposals(tau, labels, target, a, ws.drop_last(), reverse),
        );
    }
}

/// Footpaths' proposals leave no later than they arrive.
proof fn lemma_footpath_proposals_fwd(
    repo: Repository,
    tau: Seq<Option<Time>>,
    labels: Seq<Option<Time>>,
    target: Time,
    stops: Seq<usize>,
    reverse: bool,
)
    ensures
        updates_forward(footpath_proposals(repo, tau, labels, target, stops, reverse)),
    decreases stops.len(),
{
    if stops.len() > 0 {
        let init = stops.drop_last();
        let s = stops.last() as int;
        lemma_footpath_proposals_fwd(repo, tau, labels, target, init, reverse);
        lemma_transfer_proposals_fwd(repo, tau, labels, target, s, repo.stop_to_transfers@[s]@, reverse);
        lemma_walk_proposals_fwd(tau, labels, target, s, repo.stop_to_walk_stop@[s]@, reverse);
        let u0 = footpath_proposals(repo, tau, labels, target, init, reverse);
        let u1 = transfer_proposals(repo, tau, labels, target, s, repo.stop_to_transfers@[s]@, reverse);
        let u2 = walk_proposals(tau, labels, target, s, repo.stop_to_walk_stop@[s]@, reverse);
        lemma_updates_forward_concat(u0, u1);
        lemma_updates_forward_concat(u0 + u1, u2);
    }
}

/// Applying updates that leave no later than they arrive keeps every
/// recorded parent so.
proof fn lemma_apply_fwd(st: LabelState, round: int, n: int, us: Seq<Update>, reverse: bool)
    requires
        0 <= round < MAX_ROUNDS,
        st.2.len() == n * MAX_ROUNDS,
        stops_below(us, n),
        parents_forward(st.2),
        updates_forward(us),
    ensures
        apply_updates(st, round, n, us, reverse).2.len() == n * MAX_ROUNDS,
        parents_forward(apply_updates(st, round, n, us, reverse).2),
    decreases us.len(),
{
    if us.len() > 0 {
        let init = us.drop_last();
        assert forall|k: int| 0 <= k < init.len() implies #[trigger] init[k].stop_idx < n by {
            assert(init[k] == us[k]);
        }
        assert forall|k: int| 0 <= k < init.len() implies (#[trigger] init[k]).parent.departure_time.0
            <= init[k].parent.arrival_time.0 by {
            assert(init[k] == us[k]);
        }
        lemma_apply_fwd(st, round, n, init, reverse);
        let pre = apply_updates(st, round, n, init, reverse);
        let u = us.last();
        assert(us[us.len() - 1] == u);
        lemma_flat(round, u.stop_idx as int, round, u.stop_idx as int, n, MAX_ROUNDS as int);
        let res = apply_update(pre, round, n, u, reverse);
        assert(apply_updates(st, round, n, us, reverse) == res);
        assert forall|j: int| 0 <= j < res.2.len() implies (#[trigger] res.2[j] matches Some(p) ==> p.departure_time.0
            <= p.arrival_time.0) by {
            assert(pre.2[j] matches Some(p) ==> p.departure_time.0 <= p.arrival_time.0);
        }
    }
}

/// Where trips run forward in time, a round keeps every recorded parent
/// leaving no later than it arrives.
proof fn lemma_round_fwd(repo: Repository, v: SearchView, targets: Seq<u32>, round: int, forward: bool)
    requires
        repo.wf(),
        rides_forward(repo),
        0 <= round < MAX_ROUNDS,
        v.tau.len() == repo.stops@.len(),
        v.parents.len() == repo.stops@.len() * MAX_ROUNDS,
        parents_forward(v.parents),
    ensures
        round_step(repo, v, targets, round, forward).tau.len() == repo.stops@.len(),
        round_step(repo, v, targets, round, forward).parents.len() == repo.stops@.len() * MAX_ROUNDS,
        parents_forward(round_step(repo, v, targets, round, forward).parents),
{
    let n = repo.stops@.len() as int;
    let mid = round_start(repo, v, forward);
    let qs = set_positions(mid.mask);
    lemma_set_positions(mid.mask);
    let st0: LabelState = (mid.tau, mid.curr, mid.parents, mid.marks);
    if forward {
        let props = route_proposals(repo, mid, qs);
        lemma_route_proposals_below(repo, mid, qs);
        lemma_route_proposals_fwd(repo, mid, qs);
        lemma_apply_fwd(st0, round, n, props, false);
        lemma_apply_changed(st0, round, n, props);
        lemma_apply_mono(st0, round, n, props);
        let rides = apply_updates(st0, round, n, props, false);
        lemma_set_positions(rides.3);
        let fps = footpath_proposals(repo, rides.0, rides.1, v.target.0, set_positions(rides.3), false);
        lemma_footpath_proposals_below(repo, rides.0, rides.1, v.target.0, set_positions(rides.3), false);
        lemma_footpath_proposals_fwd(repo, rides.0, rides.1, v.target.0, set_positions(rides.3), false);
        lemma_apply_fwd(rides, round, n, fps, false);
        lemma_round_mono(repo, v, targets, round);
    } else {
        let props = reverse_route_proposals(repo, mid, qs);
        lemma_reverse_proposals_below(repo, mid, qs);
        lemma_reverse_route_proposals_fwd(repo, mid, qs);
        lemma_apply_fwd(st0, round, n, props, true);
        lemma_apply_back(st0, round, n, props);
        let rides = apply_updates(st0, round, n, props, true);
        lemma_set_positions(rides.3);
        let fps = footpath_proposals(repo, rides.0, rides.1, v.target.0, set_positions(rides.3), true);
        lemma_footpath_proposals_below(repo, rides.0, rides.1, v.target.0, set_positions(rides.3), true);
        lemma_footpath_proposals_fwd(repo, rides.0, rides.1, v.target.0, set_positions(rides.3), true);
        lemma_apply_fwd(rides, round, n, fps, true);
        lemma_round_back(repo, v, targets, round);
    }
}

/// Where trips run forward in time, the rest of a search keeps every
/// recorded parent leaving no later than it arrives.
pub proof fn lemma_search_fwd(repo: Repository, v: SearchView, targets: Seq<u32>, round: int, forward: bool)
    requires
        repo.wf(),
        rides_forward(repo),
        v.tau.len() == repo.stops@.len(),
        v.parents.len() == repo.stops@.len() * MAX_ROUNDS,
        parents_forward(v.parents),
    ensures
        parents_forward(search(repo, v, targets, round, forward).parents),
    decreases MAX_ROUNDS - round,
{
    if !(round >= MAX_ROUNDS || round < 0 || none_marked(v.marks)) {
        lemma_round_fwd(repo, v, targets, round, forward);
        lemma_search_fwd(repo, round_step(repo, v, targets, round, forward), targets, round + 1, forward);
    }
}

/// A proposed footpath leg lasts the footpath's `d` seconds.
proof fn lemma_fp_proposal_lasts(
    tau: Seq<Option<Time>>,
    labels: Seq<Option<Time>>,
    target: Time,
    a: int,
    c: u32,
    d: int,
    walk: bool,
    reverse: bool,
)
    requires
        d >= 0,
    ensures
        footpath_proposal(tau, labels, target, a, c, d, walk, reverse) matches Some(u) ==> u.stop_idx == c
            && u.parent.arrival_time.0 - u.parent.departure_time.0 == d,
{
}

/// Every leg that the transfers `xs` out of stop `a` propose goes to the
/// stop of one of them and lasts that transfer's minimum transfer time, or
/// its walking time when it has none, searching forward or backwards.
pub proof fn lemma_transfer_legs_last(
    repo: Repository,
    tau: Seq<Option<Time>>,
    labels: Seq<Option<Time>>,
    target: Time,
    a: int,
    xs: Seq<u32>,
    reverse: bool,
)
    ensures
        forall|m: int|
            0 <= m < transfer_proposals(repo, tau, labels, target, a, xs, reverse).len() ==> exists|k: int|
                #![trigger xs[k]]
                0 <= k < xs.len() && {
                    let tr = repo.transfers@[xs[k] as int];
                    let u = #[trigger] transfer_proposals(repo, tau, labels, target, a, xs, reverse)[m];
                    &&& u.stop_idx == tr.to_stop_idx
                    &&& u.parent.parent_type == ParentType::Transfer
                    &&& tr.min_transfer_time matches Some(mt) ==> u.parent.arrival_time.0 - u.parent.departure_time.0
                        == mt.0
                    &&& tr.min_transfer_time is None ==> u.parent.arrival_time.0 - u.parent.departure_time.0
                        == tr.walk_time.0
                },
    decreases xs.len(),
{
    if xs.len() > 0 {
        let init = xs.drop_last();
        lemma_transfer_legs_last(repo, tau, labels, target, a, init, reverse);
        let pre = transfer_proposals(repo, tau, labels, target, a, init, reverse);
        let x = xs.last();
        assert(xs[xs.len() - 1] == x);
        let tr = repo.transfers@[x as int];
        let d = transfer_time(tr).0 as int;
        lemma_fp_proposal_lasts(tau, labels, target, a, tr.to_stop_idx, d, false, reverse);
        let all = transfer_proposals(repo, tau, labels, target, a, xs, reverse);
        let o = footpath_proposal(tau, labels, target, a, tr.to_stop_idx, d, false, reverse);
        assert(all == push_some(pre, o));
        assert forall|m: int| 0 <= m < all.len() implies exists|k: int|
            #![trigger xs[k]]
            0 <= k < xs.len() && {
                let tr = repo.transfers@[xs[k] as int];
                let u = #[trigger] all[m];
                &&& u.stop_idx == tr.to_stop_idx
                &&& u.parent.parent_type == ParentType::Transfer
                &&& tr.min_transfer_time matches Some(mt) ==> u.parent.arrival_time.0 - u.parent.departure_time.0 == mt.0
                &&& tr.min_transfer_time is None ==> u.parent.arrival_time.0 - u.parent.departure_time.0 == tr.walk_time.0
            } by {
            if m < pre.len() {
                assert(all[m] == pre[m]);
                let k = choose|k: int|
                    #![trigger init[k]]
                    0 <= k < init.len() && {
                        let tr = repo.transfers@[init[k] as int];
                        let u = #[trigger] pre[m];
                        &&& u.stop_idx == tr.to_stop_idx
                        &&& u.parent.parent_type == ParentType::Transfer
                        &&& tr.min_transfer_time matches Some(mt) ==> u.parent.arrival_time.0 - u.parent.departure_time.0
                            == mt.0
                        &&& tr.min_transfer_time is None ==> u.parent.arrival_time.0 - u.parent.departure_time.0
                            == tr.walk_time.0
                    };
                assert(init[k] == xs[k]);
            } else {
                assert(all[m] == o->Some_0);
                let k = xs.len() - 1;
                assert(xs[k] == x);
            }
        }
    }
}

} // verus!
