//! Reconstructing the path of a search from its recorded parents.

use crate::raptor::allocator::{flat, lemma_flat, parent_wf, parents_forward, parents_land, parents_leave, Allocator, MAX_ROUNDS};
use crate::raptor::location::Point;
use crate::raptor::state::Parent;
use crate::raptor::timing::{label_of, link_time, linked, no_worse, parents_timed, source};
use crate::raptor::Error;
use crate::repository::Repository;
use crate::time::TimeConstraint;
use vstd::prelude::*;

verus! {

/// The legs connect: each one starts where the previous one ends.
pub open spec fn connected(path: Seq<Parent>) -> bool {
    forall|k: int| 0 <= k < path.len() - 1 ==> (#[trigger] path[k]).to == path[k + 1].from
}

/// Each leg arrives no later than the next one leaves.
pub open spec fn timed(path: Seq<Parent>) -> bool {
    forall|k: int| 0 <= k < path.len() - 1 ==> (#[trigger] path[k]).arrival_time.0 <= path[k + 1].departure_time.0
}

/// Following the parents from stop `s` in round `r` (to where each leg
/// starts, or ends when searching backwards; a ride steps back one round)
/// reaches a ride of round zero within `fuel` legs, every cell on the way
/// holding a parent.
pub open spec fn chain_ends(parents: Seq<Option<Parent>>, n: int, r: int, s: int, fuel: nat, reverse: bool) -> bool
    decreases fuel,
{
    if fuel == 0 {
        false
    } else {
        match parents[flat(r, s, n)] {
            None => false,
            Some(p) => {
                let next = match source(p, reverse) {
                    Point::Stop(b) => b as int,
                    Point::Coordinate => s,
                };
                if p.parent_type is Transit {
                    r == 0 || chain_ends(parents, n, r - 1, next, (fuel - 1) as nat, reverse)
                } else {
                    chain_ends(parents, n, r, next, (fuel - 1) as nat, reverse)
                }
            },
        }
    }
}

/// The legs met when following the parents from stop `s` in round `r` as
/// `chain_ends` does, in the order met: up to and with the transit leg of
/// round zero, or up to a cell without a parent or the end of `fuel`.
pub open spec fn chain_path(parents: Seq<Option<Parent>>, n: int, r: int, s: int, fuel: nat, reverse: bool) -> Seq<Parent>
    decreases fuel,
{
    if fuel == 0 {
        Seq::empty()
    } else {
        match parents[flat(r, s, n)] {
            None => Seq::empty(),
            Some(p) => {
                let next = match source(p, reverse) {
                    Point::Stop(b) => b as int,
                    Point::Coordinate => s,
                };
                if p.parent_type is Transit {
                    if r == 0 {
                        seq![p]
                    } else {
                        seq![p] + chain_path(parents, n, r - 1, next, (fuel - 1) as nat, reverse)
                    }
                } else {
                    seq![p] + chain_path(parents, n, r, next, (fuel - 1) as nat, reverse)
                }
            },
        }
    }
}

/// The legs of a chain in travel order: a search backwards met them in that
/// order already, a search forward met them from the last one back.
pub open spec fn travel_order(chain: Seq<Parent>, reverse: bool) -> Seq<Parent> {
    if reverse {
        chain
    } else {
        Seq::new(chain.len(), |k: int| chain[chain.len() - 1 - k])
    }
}

/// Follows the parents from `target_stop` in `target_round`: a transit leg
/// steps back one round, a transfer or walk stays in its round, and the
/// walk ends after the transit leg of round zero. A search forward from a
/// departure recorded for each stop the leg that reached it, so the walk
/// goes back along the legs (to where each one starts) and the path is then
/// put in travel order; a search backwards from an arrival recorded the leg
/// that leaves each stop, so the walk follows the legs forward (to where
/// each one ends) in travel order already. A stop without a parent, or a
/// chain that passes a (round, stop) cell twice and so would never end,
/// gives `FailedToBuildRoute`.
pub fn backtrack(
    repository: &Repository,
    allocator: &Allocator,
    target_stop: u32,
    target_round: usize,
    time_constraint: TimeConstraint,
) -> (r: Result<Vec<Parent>, Error>)
    requires
        repository.wf(),
        allocator.wf(repository.stops@.len() as int, repository.raptor_routes@.len() as int),
        target_stop < repository.stops@.len(),
        target_round < MAX_ROUNDS,
    ensures
        r is Ok <==> chain_ends(
            allocator.parents@,
            repository.stops@.len() as int,
            target_round as int,
            target_stop as int,
            (repository.stops@.len() * MAX_ROUNDS) as nat,
            time_constraint is Arrival,
        ),
        r matches Ok(path) ==> allocator.parents@[flat(
            target_round as int,
            target_stop as int,
            repository.stops@.len() as int,
        )] == Some(if time_constraint is Departure { path@.last() } else { path@[0] }),
        r matches Err(e) ==> e == Error::FailedToBuildRoute,
        r matches Ok(path) ==> path@ == travel_order(
            chain_path(
                allocator.parents@,
                repository.stops@.len() as int,
                target_round as int,
                target_stop as int,
                (repository.stops@.len() * MAX_ROUNDS) as nat,
                time_constraint is Arrival,
            ),
            time_constraint is Arrival,
        ),
        r matches Ok(path) ==> {
            &&& path@.len() >= 1
            &&& forall|k: int| 0 <= k < path@.len() ==> parent_wf(#[trigger] path@[k], repository.stops@.len() as int)
        },
        r matches Ok(path) ==> parents_forward(allocator.parents@) ==> forall|k: int|
            0 <= k < path@.len() ==> (#[trigger] path@[k]).departure_time.0 <= path@[k].arrival_time.0,
        r matches Ok(path) ==> parents_timed(
            allocator.parents@,
            repository.stops@.len() as int,
            time_constraint is Arrival,
        ) ==> timed(path@),
        r matches Ok(path) ==> time_constraint is Departure ==> {
            &&& path@[0].parent_type is Transit
            &&& exists|s: int|
                0 <= s < repository.stops@.len() && allocator.parents@[flat(0, s, repository.stops@.len() as int)]
                    == Some(path@[0])
            &&& parents_land(allocator.parents@, repository.stops@.len() as int) ==> {
                &&& connected(path@)
                &&& path@.last().to == Point::Stop(target_stop)
            }
        },
        r matches Ok(path) ==> time_constraint is Arrival ==> {
            &&& path@.last().parent_type is Transit
            &&& exists|s: int|
                0 <= s < repository.stops@.len() && allocator.parents@[flat(0, s, repository.stops@.len() as int)]
                    == Some(path@.last())
            &&& parents_leave(allocator.parents@, repository.stops@.len() as int) ==> {
                &&& connected(path@)
                &&& path@[0].from == Point::Stop(target_stop)
            }
        },
{
    let ghost n = repository.stops@.len() as int;
    let forward = match time_constraint {
        TimeConstraint::Departure(_) => true,
        TimeConstraint::Arrival(_) => false,
    };
    let mut pushed: Vec<Parent> = Vec::new();
    let mut current: u32 = target_stop;
    let mut current_round: usize = target_round;
    let mut fuel: usize = allocator.stop_count * MAX_ROUNDS;
    loop
        invariant_except_break
            pushed@.len() > 0 && parents_timed(allocator.parents@, n, !forward) ==> (allocator.parents@[flat(
                current_round as int,
                current as int,
                n,
            )] matches Some(q) ==> no_worse(label_of(q, !forward), link_time(pushed@.last(), !forward), !forward)),
            chain_ends(allocator.parents@, n, target_round as int, target_stop as int, (n * MAX_ROUNDS) as nat, !forward)
                == chain_ends(allocator.parents@, n, current_round as int, current as int, fuel as nat, !forward),
            pushed@ + chain_path(allocator.parents@, n, current_round as int, current as int, fuel as nat, !forward)
                == chain_path(allocator.parents@, n, target_round as int, target_stop as int, (n * MAX_ROUNDS) as nat, !forward),
        invariant
            pushed@.len() == 0 ==> current_round == target_round,
            repository.wf(),
            allocator.wf(n, repository.raptor_routes@.len() as int),
            n == repository.stops@.len(),
            forward == (time_constraint is Departure),
            current < n,
            current_round < MAX_ROUNDS,
            pushed@.len() == 0 ==> current == target_stop,
            pushed@.len() > 0 && forward ==> pushed@.last().from == Point::Stop(current),
            pushed@.len() > 0 && !forward ==> pushed@.last().to == Point::Stop(current),
            forward && parents_land(allocator.parents@, n) ==> {
                &&& pushed@.len() > 0 ==> pushed@[0].to == Point::Stop(target_stop)
                &&& forall|k: int| 0 <= k < pushed@.len() - 1 ==> (#[trigger] pushed@[k]).from == pushed@[k + 1].to
            },
            !forward && parents_leave(allocator.parents@, n) ==> {
                &&& pushed@.len() > 0 ==> pushed@[0].from == Point::Stop(target_stop)
                &&& forall|k: int| 0 <= k < pushed@.len() - 1 ==> (#[trigger] pushed@[k]).to == pushed@[k + 1].from
            },
            forall|k: int| 0 <= k < pushed@.len() ==> parent_wf(#[trigger] pushed@[k], n),
            parents_forward(allocator.parents@) ==> forall|k: int|
                0 <= k < pushed@.len() ==> (#[trigger] pushed@[k]).departure_time.0 <= pushed@[k].arrival_time.0,
            pushed@.len() > 0 ==> allocator.parents@[flat(target_round as int, target_stop as int, n)] == Some(
                pushed@[0],
            ),
            parents_timed(allocator.parents@, n, !forward) ==> forall|k: int|
                0 <= k < pushed@.len() - 1 ==> no_worse(
                    label_of(pushed@[k + 1], !forward),
                    link_time(#[trigger] pushed@[k], !forward),
                    !forward,
                ),
        ensures
            pushed@.len() > 0,
            chain_ends(allocator.parents@, n, target_round as int, target_stop as int, (n * MAX_ROUNDS) as nat, !forward),
            pushed@ == chain_path(allocator.parents@, n, target_round as int, target_stop as int, (n * MAX_ROUNDS) as nat, !forward),
            allocator.parents@[flat(target_round as int, target_stop as int, n)] == Some(pushed@[0]),
            pushed@.last().parent_type is Transit,
            exists|s: int| 0 <= s < n && allocator.parents@[flat(0, s, n)] == Some(pushed@.last()),
            forward && parents_land(allocator.parents@, n) ==> {
                &&& pushed@[0].to == Point::Stop(target_stop)
                &&& forall|k: int| 0 <= k < pushed@.len() - 1 ==> (#[trigger] pushed@[k]).from == pushed@[k + 1].to
            },
            !forward && parents_leave(allocator.parents@, n) ==> {
                &&& pushed@[0].from == Point::Stop(target_stop)
                &&& forall|k: int| 0 <= k < pushed@.len() - 1 ==> (#[trigger] pushed@[k]).to == pushed@[k + 1].from
            },
            forall|k: int| 0 <= k < pushed@.len() ==> parent_wf(#[trigger] pushed@[k], n),
            parents_forward(allocator.parents@) ==> forall|k: int|
                0 <= k < pushed@.len() ==> (#[trigger] pushed@[k]).departure_time.0 <= pushed@[k].arrival_time.0,
            parents_timed(allocator.parents@, n, !forward) ==> forall|k: int|
                0 <= k < pushed@.len() - 1 ==> no_worse(
                    label_of(pushed@[k + 1], !forward),
                    link_time(#[trigger] pushed@[k], !forward),
                    !forward,
                ),
        decreases fuel,
    {
        if fuel == 0 {
            return Err(Error::FailedToBuildRoute);
        }
        let ghost f0 = fuel;
        let ghost r0 = current_round;
        let ghost c0 = current;
        fuel = fuel - 1;
        let parents = allocator.get_parents(current_round);
        proof {
            lemma_flat(current_round as int, current as int, current_round as int, current as int, n, MAX_ROUNDS as int);
            assert(parents@[current as int] == allocator.parents@[flat(current_round as int, current as int, n)]);
        }
        let ghost read_at = current as int;
        match parents[current as usize] {
            Some(parent) => {
                assert(parents_land(allocator.parents@, n) ==> parent.to == Point::Stop(current));
                assert(parents_leave(allocator.parents@, n) ==> parent.from == Point::Stop(current));
                assert(parent_wf(parent, n));
                assert(parents_timed(allocator.parents@, n, !forward) ==> linked(
                    allocator.parents@,
                    current_round as int,
                    parent,
                    n,
                    !forward,
                ));
                let ghost before = pushed@;
                proof {
                    lemma_flat(current_round as int, current as int, current_round as int, current as int, n, MAX_ROUNDS as int);
                    let j = flat(current_round as int, current as int, n);
                    assert(allocator.parents@[j] == Some(parent));
                    assert(parents_forward(allocator.parents@) ==> parent.departure_time.0 <= parent.arrival_time.0);
                }
                pushed.push(parent);
                assert(pushed@.drop_last() == before);
                assert(pushed@ == before + seq![parent]);
                let next_point = if forward {
                    parent.from
                } else {
                    parent.to
                };
                let next = match next_point {
                    Point::Stop(f) => f,
                    Point::Coordinate => current,
                };
                current = next;
                if parent.parent_type.is_transit() {
                    if current_round == 0 {
                        assert(allocator.parents@[flat(0, read_at, n)] == Some(pushed@.last()));
                        assert(before + chain_path(allocator.parents@, n, r0 as int, c0 as int, f0 as nat, !forward) == pushed@);
                        break;
                    } else {
                        current_round = current_round - 1;
                    }
                }
                proof {
                    let rest = chain_path(allocator.parents@, n, current_round as int, current as int, fuel as nat, !forward);
                    assert(chain_path(allocator.parents@, n, r0 as int, c0 as int, f0 as nat, !forward) == seq![parent] + rest);
                    assert(pushed@ + rest =~= before + (seq![parent] + rest));
                }
            },
            None => {
                return Err(Error::FailedToBuildRoute);
            },
        }
    }
    if !forward {
        proof {
            if parents_timed(allocator.parents@, n, true) {
                assert forall|k: int| 0 <= k < pushed@.len() - 1 implies (#[trigger] pushed@[k]).arrival_time.0
                    <= pushed@[k + 1].departure_time.0 by {
                    assert(no_worse(label_of(pushed@[k + 1], true), link_time(pushed@[k], true), true));
                }
            }
            let s0 = choose|s: int| 0 <= s < n && allocator.parents@[flat(0, s, n)] == Some(pushed@.last());
            assert(0 <= s0 < n && allocator.parents@[flat(0, s0, n)] == Some(pushed@.last()));
        }
        return Ok(pushed);
    }
    let mut path: Vec<Parent> = Vec::new();
    let mut i: usize = pushed.len();
    while i > 0
        invariant
            i <= pushed@.len(),
            path@.len() == pushed@.len() - i,
            forall|k: int| 0 <= k < path@.len() ==> #[trigger] path@[k] == pushed@[pushed@.len() - 1 - k],
        decreases i,
    {
        path.push(pushed[i - 1]);
        i = i - 1;
    }
    proof {
        if parents_land(allocator.parents@, n) {
            assert forall|k: int| 0 <= k < path@.len() - 1 implies (#[trigger] path@[k]).to == path@[k + 1].from by {
                let j = pushed@.len() - 2 - k;
                assert(pushed@[j].from == pushed@[j + 1].to);
            }
        }
        if parents_timed(allocator.parents@, n, false) {
            assert forall|k: int| 0 <= k < path@.len() - 1 implies (#[trigger] path@[k]).arrival_time.0
                <= path@[k + 1].departure_time.0 by {
                let j = pushed@.len() - 2 - k;
                assert(no_worse(label_of(pushed@[j + 1], false), link_time(pushed@[j], false), false));
            }
        }
        assert(path@[0] == pushed@.last());
        assert(path@ =~= travel_order(pushed@, false));
        let s0 = choose|s: int| 0 <= s < n && allocator.parents@[flat(0, s, n)] == Some(pushed@.last());
        assert(0 <= s0 < n && allocator.parents@[flat(0, s0, n)] == Some(path@[0]));
    }
    Ok(path)
}

} // verus!
