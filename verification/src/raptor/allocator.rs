//! The reusable working memory of a RAPTOR search.

use crate::bitmask::{mask_bits, BitMask};
use crate::raptor::location::Point;
use crate::raptor::state::{Parent, ServingRoute, Target, Update};
use crate::repository::Repository;
use crate::time::Time;
use vstd::prelude::*;

verus! {

/// The most rounds (trips taken) a search explores.
pub const MAX_ROUNDS: usize = 15;

/// The position of cell (`outer`, `inner`) in a row-major table whose rows
/// hold `count` cells.
pub open spec fn flat(outer: int, inner: int, count: int) -> int {
    outer * count + inner
}

/// Converts a (round, stop index) pair into an index of the flat
/// per-round tables.
pub fn flat_matrix(outer: usize, inner: usize, count: usize) -> (i: usize)
    requires
        outer * count + inner <= usize::MAX,
    ensures
        i == flat(outer as int, inner as int, count as int),
{
    (outer * count) + inner
}

/// Cells of distinct rows or columns are distinct, and every cell lies in
/// the table.
pub proof fn lemma_flat(r1: int, s1: int, r2: int, s2: int, n: int, rounds: int)
    requires
        0 <= r1 < rounds,
        0 <= r2 < rounds,
        0 <= s1 < n,
        0 <= s2 < n,
    ensures
        0 <= flat(r1, s1, n) < n * rounds,
        flat(r1, s1, n) == flat(r2, s2, n) ==> r1 == r2 && s1 == s2,
{
    assert(0 <= r1 * n + s1 < n * rounds) by (nonlinear_arith)
        requires
            0 <= r1 < rounds,
            0 <= s1 < n,
    ;
    if flat(r1, s1, n) == flat(r2, s2, n) {
        assert(r1 == r2 && s1 == s2) by (nonlinear_arith)
            requires
                r1 * n + s1 == r2 * n + s2,
                0 <= s1 < n,
                0 <= s2 < n,
                0 <= r1,
                0 <= r2,
        ;
    }
}

/// Whether `arrival` beats the best known time `best` (none counts as the
/// latest time).
pub open spec fn improves(arrival: Time, best: Option<Time>) -> bool {
    match best {
        Some(b) => arrival.0 < b.0,
        None => arrival.0 < u32::MAX,
    }
}

/// Whether `departure` beats the best known departure `best` (none counts
/// as the earliest time), for searches that run backwards from an arrival.
pub open spec fn improves_reverse(departure: Time, best: Option<Time>) -> bool {
    match best {
        Some(b) => departure.0 > b.0,
        None => departure.0 > 0,
    }
}

/// The labels that updates act on: best times, current-round labels,
/// parents and marks.
pub type LabelState = (Seq<Option<Time>>, Seq<Option<Time>>, Seq<Option<Parent>>, Seq<bool>);

/// One update applied in round `round`: it takes effect when it improves
/// the stop's best time (earlier, or later when `reverse`).
pub open spec fn apply_update(st: LabelState, round: int, n: int, u: Update, reverse: bool) -> LabelState {
    let s = u.stop_idx as int;
    let better = if reverse {
        improves_reverse(u.arrival_time, st.0[s])
    } else {
        improves(u.arrival_time, st.0[s])
    };
    if better {
        (
            st.0.update(s, Some(u.arrival_time)),
            st.1.update(s, Some(u.arrival_time)),
            st.2.update(flat(round, s, n), Some(u.parent)),
            st.3.update(s, true),
        )
    } else {
        st
    }
}

/// The updates applied one after the other, in order.
pub open spec fn apply_updates(st: LabelState, round: int, n: int, us: Seq<Update>, reverse: bool) -> LabelState
    decreases us.len(),
{
    if us.len() == 0 {
        st
    } else {
        apply_update(apply_updates(st, round, n, us.drop_last(), reverse), round, n, us.last(), reverse)
    }
}

/// The best time a stop has, with none as the latest time.
pub open spec fn best_or_latest(t: Option<Time>) -> int {
    match t {
        Some(v) => v.0 as int,
        None => u32::MAX as int,
    }
}

/// The best time a stop has, with none as the earliest time.
pub open spec fn best_or_earliest(t: Option<Time>) -> int {
    match t {
        Some(v) => v.0 as int,
        None => 0,
    }
}

/// Every parent recorded leads from a stop of the repository to a stop of
/// the repository.
pub open spec fn parents_wf(parents: Seq<Option<Parent>>, n: int) -> bool {
    forall|j: int|
        0 <= j < parents.len() ==> (#[trigger] parents[j] matches Some(p) ==> parent_wf(p, n))
}

pub open spec fn parent_wf(p: Parent, n: int) -> bool {
    &&& p.from matches Point::Stop(f) && f < n
    &&& p.to matches Point::Stop(t) && t < n
}

/// Every parent recorded leaves no later than it arrives.
pub open spec fn parents_forward(parents: Seq<Option<Parent>>) -> bool {
    forall|j: int|
        0 <= j < parents.len() ==> (#[trigger] parents[j] matches Some(p) ==> p.departure_time.0 <= p.arrival_time.0)
}

/// Every parent recorded for a stop ends at that stop (as the parents of a
/// forward search do).
pub open spec fn parents_land(parents: Seq<Option<Parent>>, n: int) -> bool {
    forall|r: int, s: int|
        0 <= r < MAX_ROUNDS && 0 <= s < n ==> (#[trigger] parents[flat(r, s, n)] matches Some(p)
            ==> p.to == Point::Stop(s as u32))
}

/// An update names a stop of the repository, and its parent leads between
/// stops of the repository.
pub open spec fn update_wf(u: Update, n: int) -> bool {
    &&& u.stop_idx < n
    &&& parent_wf(u.parent, n)
}

/// The update's parent ends at the stop it updates.
pub open spec fn update_lands(u: Update) -> bool {
    u.parent.to == Point::Stop(u.stop_idx)
}

/// Applying updates that land keeps every recorded parent landing.
pub proof fn lemma_apply_updates_land(st: LabelState, round: int, n: int, us: Seq<Update>, reverse: bool)
    requires
        0 <= round < MAX_ROUNDS,
        st.2.len() == n * MAX_ROUNDS,
        parents_land(st.2, n),
        forall|k: int| 0 <= k < us.len() ==> update_lands(#[trigger] us[k]) && us[k].stop_idx < n,
    ensures
        parents_land(apply_updates(st, round, n, us, reverse).2, n),
        apply_updates(st, round, n, us, reverse).2.len() == n * MAX_ROUNDS,
    decreases us.len(),
{
    if us.len() > 0 {
        lemma_apply_updates_land(st, round, n, us.drop_last(), reverse);
        let mid = apply_updates(st, round, n, us.drop_last(), reverse);
        let u = us.last();
        assert(us[us.len() - 1] == u);
        let s = u.stop_idx as int;
        lemma_flat(round, s, round, s, n, MAX_ROUNDS as int);
        assert forall|r: int, t: int| 0 <= r < MAX_ROUNDS && 0 <= t < n implies (
        #[trigger] apply_updates(st, round, n, us, reverse).2[flat(r, t, n)] matches Some(p) ==> p.to
            == Point::Stop(t as u32)) by {
            lemma_flat(r, t, round, s, n, MAX_ROUNDS as int);
            lemma_flat(round, s, round, s, n, MAX_ROUNDS as int);
        }
    }
}

/// Every ride recorded in round zero leaves no earlier than `time`.
pub open spec fn round_zero_leaves_after(parents: Seq<Option<Parent>>, n: int, time: Time) -> bool {
    forall|s: int|
        0 <= s < n ==> (#[trigger] parents[flat(0, s, n)] matches Some(p) ==> (p.parent_type is Transit
            ==> p.departure_time.0 >= time.0))
}

/// Updates of round zero whose rides leave no earlier than `time`, and
/// updates of any later round, keep every ride of round zero leaving no
/// earlier than `time`.
pub proof fn lemma_apply_updates_round_zero(
    st: LabelState,
    round: int,
    n: int,
    us: Seq<Update>,
    reverse: bool,
    time: Time,
)
    requires
        0 <= round < MAX_ROUNDS,
        st.2.len() == n * MAX_ROUNDS,
        round_zero_leaves_after(st.2, n, time),
        forall|k: int| 0 <= k < us.len() ==> (#[trigger] us[k]).stop_idx < n,
        round == 0 ==> forall|k: int|
            0 <= k < us.len() ==> ((#[trigger] us[k]).parent.parent_type is Transit
                ==> us[k].parent.departure_time.0 >= time.0),
    ensures
        round_zero_leaves_after(apply_updates(st, round, n, us, reverse).2, n, time),
        apply_updates(st, round, n, us, reverse).2.len() == n * MAX_ROUNDS,
    decreases us.len(),
{
    if us.len() > 0 {
        lemma_apply_updates_round_zero(st, round, n, us.drop_last(), reverse, time);
        let u = us.last();
        assert(us[us.len() - 1] == u);
        let s = u.stop_idx as int;
        lemma_flat(round, s, round, s, n, MAX_ROUNDS as int);
        assert forall|t: int| 0 <= t < n implies (#[trigger] apply_updates(st, round, n, us, reverse).2[flat(
            0,
            t,
            n,
        )] matches Some(p) ==> (p.parent_type is Transit ==> p.departure_time.0 >= time.0)) by {
            lemma_flat(0, t, round, s, n, MAX_ROUNDS as int);
            lemma_flat(0, t, 0, t, n, MAX_ROUNDS as int);
        }
    }
}

/// Every parent recorded for a stop starts at that stop (as the parents of
/// a search backwards from an arrival do).
pub open spec fn parents_leave(parents: Seq<Option<Parent>>, n: int) -> bool {
    forall|r: int, s: int|
        0 <= r < MAX_ROUNDS && 0 <= s < n ==> (#[trigger] parents[flat(r, s, n)] matches Some(p)
            ==> p.from == Point::Stop(s as u32))
}

/// The update's parent starts at the stop it updates.
pub open spec fn update_leaves(u: Update) -> bool {
    u.parent.from == Point::Stop(u.stop_idx)
}

/// Applying updates that leave from their stops keeps every recorded parent
/// leaving from its stop.
pub proof fn lemma_apply_updates_leave(st: LabelState, round: int, n: int, us: Seq<Update>, reverse: bool)
    requires
        0 <= round < MAX_ROUNDS,
        st.2.len() == n * MAX_ROUNDS,
        parents_leave(st.2, n),
        forall|k: int| 0 <= k < us.len() ==> update_leaves(#[trigger] us[k]) && us[k].stop_idx < n,
    ensures
        parents_leave(apply_updates(st, round, n, us, reverse).2, n),
        apply_updates(st, round, n, us, reverse).2.len() == n * MAX_ROUNDS,
    decreases us.len(),
{
    if us.len() > 0 {
        lemma_apply_updates_leave(st, round, n, us.drop_last(), reverse);
        let u = us.last();
        assert(us[us.len() - 1] == u);
        let s = u.stop_idx as int;
        lemma_flat(round, s, round, s, n, MAX_ROUNDS as int);
        assert forall|r: int, t: int| 0 <= r < MAX_ROUNDS && 0 <= t < n implies (
        #[trigger] apply_updates(st, round, n, us, reverse).2[flat(r, t, n)] matches Some(p) ==> p.from
            == Point::Stop(t as u32)) by {
            lemma_flat(r, t, round, s, n, MAX_ROUNDS as int);
            lemma_flat(round, s, round, s, n, MAX_ROUNDS as int);
        }
    }
}

/// Every ride recorded in round zero arrives no later than `time`.
pub open spec fn round_zero_arrives_by(parents: Seq<Option<Parent>>, n: int, time: Time) -> bool {
    forall|s: int|
        0 <= s < n ==> (#[trigger] parents[flat(0, s, n)] matches Some(p) ==> (p.parent_type is Transit
            ==> p.arrival_time.0 <= time.0))
}

/// Updates of round zero whose rides arrive by `time`, and updates of any
/// later round, keep every ride of round zero arriving by `time`.
pub proof fn lemma_apply_updates_round_zero_arrival(
    st: LabelState,
    round: int,
    n: int,
    us: Seq<Update>,
    reverse: bool,
    time: Time,
)
    requires
        0 <= round < MAX_ROUNDS,
        st.2.len() == n * MAX_ROUNDS,
        round_zero_arrives_by(st.2, n, time),
        forall|k: int| 0 <= k < us.len() ==> (#[trigger] us[k]).stop_idx < n,
        round == 0 ==> forall|k: int|
            0 <= k < us.len() ==> ((#[trigger] us[k]).parent.parent_type is Transit
                ==> us[k].parent.arrival_time.0 <= time.0),
    ensures
        round_zero_arrives_by(apply_updates(st, round, n, us, reverse).2, n, time),
        apply_updates(st, round, n, us, reverse).2.len() == n * MAX_ROUNDS,
    decreases us.len(),
{
    if us.len() > 0 {
        lemma_apply_updates_round_zero_arrival(st, round, n, us.drop_last(), reverse, time);
        let u = us.last();
        assert(us[us.len() - 1] == u);
        let s = u.stop_idx as int;
        lemma_flat(round, s, round, s, n, MAX_ROUNDS as int);
        assert forall|t: int| 0 <= t < n implies (#[trigger] apply_updates(st, round, n, us, reverse).2[flat(
            0,
            t,
            n,
        )] matches Some(p) ==> (p.parent_type is Transit ==> p.arrival_time.0 <= time.0)) by {
            lemma_flat(0, t, round, s, n, MAX_ROUNDS as int);
            lemma_flat(0, t, 0, t, n, MAX_ROUNDS as int);
        }
    }
}

/// What a search has worked out so far: best times, previous-round and
/// current-round labels, parents, marked stops, each route's active
/// position and flag, and the target's best time, best stop and round.
pub struct SearchView {
    /// The best time of each stop over all rounds.
    pub tau: Seq<Option<Time>>,
    /// The labels of the previous round.
    pub prev: Seq<Option<Time>>,
    /// The labels of the current round.
    pub curr: Seq<Option<Time>>,
    /// The flat [round][stop] table of parents.
    pub parents: Seq<Option<Parent>>,
    /// The stops improved in the current round.
    pub marks: Seq<bool>,
    /// The position from which each route is scanned.
    pub active: Seq<u32>,
    /// The routes to scan.
    pub mask: Seq<bool>,
    /// The target's best time, best stop and the round it was found in.
    pub target: (Time, Option<u32>, Option<usize>),
}

/// The state of the search that an allocator holds.
pub open spec fn search_view(a: Allocator) -> SearchView {
    SearchView {
        tau: a.tau_star@,
        prev: a.prev_labels@,
        curr: a.curr_labels@,
        parents: a.parents@,
        marks: mask_bits(a.marked_stops),
        active: a.active@,
        mask: mask_bits(a.active_mask),
        target: (a.target.tau_star, a.target.best_stop, a.target.best_round),
    }
}

/// The working memory of a RAPTOR search, sized for one repository.
pub struct Allocator {
    /// The best known time at each stop across all rounds.
    pub tau_star: Vec<Option<Time>>,
    /// The stops improved in the current round, to explore in the next.
    pub marked_stops: BitMask,
    /// The earliest position at which each route is to be scanned.
    pub active: Vec<u32>,
    /// The routes to scan in the current round.
    pub active_mask: BitMask,
    /// Labels of the previous round.
    pub prev_labels: Vec<Option<Time>>,
    /// Labels of the current round.
    pub curr_labels: Vec<Option<Time>>,
    /// A flat [round][stop] table of the parents, for path reconstruction.
    pub parents: Vec<Option<Parent>>,
    /// Updates gathered in a round before they are applied.
    pub updates: Vec<Update>,
    /// The number of stops of the repository.
    pub stop_count: usize,
    /// Scratch list of the routes serving a stop.
    pub routes_serving_stops: Vec<ServingRoute>,
    /// The target of the search.
    pub target: Target,
}

impl Allocator {
    /// The allocator fits a repository of `n` stops and `nq` RAPTOR routes.
    pub open spec fn wf(&self, n: int, nq: int) -> bool {
        &&& self.stop_count == n
        &&& n * MAX_ROUNDS <= usize::MAX
        &&& self.tau_star@.len() == n
        &&& self.prev_labels@.len() == n
        &&& self.curr_labels@.len() == n
        &&& mask_bits(self.marked_stops).len() == n
        &&& self.parents@.len() == n * MAX_ROUNDS
        &&& self.active@.len() == nq
        &&& mask_bits(self.active_mask).len() == nq
        &&& parents_wf(self.parents@, n)
        &&& forall|k: int| 0 <= k < self.updates@.len() ==> update_wf(#[trigger] self.updates@[k], n)
    }

    /// Nothing is recorded yet: the state that `new` and `reset` leave.
    pub open spec fn fresh(&self, n: int, nq: int) -> bool {
        &&& self.wf(n, nq)
        &&& forall|s: int| 0 <= s < n ==> (#[trigger] self.tau_star@[s]) is None
        &&& forall|s: int| 0 <= s < n ==> (#[trigger] self.curr_labels@[s]) is None
        &&& forall|s: int| 0 <= s < n ==> !(#[trigger] mask_bits(self.marked_stops)[s])
        &&& forall|j: int| 0 <= j < self.parents@.len() ==> (#[trigger] self.parents@[j]) is None
        &&& forall|q: int| 0 <= q < nq ==> #[trigger] self.active@[q] == u32::MAX
        &&& forall|q: int| 0 <= q < nq ==> !(#[trigger] mask_bits(self.active_mask)[q])
        &&& self.updates@.len() == 0
        &&& self.target.best_stop is None
        &&& self.target.best_round is None
    }

    pub open spec fn label_state(&self) -> LabelState {
        (self.tau_star@, self.curr_labels@, self.parents@, mask_bits(self.marked_stops))
    }

    /// Creates an allocator sized for the given repository.
    pub fn new(repository: &Repository) -> (a: Allocator)
        requires
            repository.wf(),
            repository.stops@.len() * MAX_ROUNDS <= usize::MAX,
            repository.raptor_routes@.len() <= usize::MAX / 8,
            repository.stops@.len() <= usize::MAX / 8,
        ensures
            a.wf(repository.stops@.len() as int, repository.raptor_routes@.len() as int),
            a.fresh(repository.stops@.len() as int, repository.raptor_routes@.len() as int),
            parents_land(a.parents@, repository.stops@.len() as int),
            a.tau_star@ == Seq::new(repository.stops@.len(), |i: int| None::<Time>),
            a.prev_labels@ == Seq::new(repository.stops@.len(), |i: int| None::<Time>),
            a.curr_labels@ == Seq::new(repository.stops@.len(), |i: int| None::<Time>),
            a.parents@ == Seq::new((repository.stops@.len() * MAX_ROUNDS) as nat, |i: int| None::<Parent>),
            a.active@ == Seq::new(repository.raptor_routes@.len(), |i: int| u32::MAX),
            mask_bits(a.marked_stops) == Seq::new(repository.stops@.len(), |i: int| false),
            mask_bits(a.active_mask) == Seq::new(repository.raptor_routes@.len(), |i: int| false),
            a.updates@.len() == 0,
            a.routes_serving_stops@.len() == 0,
            a.target.stops@.len() == 0,
            a.target.tau_star.0 == u32::MAX,
            a.target.best_stop is None,
            a.target.best_round is None,
    {
        let n = repository.stops.len();
        let nq = repository.raptor_routes.len();
        let a = Allocator {
            tau_star: vec![None; n],
            marked_stops: BitMask::new(n),
            prev_labels: vec![None; n],
            curr_labels: vec![None; n],
            parents: vec![None; n * MAX_ROUNDS],
            updates: Vec::new(),
            active: vec![u32::MAX; nq],
            active_mask: BitMask::new(nq),
            stop_count: n,
            routes_serving_stops: Vec::new(),
            target: Target::new(),
        };
        assert(a.tau_star@ =~= Seq::new(n as nat, |i: int| None::<Time>));
        assert(a.prev_labels@ =~= Seq::new(n as nat, |i: int| None::<Time>));
        assert(a.curr_labels@ =~= Seq::new(n as nat, |i: int| None::<Time>));
        assert(a.parents@ =~= Seq::new((n * MAX_ROUNDS) as nat, |i: int| None::<Parent>));
        assert(a.active@ =~= Seq::new(nq as nat, |i: int| u32::MAX));
        assert forall|r: int, s: int| 0 <= r < MAX_ROUNDS && 0 <= s < n implies (
        #[trigger] a.parents@[flat(r, s, n as int)] matches Some(p) ==> p.to == Point::Stop(s as u32)) by {
            lemma_flat(r, s, r, s, n as int, MAX_ROUNDS as int);
        }
        a
    }

    /// Clears every buffer, so that the allocator can serve a new search.
    #[verifier::loop_isolation(false)]
    pub fn reset(&mut self)
        requires
            old(self).wf(old(self).stop_count as int, old(self).active@.len() as int),
        ensures
            final(self).wf(old(self).stop_count as int, old(self).active@.len() as int),
            final(self).fresh(old(self).stop_count as int, old(self).active@.len() as int),
            final(self).tau_star@ == Seq::new(old(self).stop_count as nat, |i: int| None::<Time>),
            final(self).prev_labels@ == Seq::new(old(self).stop_count as nat, |i: int| None::<Time>),
            final(self).curr_labels@ == Seq::new(old(self).stop_count as nat, |i: int| None::<Time>),
            final(self).parents@ == Seq::new(old(self).parents@.len(), |i: int| None::<Parent>),
            final(self).active@ == Seq::new(old(self).active@.len(), |i: int| u32::MAX),
            mask_bits(final(self).marked_stops) == Seq::new(old(self).stop_count as nat, |i: int| false),
            mask_bits(final(self).active_mask) == Seq::new(old(self).active@.len(), |i: int| false),
            final(self).updates@.len() == 0,
            final(self).routes_serving_stops@.len() == 0,
            final(self).target.stops@.len() == 0,
            final(self).target.tau_star.0 == u32::MAX,
            final(self).target.best_stop is None,
            final(self).target.best_round is None,
    {
        let ghost n = self.stop_count as int;
        fill_labels(&mut self.tau_star);
        self.marked_stops.fill(false);
        fill_labels(&mut self.prev_labels);
        fill_labels(&mut self.curr_labels);
        fill_parents(&mut self.parents);
        fill_active(&mut self.active);
        self.active_mask.fill(false);
        self.updates.clear();
        self.routes_serving_stops.clear();
        self.target.clear();
    }

    /// Applies the gathered updates in order (each one that gives its stop
    /// an earlier time than its best), then empties the buffer.
    pub fn run_updates(&mut self, round: usize)
        requires
            old(self).wf(old(self).stop_count as int, old(self).active@.len() as int),
            round < MAX_ROUNDS,
        ensures
            final(self).wf(old(self).stop_count as int, old(self).active@.len() as int),
            final(self).label_state() == apply_updates(
                old(self).label_state(),
                round as int,
                old(self).stop_count as int,
                old(self).updates@,
                false,
            ),
            final(self).updates@.len() == 0,
            final(self).prev_labels == old(self).prev_labels,
            final(self).active == old(self).active,
            final(self).active_mask == old(self).active_mask,
            final(self).target == old(self).target,
            final(self).routes_serving_stops == old(self).routes_serving_stops,
            forall|s: int|
                0 <= s < old(self).stop_count ==> best_or_latest(#[trigger] final(self).tau_star@[s])
                    <= best_or_latest(old(self).tau_star@[s]),
    {
        self.apply_all(round, false);
    }

    /// Applies the gathered updates in order (each one that gives its stop
    /// a later departure than its best), then empties the buffer.
    pub fn run_updates_reverse(&mut self, round: usize)
        requires
            old(self).wf(old(self).stop_count as int, old(self).active@.len() as int),
            round < MAX_ROUNDS,
        ensures
            final(self).wf(old(self).stop_count as int, old(self).active@.len() as int),
            final(self).label_state() == apply_updates(
                old(self).label_state(),
                round as int,
                old(self).stop_count as int,
                old(self).updates@,
                true,
            ),
            final(self).updates@.len() == 0,
            final(self).prev_labels == old(self).prev_labels,
            final(self).active == old(self).active,
            final(self).active_mask == old(self).active_mask,
            final(self).target == old(self).target,
            final(self).routes_serving_stops == old(self).routes_serving_stops,
            forall|s: int|
                0 <= s < old(self).stop_count ==> best_or_earliest(#[trigger] final(self).tau_star@[s])
                    >= best_or_earliest(old(self).tau_star@[s]),
    {
        self.apply_all(round, true);
    }

    fn apply_all(&mut self, round: usize, reverse: bool)
        requires
            old(self).wf(old(self).stop_count as int, old(self).active@.len() as int),
            round < MAX_ROUNDS,
        ensures
            final(self).wf(old(self).stop_count as int, old(self).active@.len() as int),
            final(self).label_state() == apply_updates(
                old(self).label_state(),
                round as int,
                old(self).stop_count as int,
                old(self).updates@,
                reverse,
            ),
            final(self).updates@.len() == 0,
            final(self).prev_labels == old(self).prev_labels,
            final(self).active == old(self).active,
            final(self).active_mask == old(self).active_mask,
            final(self).target == old(self).target,
            final(self).routes_serving_stops == old(self).routes_serving_stops,
            !reverse ==> forall|s: int|
                0 <= s < old(self).stop_count ==> best_or_latest(#[trigger] final(self).tau_star@[s])
                    <= best_or_latest(old(self).tau_star@[s]),
            reverse ==> forall|s: int|
                0 <= s < old(self).stop_count ==> best_or_earliest(#[trigger] final(self).tau_star@[s])
                    >= best_or_earliest(old(self).tau_star@[s]),
    {
        let ghost n = self.stop_count as int;
        let ghost nq = self.active@.len() as int;
        let ghost st0 = self.label_state();
        let ghost us = self.updates@;
        let mut i: usize = 0;
        while i < self.updates.len()
            invariant
                self.wf(n, nq),
                self.updates@ == us,
                i <= us.len(),
                round < MAX_ROUNDS,
                self.label_state() == apply_updates(st0, round as int, n, us.subrange(0, i as int), reverse),
                self.prev_labels == old(self).prev_labels,
                self.active == old(self).active,
                self.active_mask == old(self).active_mask,
                self.target == old(self).target,
                self.routes_serving_stops == old(self).routes_serving_stops,
                !reverse ==> forall|s: int|
                    0 <= s < n ==> best_or_latest(#[trigger] self.tau_star@[s]) <= best_or_latest(
                        st0.0[s],
                    ),
                reverse ==> forall|s: int|
                    0 <= s < n ==> best_or_earliest(#[trigger] self.tau_star@[s])
                        >= best_or_earliest(st0.0[s]),
            decreases us.len() - i,
        {
            let update = self.updates[i];
            assert(update_wf(update, n));
            let s = update.stop_idx as usize;
            let better = if reverse {
                match self.tau_star[s] {
                    Some(b) => update.arrival_time.0 > b.0,
                    None => update.arrival_time.0 > 0,
                }
            } else {
                match self.tau_star[s] {
                    Some(b) => update.arrival_time.0 < b.0,
                    None => update.arrival_time.0 < u32::MAX,
                }
            };
            proof {
                assert(us.subrange(0, i + 1).drop_last() =~= us.subrange(0, i as int));
                assert(us.subrange(0, i + 1).last() == update);
                lemma_flat(round as int, s as int, round as int, s as int, n, MAX_ROUNDS as int);
            }
            if better {
                self.curr_labels[s] = Some(update.arrival_time);
                let p = flat_matrix(round, s, self.stop_count);
                self.parents[p] = Some(update.parent);
                self.tau_star[s] = Some(update.arrival_time);
                self.marked_stops.set(s, true);
            }
            i = i + 1;
        }
        assert(us.subrange(0, us.len() as int) =~= us);
        self.updates.clear();
    }

    /// The parents recorded in `round`, one per stop.
    pub fn get_parents(&self, round: usize) -> (p: &[Option<Parent>])
        requires
            self.wf(self.stop_count as int, self.active@.len() as int),
            round < MAX_ROUNDS,
        ensures
            p@ == self.parents@.subrange(
                flat(round as int, 0, self.stop_count as int),
                flat(round as int + 1, 0, self.stop_count as int),
            ),
            p@.len() == self.stop_count,
            forall|s: int|
                0 <= s < self.stop_count ==> #[trigger] p@[s] == self.parents@[flat(
                    round as int,
                    s,
                    self.stop_count as int,
                )],
    {
        proof {
            let n = self.stop_count as int;
            assert(0 <= round * n && round * n + n <= n * MAX_ROUNDS && (round + 1) * n == round * n
                + n) by (nonlinear_arith)
                requires
                    round < MAX_ROUNDS,
                    n >= 0,
            ;
        }
        let offset = round * self.stop_count;
        vstd::slice::slice_subrange(self.parents.as_slice(), offset, offset + self.stop_count)
    }

    /// Moves the current labels to the previous ones and clears the current.
    pub fn swap_labels(&mut self)
        requires
            old(self).wf(old(self).stop_count as int, old(self).active@.len() as int),
        ensures
            final(self).wf(old(self).stop_count as int, old(self).active@.len() as int),
            final(self).prev_labels@ == old(self).curr_labels@,
            final(self).curr_labels@ == Seq::new(old(self).stop_count as nat, |i: int| None::<Time>),
            final(self).tau_star == old(self).tau_star,
            final(self).parents == old(self).parents,
            final(self).marked_stops == old(self).marked_stops,
            final(self).active == old(self).active,
            final(self).active_mask == old(self).active_mask,
            final(self).updates == old(self).updates,
            final(self).target == old(self).target,
            final(self).routes_serving_stops == old(self).routes_serving_stops,
    {
        std::mem::swap(&mut self.curr_labels, &mut self.prev_labels);
        fill_labels(&mut self.curr_labels);
    }
}

/// Clears every parent.
pub fn fill_parents(parents: &mut Vec<Option<Parent>>)
    ensures
        final(parents)@ == Seq::new(old(parents)@.len(), |i: int| None::<Parent>),
{
    let mut i: usize = 0;
    while i < parents.len()
        invariant
            i <= parents@.len(),
            parents@.len() == old(parents)@.len(),
            forall|k: int| 0 <= k < i ==> parents@[k] is None,
        decreases parents@.len() - i,
    {
        parents[i] = None;
        i = i + 1;
    }
    assert(parents@ =~= Seq::new(old(parents)@.len(), |i: int| None::<Parent>));
}

/// Sets every route's scan position to "none yet".
pub fn fill_active(active: &mut Vec<u32>)
    ensures
        final(active)@ == Seq::new(old(active)@.len(), |i: int| u32::MAX),
{
    let mut i: usize = 0;
    while i < active.len()
        invariant
            i <= active@.len(),
            active@.len() == old(active)@.len(),
            forall|k: int| 0 <= k < i ==> active@[k] == u32::MAX,
        decreases active@.len() - i,
    {
        active[i] = u32::MAX;
        i = i + 1;
    }
    assert(active@ =~= Seq::new(old(active)@.len(), |i: int| u32::MAX));
}

/// Sets every label to none.
pub fn fill_labels(labels: &mut Vec<Option<Time>>)
    ensures
        final(labels)@ == Seq::new(old(labels)@.len(), |i: int| None::<Time>),
{
    let mut i: usize = 0;
    while i < labels.len()
        invariant
            i <= labels@.len(),
            labels@.len() == old(labels)@.len(),
            forall|k: int| 0 <= k < i ==> labels@[k] is None,
        decreases labels@.len() - i,
    {
        labels[i] = None;
        i = i + 1;
    }
    assert(labels@ =~= Seq::new(old(labels)@.len(), |i: int| None::<Time>));
}

/// A buffer that allocates only when the first value is pushed.
pub struct LazyBuffer<T> {
    pub buffer: Option<Vec<T>>,
    pub capacity: usize,
}

impl<T> LazyBuffer<T> {
    pub fn new(capacity: usize) -> (b: LazyBuffer<T>)
        ensures
            b.buffer is None,
            b.capacity == capacity,
    {
        LazyBuffer { buffer: None, capacity }
    }

    /// The values pushed so far, in order.
    pub open spec fn values(&self) -> Seq<T> {
        match self.buffer {
            Some(v) => v@,
            None => Seq::empty(),
        }
    }

    pub fn push(&mut self, value: T)
        ensures
            final(self).values() == old(self).values().push(value),
            final(self).buffer is Some,
            final(self).capacity == old(self).capacity,
    {
        match self.buffer.take() {
            Some(mut buffer) => {
                buffer.push(value);
                self.buffer = Some(buffer);
            },
            None => {
                let mut buffer: Vec<T> = Vec::with_capacity(self.capacity);
                buffer.push(value);
                self.buffer = Some(buffer);
            },
        }
    }

    /// The values, if any was pushed.
    pub fn take(self) -> (r: Option<Vec<T>>)
        ensures
            r == self.buffer,
    {
        self.buffer
    }

    /// Hands out the values (none gives an empty list) and starts over.
    pub fn swap(&mut self) -> (r: Vec<T>)
        ensures
            r@ == old(self).values(),
            final(self).buffer is None,
            final(self).capacity == old(self).capacity,
    {
        match self.buffer.take() {
            Some(v) => v,
            None => Vec::new(),
        }
    }
}

} // verus!
