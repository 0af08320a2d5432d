//! When the recorded legs of a search can be taken one after the other.
//!
//! A search forward from a departure labels each stop with the time it is
//! reached and records the leg that reached it; a search backwards from an
//! arrival labels each stop with the latest time it can be left and records
//! the leg that leaves it. In both, the leg recorded for a stop hangs off
//! another stop (its source): the stop it leaves from, or the stop it
//! reaches when the search runs backwards. The facts below say that the
//! label of the source's own leg is no worse than the time at which the leg
//! touches the source, so that a traveller following the legs never has to
//! leave a stop before reaching it.

use crate::raptor::allocator::{
    apply_update, apply_updates, best_or_earliest, best_or_latest, flat, improves, improves_reverse,
    lemma_flat, LabelState, MAX_ROUNDS,
};
use crate::raptor::location::Point;
use crate::raptor::state::{Parent, Update};
use crate::time::Time;
use vstd::prelude::*;

verus! {

/// `a` is at least as good as `b`: no later when searching forward, no
/// earlier when searching backwards.
pub open spec fn no_worse(a: int, b: int, reverse: bool) -> bool {
    if reverse {
        a >= b
    } else {
        a <= b
    }
}

/// The best time of a label, with none as the worst time there is.
pub open spec fn best_label(t: Option<Time>, reverse: bool) -> int {
    if reverse {
        best_or_earliest(t)
    } else {
        best_or_latest(t)
    }
}

/// The label a leg gives the stop it is recorded for: its arrival, or its
/// departure when searching backwards.
pub open spec fn label_of(p: Parent, reverse: bool) -> int {
    if reverse {
        p.departure_time.0 as int
    } else {
        p.arrival_time.0 as int
    }
}

/// The time at which a leg touches its source stop: its departure, or its
/// arrival when searching backwards.
pub open spec fn link_time(p: Parent, reverse: bool) -> int {
    if reverse {
        p.arrival_time.0 as int
    } else {
        p.departure_time.0 as int
    }
}

/// The stop a leg hangs off: where it starts, or where it ends when
/// searching backwards.
pub open spec fn source(p: Parent, reverse: bool) -> Point {
    if reverse {
        p.to
    } else {
        p.from
    }
}

/// A leg recorded in round `r` connects with the leg recorded for its
/// source: in the previous round after a ride, in the same round after a
/// transfer or walk.
pub open spec fn linked(parents: Seq<Option<Parent>>, r: int, p: Parent, n: int, reverse: bool) -> bool {
    source(p, reverse) matches Point::Stop(b) ==> b < n ==> if p.parent_type is Transit {
        r >= 1 ==> (parents[flat(r - 1, b as int, n)] matches Some(q) ==> no_worse(
            label_of(q, reverse),
            link_time(p, reverse),
            reverse,
        ))
    } else {
        parents[flat(r, b as int, n)] matches Some(q) ==> no_worse(label_of(q, reverse), link_time(p, reverse), reverse)
    }
}

/// Every leg recorded in a round below `rounds` connects with the leg of its
/// source.
pub open spec fn rows_linked(parents: Seq<Option<Parent>>, rounds: int, n: int, reverse: bool) -> bool {
    forall|r: int, s: int|
        0 <= r < rounds && 0 <= s < n ==> (#[trigger] parents[flat(r, s, n)] matches Some(p) ==> linked(
            parents,
            r,
            p,
            n,
            reverse,
        ))
}

/// Every leg recorded connects with the leg of its source.
pub open spec fn parents_timed(parents: Seq<Option<Parent>>, n: int, reverse: bool) -> bool {
    rows_linked(parents, MAX_ROUNDS as int, n, reverse)
}

/// No leg is recorded in round `rounds` or later.
pub open spec fn rows_empty_from(parents: Seq<Option<Parent>>, rounds: int, n: int) -> bool {
    forall|r: int, s: int| rounds <= r < MAX_ROUNDS && 0 <= s < n ==> (#[trigger] parents[flat(r, s, n)]) is None
}

/// Each labelled stop's best time is no worse than its label.
pub open spec fn labels_settled(st: LabelState, n: int, reverse: bool) -> bool {
    forall|s: int|
        0 <= s < n ==> (#[trigger] st.1[s] matches Some(t) ==> st.0[s] matches Some(b) && no_worse(
            b.0 as int,
            t.0 as int,
            reverse,
        ))
}

/// The legs recorded in round `r` carry the labels of their stops.
pub open spec fn row_agrees(parents: Seq<Option<Parent>>, labels: Seq<Option<Time>>, r: int, n: int, reverse: bool) -> bool {
    forall|s: int|
        0 <= s < n ==> (#[trigger] parents[flat(r, s, n)] matches Some(q) ==> labels[s] matches Some(t) && t.0
            == label_of(q, reverse))
}

/// The legs recorded in round `r` touch their sources no earlier (forward)
/// or no later (backwards) than the sources' labels: those of the previous
/// round after a ride, those of this round after a transfer or walk.
pub open spec fn row_reachable(
    parents: Seq<Option<Parent>>,
    labels: Seq<Option<Time>>,
    prev: Seq<Option<Time>>,
    r: int,
    n: int,
    reverse: bool,
) -> bool {
    forall|s: int|
        0 <= s < n ==> (#[trigger] parents[flat(r, s, n)] matches Some(p) ==> source(p, reverse) matches Point::Stop(
            b,
        ) && b < n && if p.parent_type is Transit {
            no_worse(best_label(prev[b as int], reverse), link_time(p, reverse), reverse)
        } else {
            no_worse(best_label(labels[b as int], reverse), link_time(p, reverse), reverse)
        })
}

/// What an update proposed from the labels `labels` (this round) and `prev`
/// (the previous round) keeps: it gives its stop the label of its leg, and
/// its leg touches its source at the source's label (after a transfer or
/// walk, which takes no negative time) or no better than it (after a ride).
pub open spec fn update_timed(u: Update, labels: Seq<Option<Time>>, prev: Seq<Option<Time>>, n: int, reverse: bool) -> bool {
    &&& u.arrival_time.0 == label_of(u.parent, reverse)
    &&& source(u.parent, reverse) matches Point::Stop(b) && b < n && if u.parent.parent_type is Transit {
        no_worse(best_label(prev[b as int], reverse), link_time(u.parent, reverse), reverse)
    } else {
        &&& link_time(u.parent, reverse) == best_label(labels[b as int], reverse)
        &&& no_worse(link_time(u.parent, reverse), label_of(u.parent, reverse), reverse)
    }
}

/// Applying, in round `round`, updates proposed from the labels of `st` and
/// `prev` keeps the labels settled and the legs of the round agreeing with
/// and reachable from the labels; labels only improve, and no other round
/// changes.
pub proof fn lemma_apply_updates_timed(
    st: LabelState,
    prev: Seq<Option<Time>>,
    round: int,
    n: int,
    us: Seq<Update>,
    reverse: bool,
)
    requires
        0 <= round < MAX_ROUNDS,
        st.0.len() == n,
        st.1.len() == n,
        st.2.len() == n * MAX_ROUNDS,
        prev.len() == n,
        labels_settled(st, n, reverse),
        row_agrees(st.2, st.1, round, n, reverse),
        row_reachable(st.2, st.1, prev, round, n, reverse),
        forall|k: int|
            0 <= k < us.len() ==> (#[trigger] us[k]).stop_idx < n && update_timed(us[k], st.1, prev, n, reverse),
    ensures
        ({
            let res = apply_updates(st, round, n, us, reverse);
            &&& res.0.len() == n
            &&& res.1.len() == n
            &&& res.2.len() == n * MAX_ROUNDS
            &&& labels_settled(res, n, reverse)
            &&& row_agrees(res.2, res.1, round, n, reverse)
            &&& row_reachable(res.2, res.1, prev, round, n, reverse)
            &&& forall|s: int|
                0 <= s < n ==> no_worse(
                    best_label(#[trigger] res.1[s], reverse),
                    best_label(st.1[s], reverse),
                    reverse,
                )
            &&& forall|r: int, s: int|
                0 <= r < MAX_ROUNDS && r != round && 0 <= s < n ==> #[trigger] res.2[flat(r, s, n)] == st.2[flat(
                    r,
                    s,
                    n,
                )]
        }),
    decreases us.len(),
{
    if us.len() > 0 {
        let init = us.drop_last();
        assert forall|k: int| 0 <= k < init.len() implies (#[trigger] init[k]).stop_idx < n && update_timed(
            init[k],
            st.1,
            prev,
            n,
            reverse,
        ) by {
            assert(init[k] == us[k]);
        }
        lemma_apply_updates_timed(st, prev, round, n, init, reverse);
        let mid = apply_updates(st, round, n, init, reverse);
        let u = us.last();
        assert(us[us.len() - 1] == u);
        let res = apply_updates(st, round, n, us, reverse);
        assert(res == apply_update(mid, round, n, u, reverse));
        let x = u.stop_idx as int;
        lemma_flat(round, x, round, x, n, MAX_ROUNDS as int);
        let better = if reverse {
            improves_reverse(u.arrival_time, mid.0[x])
        } else {
            improves(u.arrival_time, mid.0[x])
        };
        if better {
            // The new label beats the stop's old label.
            assert(no_worse(u.arrival_time.0 as int, best_label(mid.1[x], reverse), reverse)
                && u.arrival_time.0 != best_label(mid.1[x], reverse)) by {
                if mid.1[x] is Some {
                    assert(mid.0[x] is Some);
                }
            }
            assert forall|s: int| 0 <= s < n implies (#[trigger] res.1[s] matches Some(t) ==> res.0[s] matches Some(
                b,
            ) && no_worse(b.0 as int, t.0 as int, reverse)) by {
                if s != x {
                    assert(res.1[s] == mid.1[s] && res.0[s] == mid.0[s]);
                }
            }
            assert forall|s: int| 0 <= s < n implies (#[trigger] res.2[flat(round, s, n)] matches Some(q)
                ==> res.1[s] matches Some(t) && t.0 == label_of(q, reverse)) by {
                lemma_flat(round, s, round, x, n, MAX_ROUNDS as int);
                if s != x {
                    assert(res.2[flat(round, s, n)] == mid.2[flat(round, s, n)]);
                    assert(res.1[s] == mid.1[s]);
                }
            }
            assert forall|s: int| 0 <= s < n implies (#[trigger] res.2[flat(round, s, n)] matches Some(p)
                ==> source(p, reverse) matches Point::Stop(b) && b < n && if p.parent_type is Transit {
                no_worse(best_label(prev[b as int], reverse), link_time(p, reverse), reverse)
            } else {
                no_worse(best_label(res.1[b as int], reverse), link_time(p, reverse), reverse)
            }) by {
                lemma_flat(round, s, round, x, n, MAX_ROUNDS as int);
                if s != x {
                    assert(res.2[flat(round, s, n)] == mid.2[flat(round, s, n)]);
                    let p = mid.2[flat(round, s, n)]->Some_0;
                    if mid.2[flat(round, s, n)] is Some {
                        let b = source(p, reverse)->Stop_0 as int;
                        if b != x {
                            assert(res.1[b] == mid.1[b]);
                        }
                    }
                } else {
                    let p = u.parent;
                    assert(res.2[flat(round, s, n)] == Some(p));
                    assert(update_timed(u, st.1, prev, n, reverse));
                    let b = source(p, reverse)->Stop_0 as int;
                    if !(p.parent_type is Transit) {
                        assert(no_worse(best_label(mid.1[b], reverse), best_label(st.1[b], reverse), reverse));
                        if b != x {
                            assert(res.1[b] == mid.1[b]);
                        }
                    }
                }
            }
            assert forall|s: int| 0 <= s < n implies no_worse(
                best_label(#[trigger] res.1[s], reverse),
                best_label(st.1[s], reverse),
                reverse,
            ) by {
                assert(no_worse(best_label(mid.1[s], reverse), best_label(st.1[s], reverse), reverse));
                if s != x {
                    assert(res.1[s] == mid.1[s]);
                }
            }
            assert forall|r: int, s: int| 0 <= r < MAX_ROUNDS && r != round && 0 <= s < n implies #[trigger] res.2[flat(
                r,
                s,
                n,
            )] == st.2[flat(r, s, n)] by {
                lemma_flat(r, s, round, x, n, MAX_ROUNDS as int);
                assert(mid.2[flat(r, s, n)] == st.2[flat(r, s, n)]);
            }
        } else {
            assert(res == mid);
        }
    }
}

/// After a round whose legs agree with and are reachable from its labels,
/// and whose previous round's legs carried the labels it started from,
/// every leg of the round connects with the leg of its source.
pub proof fn lemma_row_linked(
    parents: Seq<Option<Parent>>,
    labels: Seq<Option<Time>>,
    prev: Seq<Option<Time>>,
    round: int,
    n: int,
    reverse: bool,
)
    requires
        0 <= round < MAX_ROUNDS,
        parents.len() == n * MAX_ROUNDS,
        row_agrees(parents, labels, round, n, reverse),
        row_reachable(parents, labels, prev, round, n, reverse),
        round >= 1 ==> row_agrees(parents, prev, round - 1, n, reverse),
    ensures
        forall|s: int|
            0 <= s < n ==> (#[trigger] parents[flat(round, s, n)] matches Some(p) ==> linked(
                parents,
                round,
                p,
                n,
                reverse,
            )),
{
    assert forall|s: int| 0 <= s < n implies (#[trigger] parents[flat(round, s, n)] matches Some(p) ==> linked(
        parents,
        round,
        p,
        n,
        reverse,
    )) by {
        if parents[flat(round, s, n)] is Some {
            let p = parents[flat(round, s, n)]->Some_0;
            let b = source(p, reverse)->Stop_0 as int;
            if p.parent_type is Transit {
                if round >= 1 {
                    assert(parents[flat(round - 1, b, n)] matches Some(q) ==> prev[b] matches Some(t) && t.0
                        == label_of(q, reverse));
                }
            } else {
                assert(parents[flat(round, b, n)] matches Some(q) ==> labels[b] matches Some(t) && t.0
                    == label_of(q, reverse));
            }
        }
    }
}

/// Closing a round whose legs agree with and are reachable from its labels:
/// if the rounds before it were linked and none after it was recorded, the
/// rounds up to it are linked and none after it is recorded.
pub proof fn lemma_round_closed(
    old_parents: Seq<Option<Parent>>,
    parents: Seq<Option<Parent>>,
    labels: Seq<Option<Time>>,
    prev: Seq<Option<Time>>,
    round: int,
    n: int,
    reverse: bool,
)
    requires
        0 <= round < MAX_ROUNDS,
        parents.len() == n * MAX_ROUNDS,
        rows_linked(old_parents, round, n, reverse),
        rows_empty_from(old_parents, round + 1, n),
        forall|r: int, s: int|
            0 <= r < MAX_ROUNDS && r != round && 0 <= s < n ==> #[trigger] parents[flat(r, s, n)] == old_parents[flat(
                r,
                s,
                n,
            )],
        row_agrees(parents, labels, round, n, reverse),
        row_reachable(parents, labels, prev, round, n, reverse),
        round >= 1 ==> row_agrees(old_parents, prev, round - 1, n, reverse),
    ensures
        rows_linked(parents, round + 1, n, reverse),
        rows_empty_from(parents, round + 1, n),
{
    if round >= 1 {
        assert forall|s: int| 0 <= s < n implies (#[trigger] parents[flat(round - 1, s, n)] matches Some(q)
            ==> prev[s] matches Some(t) && t.0 == label_of(q, reverse)) by {
            assert(parents[flat(round - 1, s, n)] == old_parents[flat(round - 1, s, n)]);
        }
    }
    lemma_row_linked(parents, labels, prev, round, n, reverse);
    assert forall|r: int, s: int| 0 <= r < round + 1 && 0 <= s < n implies (#[trigger] parents[flat(r, s, n)] matches Some(
        p,
    ) ==> linked(parents, r, p, n, reverse)) by {
        if r < round && parents[flat(r, s, n)] is Some {
            assert(parents[flat(r, s, n)] == old_parents[flat(r, s, n)]);
            let p = parents[flat(r, s, n)]->Some_0;
            assert(linked(old_parents, r, p, n, reverse));
            if let Point::Stop(b) = source(p, reverse) {
                if b < n {
                    assert(parents[flat(r, b as int, n)] == old_parents[flat(r, b as int, n)]);
                    if r >= 1 {
                        assert(parents[flat(r - 1, b as int, n)] == old_parents[flat(r - 1, b as int, n)]);
                    }
                }
            }
        }
    }
}

/// At the start of a round, with no label and no leg of the round yet,
/// the round's legs trivially agree with and are reachable from its labels.
pub proof fn lemma_row_starts_empty(st: LabelState, prev: Seq<Option<Time>>, round: int, n: int, reverse: bool)
    requires
        0 <= round < MAX_ROUNDS,
        st.2.len() == n * MAX_ROUNDS,
        forall|s: int| 0 <= s < n ==> #[trigger] st.1[s] is None,
        rows_empty_from(st.2, round, n),
    ensures
        labels_settled(st, n, reverse),
        row_agrees(st.2, st.1, round, n, reverse),
        row_reachable(st.2, st.1, prev, round, n, reverse),
        rows_empty_from(st.2, round + 1, n),
{
    assert forall|s: int| 0 <= s < n implies (#[trigger] st.2[flat(round, s, n)]) is None by {
        lemma_flat(round, s, round, s, n, MAX_ROUNDS as int);
    }
}

/// Once the rounds below `rounds` are linked and none from `rounds` on is
/// recorded, every leg recorded is linked.
pub proof fn lemma_rows_timed(parents: Seq<Option<Parent>>, rounds: int, n: int, reverse: bool)
    requires
        0 <= rounds <= MAX_ROUNDS,
        rows_linked(parents, rounds, n, reverse),
        rows_empty_from(parents, rounds, n),
    ensures
        parents_timed(parents, n, reverse),
{
    assert forall|r: int, s: int| 0 <= r < MAX_ROUNDS && 0 <= s < n implies (#[trigger] parents[flat(r, s, n)] matches Some(
        p,
    ) ==> linked(parents, r, p, n, reverse)) by {
        if r >= rounds {
            assert(parents[flat(r, s, n)] is None);
        }
    }
}

/// The worst time a label can have: the latest one forward, the earliest
/// one backwards.
pub open spec fn worst_time(reverse: bool) -> int {
    if reverse {
        0
    } else {
        u32::MAX as int
    }
}

/// The leg hangs off one of `seeds`, unless it touches its source at the
/// worst time there is.
pub open spec fn starts_at(p: Parent, reverse: bool, seeds: Seq<u32>) -> bool {
    ||| source(p, reverse) matches Point::Stop(b) && seeds.contains(b)
    ||| link_time(p, reverse) == worst_time(reverse)
}

/// Every ride recorded in round zero hangs off one of `seeds` (the stops the
/// search starts from), unless it touches its source at the worst time
/// there is.
pub open spec fn round_zero_starts(parents: Seq<Option<Parent>>, n: int, reverse: bool, seeds: Seq<u32>) -> bool {
    forall|s: int|
        0 <= s < n ==> (#[trigger] parents[flat(0, s, n)] matches Some(p) ==> (p.parent_type is Transit
            ==> starts_at(p, reverse, seeds)))
}

/// Updates of round zero whose rides hang off `seeds`, and updates of any
/// later round, keep every ride of round zero hanging off `seeds`.
pub proof fn lemma_apply_updates_starts(
    st: LabelState,
    round: int,
    n: int,
    us: Seq<Update>,
    reverse: bool,
    seeds: Seq<u32>,
)
    requires
        0 <= round < MAX_ROUNDS,
        st.2.len() == n * MAX_ROUNDS,
        round_zero_starts(st.2, n, reverse, seeds),
        forall|k: int| 0 <= k < us.len() ==> (#[trigger] us[k]).stop_idx < n,
        round == 0 ==> forall|k: int|
            0 <= k < us.len() ==> ((#[trigger] us[k]).parent.parent_type is Transit ==> starts_at(
                us[k].parent,
                reverse,
                seeds,
            )),
    ensures
        round_zero_starts(apply_updates(st, round, n, us, reverse).2, n, reverse, seeds),
        apply_updates(st, round, n, us, reverse).2.len() == n * MAX_ROUNDS,
    decreases us.len(),
{
    if us.len() > 0 {
        lemma_apply_updates_starts(st, round, n, us.drop_last(), reverse, seeds);
        let u = us.last();
        assert(us[us.len() - 1] == u);
        let x = u.stop_idx as int;
        lemma_flat(round, x, round, x, n, MAX_ROUNDS as int);
        assert forall|t: int| 0 <= t < n implies (#[trigger] apply_updates(st, round, n, us, reverse).2[flat(
            0,
            t,
            n,
        )] matches Some(p) ==> (p.parent_type is Transit ==> starts_at(p, reverse, seeds))) by {
            lemma_flat(0, t, round, x, n, MAX_ROUNDS as int);
            lemma_flat(0, t, 0, t, n, MAX_ROUNDS as int);
        }
    }
}

/// Applying updates in round `round`: a stop whose best time changed got a
/// strictly better one, and its label is that best time; a stop whose best
/// time did not change kept its label; every labelled stop has a leg
/// recorded in the round; no other round changes.
pub proof fn lemma_apply_updates_track(st: LabelState, round: int, n: int, us: Seq<Update>, reverse: bool)
    requires
        0 <= round < MAX_ROUNDS,
        st.0.len() == n,
        st.1.len() == n,
        st.2.len() == n * MAX_ROUNDS,
        forall|s: int| 0 <= s < n && (#[trigger] st.1[s]) is Some ==> st.2[flat(round, s, n)] is Some,
        forall|k: int| 0 <= k < us.len() ==> (#[trigger] us[k]).stop_idx < n,
    ensures
        ({
            let res = apply_updates(st, round, n, us, reverse);
            &&& res.0.len() == n
            &&& res.1.len() == n
            &&& res.2.len() == n * MAX_ROUNDS
            &&& forall|s: int|
                0 <= s < n ==> no_worse(best_label(#[trigger] res.0[s], reverse), best_label(st.0[s], reverse), reverse)
            &&& forall|s: int|
                0 <= s < n && #[trigger] res.0[s] != st.0[s] ==> res.1[s] == res.0[s] && res.1[s] is Some
                    && best_label(res.0[s], reverse) != best_label(st.0[s], reverse)
            &&& forall|s: int| 0 <= s < n && #[trigger] res.0[s] == st.0[s] ==> res.1[s] == st.1[s]
            &&& forall|s: int| 0 <= s < n && (#[trigger] res.1[s]) is Some ==> res.2[flat(round, s, n)] is Some
            &&& forall|r: int, s: int|
                0 <= r < MAX_ROUNDS && r != round && 0 <= s < n ==> #[trigger] res.2[flat(r, s, n)] == st.2[flat(
                    r,
                    s,
                    n,
                )]
        }),
    decreases us.len(),
{
    if us.len() > 0 {
        let init = us.drop_last();
        assert forall|k: int| 0 <= k < init.len() implies (#[trigger] init[k]).stop_idx < n by {
            assert(init[k] == us[k]);
        }
        lemma_apply_updates_track(st, round, n, init, reverse);
        let mid = apply_updates(st, round, n, init, reverse);
        let u = us.last();
        assert(us[us.len() - 1] == u);
        let res = apply_updates(st, round, n, us, reverse);
        assert(res == apply_update(mid, round, n, u, reverse));
        let x = u.stop_idx as int;
        lemma_flat(round, x, round, x, n, MAX_ROUNDS as int);
        let better = if reverse {
            improves_reverse(u.arrival_time, mid.0[x])
        } else {
            improves(u.arrival_time, mid.0[x])
        };
        if better {
            assert forall|s: int| 0 <= s < n implies no_worse(
                best_label(#[trigger] res.0[s], reverse),
                best_label(st.0[s], reverse),
                reverse,
            ) by {
                assert(no_worse(best_label(mid.0[s], reverse), best_label(st.0[s], reverse), reverse));
            }
            assert forall|s: int| 0 <= s < n && #[trigger] res.0[s] != st.0[s] implies res.1[s] == res.0[s]
                && res.1[s] is Some && best_label(res.0[s], reverse) != best_label(st.0[s], reverse) by {
                assert(no_worse(best_label(mid.0[s], reverse), best_label(st.0[s], reverse), reverse));
                if s != x {
                    assert(res.0[s] == mid.0[s] && res.1[s] == mid.1[s]);
                }
            }
            assert forall|s: int| 0 <= s < n && #[trigger] res.0[s] == st.0[s] implies res.1[s] == st.1[s] by {
                assert(no_worse(best_label(mid.0[s], reverse), best_label(st.0[s], reverse), reverse));
                if s != x {
                    assert(res.0[s] == mid.0[s] && res.1[s] == mid.1[s]);
                }
            }
            assert forall|s: int| 0 <= s < n && (#[trigger] res.1[s]) is Some implies res.2[flat(round, s, n)] is Some by {
                lemma_flat(round, s, round, x, n, MAX_ROUNDS as int);
                if s != x {
                    assert(res.1[s] == mid.1[s]);
                    assert(res.2[flat(round, s, n)] == mid.2[flat(round, s, n)]);
                }
            }
            assert forall|r: int, s: int| 0 <= r < MAX_ROUNDS && r != round && 0 <= s < n implies #[trigger] res.2[flat(
                r,
                s,
                n,
            )] == st.2[flat(r, s, n)] by {
                lemma_flat(r, s, round, x, n, MAX_ROUNDS as int);
                assert(mid.2[flat(r, s, n)] == st.2[flat(r, s, n)]);
            }
        } else {
            assert(res == mid);
        }
    }
}

} // verus!
