//! Round-robin selection and its fairness guarantee.
//!
//! `Broker::step` realizes this discipline lazily: it polls positions in
//! cyclic order from the scan cursor and services the first receiver
//! found ready, leaving the cursor just past it. The selection it makes
//! is the one `rr_pick` describes over the readiness of the scanned
//! positions; the lemmas here prove that this discipline cannot starve
//! a receiver that has messages pending.

use vstd::prelude::*;

verus! {

/// How many single steps forward a ring of `n` positions takes to get
/// from `from` to `to`.
pub open spec fn cyclic_dist(n: int, from: int, to: int) -> int {
    if to >= from {
        to - from
    } else {
        n - from + to
    }
}

/// The position a scan that started at `start` looks at after `k` polls,
/// in a ring of `n` positions.
pub open spec fn scan_position(n: int, start: int, k: int) -> int {
    if start + k >= n {
        start + k - n
    } else {
        start + k
    }
}

/// The position a round-robin scan starting at `start` selects, having
/// already passed the first `k` positions of its cycle: the first ready
/// position at cyclic distance `k` or more, if any position is ready.
pub open spec fn rr_pick_from(ready: Seq<bool>, start: int, k: int) -> Option<int>
    decreases ready.len() - k,
{
    if k < 0 || k >= ready.len() {
        None
    } else {
        let p = scan_position(ready.len() as int, start, k);
        if 0 <= p < ready.len() && ready[p] {
            Some(p)
        } else {
            rr_pick_from(ready, start, k + 1)
        }
    }
}

/// The position a round-robin scan starting at `start` selects, given
/// which positions currently have a message ready: the first ready
/// position in cyclic order from `start`.
pub open spec fn rr_pick(ready: Seq<bool>, start: int) -> Option<int> {
    rr_pick_from(ready, start, 0)
}

/// Walking `k` polls from `start` lands at cyclic distance exactly `k`.
proof fn lemma_scan_position_dist(n: int, start: int, k: int)
    requires
        0 <= start < n,
        0 <= k < n,
    ensures
        0 <= scan_position(n, start, k) < n,
        cyclic_dist(n, start, scan_position(n, start, k)) == k,
{
}

/// Distinct positions lie at distinct cyclic distances.
proof fn lemma_cyclic_dist_injective(n: int, start: int, a: int, b: int)
    requires
        0 <= start < n,
        0 <= a < n,
        0 <= b < n,
        cyclic_dist(n, start, a) == cyclic_dist(n, start, b),
    ensures
        a == b,
{
}

/// What the scan suffix starting `k` polls in selects: a ready position
/// nearest to the scan start among those at distance `k` or more, and
/// nothing only if no ready position lies at distance `k` or more.
proof fn lemma_rr_pick_from_nearest(ready: Seq<bool>, start: int, k: int)
    requires
        0 <= start < ready.len(),
        0 <= k <= ready.len(),
    ensures
        match rr_pick_from(ready, start, k) {
            Some(j) => {
                &&& 0 <= j < ready.len()
                &&& ready[j]
                &&& k <= cyclic_dist(ready.len() as int, start, j) < ready.len()
                &&& forall|i: int|
                    0 <= i < ready.len() && ready[i] && cyclic_dist(
                        ready.len() as int,
                        start,
                        i,
                    ) >= k ==> cyclic_dist(ready.len() as int, start, j) <= cyclic_dist(
                        ready.len() as int,
                        start,
                        i,
                    )
            },
            None => forall|i: int|
                0 <= i < ready.len() && ready[i] ==> cyclic_dist(ready.len() as int, start, i) < k,
        },
    decreases ready.len() - k,
{
    let n = ready.len() as int;
    if k == n {
        assert forall|i: int| 0 <= i < n && ready[i] implies cyclic_dist(n, start, i) < k by {
            lemma_cyclic_dist_injective(n, start, i, i);
        }
    } else {
        let p = scan_position(n, start, k);
        lemma_scan_position_dist(n, start, k);
        if ready[p] {
        } else {
            lemma_rr_pick_from_nearest(ready, start, k + 1);
            match rr_pick_from(ready, start, k + 1) {
                Some(j) => {
                    assert forall|i: int|
                        0 <= i < n && ready[i] && cyclic_dist(n, start, i) >= k implies cyclic_dist(
                        n,
                        start,
                        j,
                    ) <= cyclic_dist(n, start, i) by {
                        if cyclic_dist(n, start, i) == k {
                            lemma_cyclic_dist_injective(n, start, i, p);
                        }
                    }
                },
                None => {
                    assert forall|i: int| 0 <= i < n && ready[i] implies cyclic_dist(
                        n,
                        start,
                        i,
                    ) < k by {
                        if cyclic_dist(n, start, i) == k {
                            lemma_cyclic_dist_injective(n, start, i, p);
                        }
                    }
                },
            }
        }
    }
}

/// Law (round-robin selection): the scan selects the ready position
/// nearest in cyclic order from its start — no ready position is passed
/// over in favour of a farther one — and comes up empty exactly when no
/// position is ready.
pub proof fn lemma_rr_pick_nearest(ready: Seq<bool>, start: int)
    requires
        0 <= start < ready.len(),
    ensures
        rr_pick(ready, start) is None <==> (forall|i: int| 0 <= i < ready.len() ==> !ready[i]),
        rr_pick(ready, start) matches Some(j) ==> {
            &&& 0 <= j < ready.len()
            &&& ready[j]
            &&& forall|i: int|
                0 <= i < ready.len() && ready[i] ==> cyclic_dist(ready.len() as int, start, j)
                    <= cyclic_dist(ready.len() as int, start, i)
        },
{
    let n = ready.len() as int;
    lemma_rr_pick_from_nearest(ready, start, 0);
    if rr_pick(ready, start) is None {
        assert forall|i: int| 0 <= i < n implies !ready[i] by {
            if ready[i] {
                assert(cyclic_dist(n, start, i) < 0);
            }
        }
    }
}

/// Law (fairness, no starvation): once position `j` has been serviced,
/// the scan resumes just past `j`; while any other position `i` still
/// has a message ready, the very next selection cannot be `j` again.
/// Hence a receiver with pending messages is never skipped more than
/// once consecutively in favour of the same high-volume receiver: over
/// any window of selections, `j` is serviced a second time only after
/// every other ready receiver has been serviced once.
pub proof fn lemma_round_robin_no_double_service(ready: Seq<bool>, j: int, i: int)
    requires
        0 <= j < ready.len(),
        0 <= i < ready.len(),
        i != j,
        ready[i],
    ensures
        rr_pick(ready, if j + 1 == ready.len() { 0int } else { j + 1 }) != Some(j),
{
    let n = ready.len() as int;
    let start: int = if j + 1 == n {
        0
    } else {
        j + 1
    };
    lemma_rr_pick_nearest(ready, start);
    if rr_pick(ready, start) == Some(j) {
        assert(cyclic_dist(n, start, j) == n - 1);
        assert(cyclic_dist(n, start, i) <= n - 1);
        if cyclic_dist(n, start, i) == n - 1 {
            lemma_cyclic_dist_injective(n, start, i, j);
        }
        assert(cyclic_dist(n, start, j) <= cyclic_dist(n, start, i));
        assert(false);
    }
}


/// Law (bounded waiting): while position `i` stays ready, every
/// selection of some other position `j` strictly shrinks the cyclic
/// distance from the scan start to `i`. The distance starts below the
/// number of positions, so `i` is serviced within that many
/// selections: over any window of at least twice the active count, no
/// receiver with pending messages is skipped more than once
/// consecutively relative to any other.
pub proof fn lemma_ready_distance_shrinks(ready: Seq<bool>, start: int, i: int, j: int)
    requires
        0 <= start < ready.len(),
        0 <= i < ready.len(),
        ready[i],
        rr_pick(ready, start) == Some(j),
        j != i,
    ensures
        0 <= cyclic_dist(
            ready.len() as int,
            if j + 1 == ready.len() { 0int } else { j + 1 },
            i,
        ) < cyclic_dist(ready.len() as int, start, i),
{
    let n = ready.len() as int;
    lemma_rr_pick_nearest(ready, start);
    let dj = cyclic_dist(n, start, j);
    let di = cyclic_dist(n, start, i);
    if dj == di {
        lemma_cyclic_dist_injective(n, start, i, j);
    }
    assert(dj < di);
    let s2: int = if j + 1 == n {
        0
    } else {
        j + 1
    };
    assert(cyclic_dist(n, s2, i) == di - dj - 1);
}

} // verus!
