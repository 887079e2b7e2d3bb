//! The broker: merges messages from every attached inbound receiver and
//! plans one broadcast per dequeued message.
//!
//! One step of the broker scans the active receivers in cyclic order,
//! starting just past the receiver serviced last (round-robin fairness),
//! prunes every receiver found exhausted, dequeues one message from the
//! first receiver that has one ready, and targets exactly the sinks
//! registered at that instant. A write failure on one sink is recovered
//! by unregistering that sink alone; the other sinks and the broker
//! itself are unaffected.

use vstd::prelude::*;

use crate::channel::Receiver;
use crate::channel::TakeOutcome;
use crate::message::Message;
use crate::registry::Registry;

verus! {

/// Why a broadcast write to one sink failed.
#[derive(Clone, Copy, PartialEq, Eq, Structural, Debug)]
pub enum WriteErrorKind {
    /// The peer closed the connection.
    ConnectionClosed,
    /// The transport reported a fatal error mid-write.
    TransportError,
}

/// The structured report handed to the observability collaborator when a
/// broadcast write fails. Failures are reported, never propagated.
#[derive(Clone, Copy, PartialEq, Eq, Structural, Debug)]
pub struct FailureReport {
    pub sink_id: u64,
    pub kind: WriteErrorKind,
}

/// One delivery event: what a single advance of the broker did.
pub enum StepOutcome {
    /// One message was dequeued from the receiver with identifier
    /// `source` and is to be written to every sink in `targets`, the
    /// registry membership at the instant the broadcast began.
    Dispatched { source: u64, message: Message, targets: Vec<u64> },
    /// No active receiver had a message ready. The caller should
    /// suspend until a message arrives or a receiver is attached,
    /// not poll again immediately.
    Idle,
}

struct Slot {
    id: u64,
    rx: Receiver,
}

/// No identifier occurs twice.
pub open spec fn distinct_ids(s: Seq<u64>) -> bool {
    forall|i: int, j: int| 0 <= i < j < s.len() ==> s[i] != s[j]
}

/// Every identifier is below the bound.
pub open spec fn bounded_ids(s: Seq<u64>, bound: u64) -> bool {
    forall|i: int| 0 <= i < s.len() ==> #[trigger] s[i] < bound
}

/// Appending a fresh identifier at least as large as the bound keeps
/// the identifiers distinct.
proof fn lemma_push_fresh_id(s: Seq<u64>, id: u64, bound: u64)
    requires
        distinct_ids(s),
        bounded_ids(s, id),
        id < bound,
    ensures
        distinct_ids(s.push(id)),
        bounded_ids(s.push(id), bound),
{
    let t = s.push(id);
    assert forall|i: int, j: int| 0 <= i < j < t.len() implies t[i] != t[j] by {
        if j < s.len() {
            assert(s[i] != s[j]);
        } else {
            assert(s[i] < id);
        }
    }
    assert forall|i: int| 0 <= i < t.len() implies #[trigger] t[i] < bound by {
        if i < s.len() {
            assert(s[i] < id);
        }
    }
}

/// Removing one identifier keeps the rest distinct, bounded, and a
/// subset of what was there.
proof fn lemma_remove_id(s: Seq<u64>, at: int, bound: u64)
    requires
        0 <= at < s.len(),
        distinct_ids(s),
        bounded_ids(s, bound),
    ensures
        distinct_ids(s.remove(at)),
        bounded_ids(s.remove(at), bound),
        forall|x: u64| s.remove(at).contains(x) ==> s.contains(x),
{
    let t = s.remove(at);
    assert forall|i: int, j: int| 0 <= i < j < t.len() implies t[i] != t[j] by {
        let pi: int = if i < at {
            i
        } else {
            i + 1
        };
        let pj: int = if j < at {
            j
        } else {
            j + 1
        };
        assert(t[i] == s[pi]);
        assert(t[j] == s[pj]);
    }
    assert forall|i: int| 0 <= i < t.len() implies #[trigger] t[i] < bound by {
        if i < at {
            assert(t[i] == s[i]);
        } else {
            assert(t[i] == s[i + 1]);
        }
    }
    assert forall|x: u64| t.contains(x) implies s.contains(x) by {
        let k = choose|k: int| 0 <= k < t.len() && t[k] == x;
        if k < at {
            assert(s[k] == x);
        } else {
            assert(s[k + 1] == x);
        }
    }
}

/// The identifier `x` occurs somewhere before the identifier `y` in
/// the sequence.
pub open spec fn appears_in_order(full: Seq<u64>, x: u64, y: u64) -> bool {
    exists|p0: int, q0: int| 0 <= p0 < q0 < full.len() && full[p0] == x && full[q0] == y
}

/// Every pair of identifiers of `sub` occurs in `full` in the same
/// relative order: `sub` reads as `full` with some entries left out.
pub open spec fn keeps_order(sub: Seq<u64>, full: Seq<u64>) -> bool {
    forall|p: int, q: int|
        0 <= p < q < sub.len() ==> #[trigger] appears_in_order(full, sub[p], sub[q])
}

/// A sequence reads as itself with nothing left out.
proof fn lemma_keeps_order_refl(s: Seq<u64>)
    ensures
        keeps_order(s, s),
{
    assert forall|p: int, q: int| 0 <= p < q < s.len() implies #[trigger] appears_in_order(
        s,
        s[p],
        s[q],
    ) by {
        assert(0 <= p < q < s.len() && s[p] == s[p] && s[q] == s[q]);
    }
}

/// Leaving one more entry out does not disturb the relative order of
/// the rest.
proof fn lemma_keeps_order_remove(sub: Seq<u64>, full: Seq<u64>, at: int)
    requires
        keeps_order(sub, full),
        0 <= at < sub.len(),
    ensures
        keeps_order(sub.remove(at), full),
{
    let t = sub.remove(at);
    assert forall|p: int, q: int| 0 <= p < q < t.len() implies #[trigger] appears_in_order(
        full,
        t[p],
        t[q],
    ) by {
        let pp: int = if p < at {
            p
        } else {
            p + 1
        };
        let qq: int = if q < at {
            q
        } else {
            q + 1
        };
        assert(t[p] == sub[pp]);
        assert(t[q] == sub[qq]);
        assert(appears_in_order(full, sub[pp], sub[qq]));
    }
}

/// The broker's state: the registry of outbound sinks, the active
/// inbound receivers in attachment order, and the rotating scan cursor.
pub struct Broker {
    registry: Registry,
    slots: Vec<Slot>,
    cursor: usize,
    next_id: u64,
}

impl Broker {
    /// The identifiers of the active receivers, in attachment order.
    pub closed spec fn active_ids(&self) -> Seq<u64> {
        self.slots@.map_values(|s: Slot| s.id)
    }

    /// The attached receivers themselves, in attachment order, aligned
    /// index by index with `active_ids`.
    pub closed spec fn attached(&self) -> Seq<Receiver> {
        self.slots@.map_values(|s: Slot| s.rx)
    }

    /// The current registry membership, in registration order.
    pub closed spec fn registry_view(&self) -> Seq<u64> {
        self.registry@
    }

    /// Where the next scan starts: the position just past the receiver
    /// serviced last (taken modulo the active count when scanning).
    pub closed spec fn scan_cursor(&self) -> int {
        self.cursor as int
    }

    /// How many receiver identifiers have ever been issued; the next
    /// attached receiver gets this identifier.
    pub closed spec fn issued(&self) -> int {
        self.next_id as int
    }

    /// Well-formed: registry membership unique, receiver identifiers
    /// unique and below the issue counter, cursor within bounds.
    pub closed spec fn wf(&self) -> bool {
        &&& self.registry.wf()
        &&& self.cursor <= self.slots@.len()
        &&& distinct_ids(self.active_ids())
        &&& bounded_ids(self.active_ids(), self.next_id)
    }

    /// A broker with no attached receivers that will broadcast to the
    /// sinks of the given registry.
    pub fn new(registry: Registry) -> (b: Broker)
        requires
            registry.wf(),
        ensures
            b.wf(),
            b.active_ids() == Seq::<u64>::empty(),
            b.registry_view() == registry@,
            b.scan_cursor() == 0,
            b.issued() == 0,
    {
        let b = Broker { registry, slots: Vec::new(), cursor: 0, next_id: 0 };
        proof {
            assert(b.active_ids() =~= Seq::<u64>::empty());
        }
        b
    }

    /// A broker with no attached receivers and an empty registry.
    pub fn empty() -> (b: Broker)
        ensures
            b.wf(),
            b.active_ids() == Seq::<u64>::empty(),
            b.registry_view() == Seq::<u64>::empty(),
            b.scan_cursor() == 0,
            b.issued() == 0,
    {
        Broker::new(Registry::new())
    }

    /// Attaches receivers to the active set, in the given order, each
    /// under a freshly issued identifier: attachment order fixes the
    /// identifiers. Already-active receivers keep their position, so no
    /// pending message is lost or duplicated by attaching more.
    pub fn extend_with(&mut self, receivers: Vec<Receiver>)
        requires
            old(self).wf(),
            old(self).issued() + receivers@.len() <= u64::MAX,
        ensures
            final(self).wf(),
            final(self).registry_view() == old(self).registry_view(),
            final(self).scan_cursor() == old(self).scan_cursor(),
            final(self).issued() == old(self).issued() + receivers@.len(),
            // exactly the given receivers are attached, after the ones
            // already active, in the given order: none is lost,
            // invented, duplicated or reordered.
            final(self).attached() == old(self).attached() + receivers@,
            final(self).active_ids().len() == old(self).active_ids().len() + receivers@.len(),
            forall|k: int|
                0 <= k < old(self).active_ids().len() ==> final(self).active_ids()[k] == old(
                    self,
                ).active_ids()[k],
            forall|k: int|
                old(self).active_ids().len() <= k < final(self).active_ids().len()
                    ==> final(self).active_ids()[k] == old(self).issued() + (k - old(
                    self,
                ).active_ids().len()),
    {
        let total = receivers.len();
        let mut rest = receivers;
        let mut added: usize = 0;
        proof {
            assert(rest@ =~= receivers@.subrange(0, total as int));
            assert(old(self).attached() + receivers@.subrange(0, 0) =~= self.attached());
        }
        while added < total
            invariant
                old(self).wf(),
                old(self).issued() + total <= u64::MAX,
                0 <= added <= total,
                total == receivers@.len(),
                rest@ == receivers@.subrange(added as int, total as int),
                self.registry == old(self).registry,
                self.cursor == old(self).cursor,
                self.next_id == old(self).next_id + added,
                self.attached() == old(self).attached() + receivers@.subrange(0, added as int),
                self.active_ids().len() == old(self).active_ids().len() + added,
                forall|k: int|
                    0 <= k < old(self).active_ids().len() ==> self.active_ids()[k] == old(
                        self,
                    ).active_ids()[k],
                forall|k: int|
                    old(self).active_ids().len() <= k < self.active_ids().len()
                        ==> self.active_ids()[k] == old(self).issued() + (k - old(
                        self,
                    ).active_ids().len()),
                self.wf(),
            decreases total - added,
        {
            let ghost before_ids = self.active_ids();
            let ghost before_rx = self.attached();
            let ghost slots_before = self.slots@;
            let ghost rest_before = rest@;
            let rx = rest.remove(0);
            let ghost rx0 = rx;
            let id = self.next_id;
            self.slots.push(Slot { id, rx });
            self.next_id = self.next_id + 1;
            added += 1;
            proof {
                assert(rx0 == rest_before[0]);
                assert(rx0 == receivers@[added - 1]);
                assert forall|k: int|
                    0 <= k < rest@.len() implies rest@[k] == receivers@.subrange(
                    added as int,
                    total as int,
                )[k] by {
                    assert(rest@[k] == rest_before[k + 1]);
                }
                assert(rest@ =~= receivers@.subrange(added as int, total as int));
                assert forall|k: int|
                    0 <= k < before_ids.len() implies self.active_ids()[k] == before_ids[k]
                    && self.attached()[k] == before_rx[k] by {
                    assert(self.slots@[k] == slots_before[k]);
                }
                assert(self.active_ids().len() == before_ids.len() + 1);
                assert(self.active_ids()[before_ids.len() as int] == id);
                assert(self.active_ids() =~= before_ids.push(id));
                lemma_push_fresh_id(before_ids, id, self.next_id);
                assert(self.attached()[before_rx.len() as int] == rx0);
                assert(self.attached() =~= before_rx.push(rx0));
                assert forall|k: int|
                    0 <= k < before_rx.push(rx0).len() implies before_rx.push(rx0)[k] == (old(
                    self,
                ).attached() + receivers@.subrange(0, added as int))[k] by {
                    let base = old(self).attached().len();
                    if k < base {
                    } else if k < before_rx.len() {
                        assert(before_rx[k] == receivers@.subrange(0, added - 1)[k - base]);
                    }
                }
                assert(before_rx.push(rx0) =~= old(self).attached() + receivers@.subrange(
                    0,
                    added as int,
                ));
            }
        }
        proof {
            assert(receivers@.subrange(0, total as int) =~= receivers@);
        }
    }

    /// How many receivers are active. The broker's run sequence is done
    /// once this reaches zero and no further receivers will be attached.
    pub fn active_count(&self) -> (n: usize)
        ensures
            n == self.active_ids().len(),
    {
        self.slots.len()
    }

    /// How many receiver identifiers have been issued so far: the next
    /// attached receiver gets exactly this identifier. Lets a caller
    /// check the identifier-space bound that `extend_with` requires.
    pub fn issued_count(&self) -> (n: u64)
        ensures
            n == self.issued(),
    {
        self.next_id
    }

    /// How many sinks are registered.
    pub fn sink_count(&self) -> (n: usize)
        ensures
            n == self.registry_view().len(),
    {
        self.registry.len()
    }

    /// The current broadcast target set, in registration order.
    pub fn sink_snapshot(&self) -> (r: Vec<u64>)
        ensures
            r@ == self.registry_view(),
    {
        self.registry.snapshot()
    }

    /// Registers a sink: it is targeted by every broadcast that begins
    /// after this call, and by none that began before.
    pub fn register_sink(&mut self, sink_id: u64)
        requires
            old(self).wf(),
        ensures
            final(self).wf(),
            final(self).active_ids() == old(self).active_ids(),
            final(self).scan_cursor() == old(self).scan_cursor(),
            final(self).issued() == old(self).issued(),
            final(self).registry_view() == if old(self).registry_view().contains(sink_id) {
                old(self).registry_view()
            } else {
                old(self).registry_view().push(sink_id)
            },
    {
        self.registry.register(sink_id);
        proof {
            assert(self.active_ids() =~= old(self).active_ids());
        }
    }

    /// Unregisters a sink: broadcasts that begin after this call no
    /// longer target it. Idempotent; every other sink is unaffected.
    pub fn unregister_sink(&mut self, sink_id: u64)
        requires
            old(self).wf(),
        ensures
            final(self).wf(),
            final(self).active_ids() == old(self).active_ids(),
            final(self).scan_cursor() == old(self).scan_cursor(),
            final(self).issued() == old(self).issued(),
            !final(self).registry_view().contains(sink_id),
            forall|x: u64|
                x != sink_id ==> final(self).registry_view().contains(x) == old(
                    self,
                ).registry_view().contains(x),
            old(self).registry_view().contains(sink_id) ==> exists|k: int|
                0 <= k < old(self).registry_view().len() && old(self).registry_view()[k] == sink_id
                    && final(self).registry_view() == old(self).registry_view().remove(k),
            !old(self).registry_view().contains(sink_id) ==> final(self).registry_view() == old(
                self,
            ).registry_view(),
    {
        self.registry.unregister(sink_id);
        proof {
            assert(self.active_ids() =~= old(self).active_ids());
        }
    }

    /// Recovers locally from a failed broadcast write: the failing sink
    /// is unregistered so that no later broadcast targets it, and a
    /// structured report for the observability collaborator is returned.
    /// Nothing else changes: the failure touches no other sink, no
    /// receiver, and does not abort the broker.
    pub fn apply_write_failure(&mut self, sink_id: u64, kind: WriteErrorKind) -> (r: FailureReport)
        requires
            old(self).wf(),
        ensures
            final(self).wf(),
            final(self).active_ids() == old(self).active_ids(),
            final(self).scan_cursor() == old(self).scan_cursor(),
            final(self).issued() == old(self).issued(),
            !final(self).registry_view().contains(sink_id),
            forall|x: u64|
                x != sink_id ==> final(self).registry_view().contains(x) == old(
                    self,
                ).registry_view().contains(x),
            old(self).registry_view().contains(sink_id) ==> exists|k: int|
                0 <= k < old(self).registry_view().len() && old(self).registry_view()[k] == sink_id
                    && final(self).registry_view() == old(self).registry_view().remove(k),
            !old(self).registry_view().contains(sink_id) ==> final(self).registry_view() == old(
                self,
            ).registry_view(),
            r == (FailureReport { sink_id, kind }),
    {
        self.registry.unregister(sink_id);
        proof {
            assert(self.active_ids() =~= old(self).active_ids());
        }
        FailureReport { sink_id, kind }
    }

    /// Settles one poll of the scan: the receiver that stood at
    /// position `at` has been taken out of the active set and polled,
    /// and `outcome` is what the poll found. Exactly one thing happens
    /// per outcome: a dequeued message puts the receiver back in its
    /// place, rests the cursor just past it, and becomes the delivery
    /// event carrying that very message and the registry snapshot; an
    /// empty poll puts the receiver back and moves the cursor on with
    /// no event; an exhausted poll drops the receiver for good and
    /// yields no event.
    fn settle(&mut self, at: usize, slot: Slot, outcome: TakeOutcome) -> (r: Option<StepOutcome>)
        requires
            at <= old(self).active_ids().len(),
            at < usize::MAX,
        ensures
            final(self).registry == old(self).registry,
            final(self).registry_view() == old(self).registry_view(),
            final(self).issued() == old(self).issued(),
            match outcome {
                TakeOutcome::Taken(m) => {
                    &&& final(self).active_ids() == old(self).active_ids().insert(
                        at as int,
                        slot.id,
                    )
                    &&& final(self).scan_cursor() == at + 1
                    &&& r matches Some(
                        StepOutcome::Dispatched { source, message, targets },
                    ) && source == slot.id && message == m && targets@ == old(
                        self,
                    ).registry_view()
                },
                TakeOutcome::Empty => {
                    &&& final(self).active_ids() == old(self).active_ids().insert(
                        at as int,
                        slot.id,
                    )
                    &&& final(self).scan_cursor() == at + 1
                    &&& r is None
                },
                TakeOutcome::Exhausted => {
                    &&& final(self).active_ids() == old(self).active_ids()
                    &&& final(self).scan_cursor() == old(self).scan_cursor()
                    &&& r is None
                },
            },
    {
        let ghost slot0 = slot;
        match outcome {
            TakeOutcome::Taken(message) => {
                let source = slot.id;
                self.slots.insert(at, slot);
                self.cursor = at + 1;
                proof {
                    let ga = at as int;
                    assert forall|k: int| 0 <= k < self.active_ids().len() implies
                        self.active_ids()[k] == old(self).active_ids().insert(ga, slot0.id)[k] by {
                        if k < ga {
                            assert(self.slots@[k] == old(self).slots@[k]);
                        } else if k == ga {
                            assert(self.slots@[k] == slot0);
                        } else {
                            assert(self.slots@[k] == old(self).slots@[k - 1]);
                        }
                    }
                    assert(self.active_ids() =~= old(self).active_ids().insert(ga, slot0.id));
                }
                let targets = self.registry.snapshot();
                Some(StepOutcome::Dispatched { source, message, targets })
            },
            TakeOutcome::Empty => {
                self.slots.insert(at, slot);
                self.cursor = at + 1;
                proof {
                    let ga = at as int;
                    assert forall|k: int| 0 <= k < self.active_ids().len() implies
                        self.active_ids()[k] == old(self).active_ids().insert(ga, slot0.id)[k] by {
                        if k < ga {
                            assert(self.slots@[k] == old(self).slots@[k]);
                        } else if k == ga {
                            assert(self.slots@[k] == slot0);
                        } else {
                            assert(self.slots@[k] == old(self).slots@[k - 1]);
                        }
                    }
                    assert(self.active_ids() =~= old(self).active_ids().insert(ga, slot0.id));
                }
                None
            },
            TakeOutcome::Exhausted => {
                None
            },
        }
    }

    /// One advance of the broker's run sequence.
    ///
    /// Scans the active receivers in cyclic order starting at the scan
    /// cursor. Each poll is settled by `settle`, which fixes what every
    /// outcome does: the first receiver found with a ready message is
    /// serviced — exactly one message is dequeued from it, the registry
    /// is snapshotted, and that message with its target set is returned
    /// as a delivery event, the cursor resting just past the serviced
    /// receiver; a receiver found merely empty is kept; a receiver
    /// found exhausted is pruned permanently. If no receiver yields,
    /// the step reports `Idle` after at most one full cycle, and the
    /// caller suspends rather than spins.
    pub fn step(&mut self) -> (r: StepOutcome)
        requires
            old(self).wf(),
        ensures
            final(self).wf(),
            final(self).registry_view() == old(self).registry_view(),
            final(self).issued() == old(self).issued(),
            // receivers are only ever pruned, never invented: an
            // identifier absent from the active set stays absent.
            forall|id: u64|
                final(self).active_ids().contains(id) ==> old(self).active_ids().contains(id),
            // pruning keeps the surviving receivers in their relative
            // order: the active set reads as before with the exhausted
            // entries left out.
            keeps_order(final(self).active_ids(), old(self).active_ids()),
            r matches StepOutcome::Dispatched { source, targets, .. } ==> {
                // the target set is the registry membership at the
                // instant this broadcast began.
                &&& targets@ == old(self).registry_view()
                // the serviced receiver was active and, having yielded a
                // message, was not pruned.
                &&& old(self).active_ids().contains(source)
                &&& final(self).active_ids().contains(source)
                // round-robin: the scan resumes just past the serviced
                // receiver.
                &&& 0 < final(self).scan_cursor() <= final(self).active_ids().len()
                &&& final(self).active_ids()[final(self).scan_cursor() - 1] == source
            },
    {
        proof {
            lemma_keeps_order_refl(self.active_ids());
        }
        let mut remaining = self.slots.len();
        while remaining > 0
            invariant
                old(self).wf(),
                self.registry == old(self).registry,
                self.next_id == old(self).next_id,
                self.cursor <= self.slots@.len(),
                distinct_ids(self.active_ids()),
                bounded_ids(self.active_ids(), self.next_id),
                forall|id: u64|
                    self.active_ids().contains(id) ==> old(self).active_ids().contains(id),
                keeps_order(self.active_ids(), old(self).active_ids()),
            decreases remaining,
        {
            if self.slots.len() == 0 {
                break ;
            }
            if self.cursor >= self.slots.len() {
                self.cursor = 0;
            }
            let i = self.cursor;
            let ghost cur_slots = self.slots@;
            let ghost cur_ids = self.active_ids();
            let mut slot = self.slots.remove(i);
            proof {
                let gi = i as int;
                assert forall|k: int| 0 <= k < self.active_ids().len() implies
                    self.active_ids()[k] == cur_ids.remove(gi)[k] by {
                    if k < gi {
                        assert(self.slots@[k] == cur_slots[k]);
                    } else {
                        assert(self.slots@[k] == cur_slots[k + 1]);
                    }
                }
                assert(self.active_ids() =~= cur_ids.remove(gi));
            }
            let outcome = slot.rx.try_take();
            let ghost polled = outcome;
            let ghost sid = slot.id;
            proof {
                assert(sid == cur_ids[i as int]);
                assert(cur_ids.contains(sid));
            }
            match self.settle(i, slot, outcome) {
                Some(event) => {
                    proof {
                        let gi = i as int;
                        assert forall|k: int| 0 <= k < cur_ids.len() implies cur_ids.remove(
                            gi,
                        ).insert(gi, sid)[k] == cur_ids[k] by {
                            if k > gi {
                                assert(cur_ids.remove(gi)[k - 1] == cur_ids[k]);
                            }
                        }
                        assert(cur_ids.remove(gi).insert(gi, sid) =~= cur_ids);
                        assert(self.active_ids()[gi] == sid);
                    }
                    return event;
                },
                None => {
                    remaining = remaining - 1;
                    proof {
                        let gi = i as int;
                        match polled {
                            TakeOutcome::Taken(_) => {
                                assert(false);
                            },
                            TakeOutcome::Empty => {
                                assert forall|k: int| 0 <= k < cur_ids.len() implies cur_ids.remove(
                                    gi,
                                ).insert(gi, sid)[k] == cur_ids[k] by {
                                    if k > gi {
                                        assert(cur_ids.remove(gi)[k - 1] == cur_ids[k]);
                                    }
                                }
                                assert(cur_ids.remove(gi).insert(gi, sid) =~= cur_ids);
                            },
                            TakeOutcome::Exhausted => {
                                lemma_remove_id(cur_ids, gi, self.next_id);
                                lemma_keeps_order_remove(cur_ids, old(self).active_ids(), gi);
                            },
                        }
                    }
                },
            }
        }
        StepOutcome::Idle
    }
}

/// Law (failure isolation): a broadcast that began with sinks `a`, `b`
/// and `c` registered targets all three; if the write to `b` then fails
/// and is recovered, the registry — and with it the next broadcast's
/// target snapshot — still holds `a` and `c` and no longer holds `b`.
/// The hypotheses are exactly what `Broker::step` ensures of a target
/// snapshot and what `Broker::apply_write_failure` ensures of the
/// registry afterwards.
pub proof fn lemma_failure_isolation(
    first_targets: Seq<u64>,
    reg_after: Seq<u64>,
    a: u64,
    b: u64,
    c: u64,
)
    requires
        first_targets.contains(a),
        first_targets.contains(b),
        first_targets.contains(c),
        a != b,
        c != b,
        !reg_after.contains(b),
        forall|x: u64| x != b ==> reg_after.contains(x) == first_targets.contains(x),
    ensures
        reg_after.contains(a),
        reg_after.contains(c),
        !reg_after.contains(b),
{
}

/// Law (no retroactive delivery): a sink registered after one message's
/// broadcast began and before the next receives the later message but
/// never the earlier one. The earlier target snapshot was fixed at its
/// broadcast's start and lacks the sink; registration appends the sink,
/// so every snapshot taken afterwards holds it.
pub proof fn lemma_no_retroactive_delivery(
    earlier_targets: Seq<u64>,
    reg_at_earlier: Seq<u64>,
    sink_id: u64,
)
    requires
        earlier_targets == reg_at_earlier,
        !reg_at_earlier.contains(sink_id),
    ensures
        !earlier_targets.contains(sink_id),
        reg_at_earlier.push(sink_id).contains(sink_id),
{
    assert(reg_at_earlier.push(sink_id)[reg_at_earlier.len() as int] == sink_id);
}

/// Law (exhaustion pruning is permanent): `Broker::step` only removes
/// identifiers from the active set and services only active ones, so a
/// receiver absent before a step — in particular one pruned as
/// exhausted by an earlier step — is still absent after it and cannot
/// be the step's source; the remaining receivers are served as before.
pub proof fn lemma_pruned_never_serviced(before: Broker, after: Broker, gone: u64, source: u64)
    requires
        !before.active_ids().contains(gone),
        forall|id: u64| after.active_ids().contains(id) ==> before.active_ids().contains(id),
        before.active_ids().contains(source),
    ensures
        !after.active_ids().contains(gone),
        source != gone,
{
}

} // verus!
