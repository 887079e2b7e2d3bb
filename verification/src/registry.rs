//! The connection registry: the mutable, ordered set of connection
//! sinks that every broadcast targets.
//!
//! The broker's logic reads nothing of a sink but its identity, so the
//! registry holds sink identifiers; the I/O handle each one stands for
//! lives with the unverified connection layer. Membership is unique,
//! registration order is kept, and removal is idempotent.

use vstd::prelude::*;

verus! {

/// The ordered collection of currently-registered sink identifiers.
/// A broadcast for one message targets exactly the members present at
/// the instant its snapshot is taken.
pub struct Registry {
    sinks: Vec<u64>,
}

impl View for Registry {
    type V = Seq<u64>;

    closed spec fn view(&self) -> Seq<u64> {
        self.sinks@
    }
}

impl Registry {
    /// Well-formed: no sink is registered twice.
    pub open spec fn wf(&self) -> bool {
        forall|i: int, j: int| 0 <= i < j < self@.len() ==> self@[i] != self@[j]
    }

    /// An empty registry.
    pub fn new() -> (r: Registry)
        ensures
            r@ == Seq::<u64>::empty(),
            r.wf(),
    {
        Registry { sinks: Vec::new() }
    }

    /// How many sinks are registered.
    pub fn len(&self) -> (n: usize)
        ensures
            n == self@.len(),
    {
        self.sinks.len()
    }

    /// Whether the sink is currently registered.
    pub fn contains(&self, sink_id: u64) -> (r: bool)
        ensures
            r == self@.contains(sink_id),
    {
        let n = self.sinks.len();
        let mut i: usize = 0;
        while i < n
            invariant
                n == self@.len(),
                0 <= i <= n,
                forall|k: int| 0 <= k < i ==> self@[k] != sink_id,
            decreases n - i,
        {
            if self.sinks[i] == sink_id {
                return true;
            }
            i += 1;
        }
        false
    }

    /// Inserts a new sink at the end of the registration order; a sink
    /// that is already registered is left as it is.
    pub fn register(&mut self, sink_id: u64)
        requires
            old(self).wf(),
        ensures
            final(self).wf(),
            final(self)@ == if old(self)@.contains(sink_id) {
                old(self)@
            } else {
                old(self)@.push(sink_id)
            },
    {
        if !self.contains(sink_id) {
            self.sinks.push(sink_id);
        }
    }

    /// Removes the sink if it is registered, keeping the order of the
    /// rest; removing an absent sink is a no-op, not an error.
    pub fn unregister(&mut self, sink_id: u64)
        requires
            old(self).wf(),
        ensures
            final(self).wf(),
            !final(self)@.contains(sink_id),
            forall|x: u64| x != sink_id ==> final(self)@.contains(x) == old(self)@.contains(x),
            old(self)@.contains(sink_id) ==> exists|k: int|
                0 <= k < old(self)@.len() && old(self)@[k] == sink_id && final(self)@ == old(
                    self,
                )@.remove(k),
            !old(self)@.contains(sink_id) ==> final(self)@ == old(self)@,
    {
        let ghost pre = self@;
        let n = self.sinks.len();
        let mut i: usize = 0;
        while i < n
            invariant
                pre == old(self)@,
                self@ == pre,
                n == pre.len(),
                0 <= i <= n,
                forall|k: int| 0 <= k < i ==> pre[k] != sink_id,
                forall|a: int, b: int| 0 <= a < b < pre.len() ==> pre[a] != pre[b],
            decreases n - i,
        {
            if self.sinks[i] == sink_id {
                self.sinks.remove(i);
                proof {
                    let gi = i as int;
                    assert(self@ == pre.remove(gi));
                    assert forall|a: int, b: int|
                        0 <= a < b < self@.len() implies self@[a] != self@[b] by {
                        let pa: int = if a < gi { a } else { a + 1 };
                        let pb: int = if b < gi { b } else { b + 1 };
                        assert(self@[a] == pre[pa]);
                        assert(self@[b] == pre[pb]);
                    }
                    assert(!self@.contains(sink_id)) by {
                        if exists|k: int| 0 <= k < self@.len() && self@[k] == sink_id {
                            let k = choose|k: int|
                                0 <= k < self@.len() && self@[k] == sink_id;
                            if k < i {
                                assert(pre[k] == sink_id);
                            } else {
                                assert(pre[k + 1] == sink_id);
                                assert(pre[i as int] == sink_id);
                            }
                        }
                    }
                    assert forall|x: u64| x != sink_id implies self@.contains(x) == pre.contains(
                        x,
                    ) by {
                        if pre.contains(x) {
                            let k = choose|k: int| 0 <= k < pre.len() && pre[k] == x;
                            if k < i {
                                assert(self@[k] == x);
                            } else {
                                assert(k != i);
                                assert(self@[k - 1] == x);
                            }
                        }
                        if self@.contains(x) {
                            let k = choose|k: int| 0 <= k < self@.len() && self@[k] == x;
                            if k < i {
                                assert(pre[k] == x);
                            } else {
                                assert(pre[k + 1] == x);
                            }
                        }
                    }
                }
                return ;
            }
            i += 1;
        }
        proof {
            assert(!pre.contains(sink_id));
        }
    }

    /// The current membership in registration order: the broadcast
    /// target set for one message.
    pub fn snapshot(&self) -> (r: Vec<u64>)
        ensures
            r@ == self@,
    {
        let r = self.sinks.clone();
        proof {
            assert(r@ =~= self.sinks@);
        }
        r
    }
}

} // verus!
