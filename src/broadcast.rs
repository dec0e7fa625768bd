//! Flood broadcast that forwards each value once: a seen-set gates every delivery.
use vstd::prelude::*;

verus! {

/// The seen values after one delivery of `v`: unchanged where `v` was seen already.
pub open spec fn seen_step(seen: Seq<u64>, v: u64) -> Seq<u64> {
    if seen.contains(v) { seen } else { seen.push(v) }
}

/// The seen values after each of `deliveries` in turn.
pub open spec fn seen_after(seen: Seq<u64>, deliveries: Seq<u64>) -> Seq<u64>
    decreases deliveries.len(),
{
    if deliveries.len() == 0 {
        seen
    } else {
        seen_step(seen_after(seen, deliveries.drop_last()), deliveries.last())
    }
}

/// Broadcast state of one node.
pub struct DedupBroadcast {
    seen: Vec<u64>,
    neighbours: Vec<String>,
}

impl DedupBroadcast {
    /// The values seen so far, in order of first arrival.
    pub closed spec fn seen(&self) -> Seq<u64> {
        self.seen@
    }

    /// The peers that new values are passed on to.
    pub closed spec fn neighbours(&self) -> Seq<String> {
        self.neighbours@
    }

    pub open spec fn wf(&self) -> bool {
        self.seen().no_duplicates()
    }

    pub fn new() -> (b: Self)
        ensures
            b.wf(),
            b.seen() == Seq::<u64>::empty(),
            b.neighbours() == Seq::<String>::empty(),
    {
        DedupBroadcast { seen: Vec::new(), neighbours: Vec::new() }
    }

    /// Replaces the neighbour list.
    pub fn set_topology(&mut self, neighbours: Vec<String>)
        ensures
            final(self).seen() == old(self).seen(),
            final(self).neighbours() == neighbours@,
    {
        self.neighbours = neighbours;
    }

    /// Whether `value` has been seen.
    pub fn has_seen(&self, value: u64) -> (r: bool)
        ensures
            r == self.seen().contains(value),
    {
        let mut i: usize = 0;
        while i < self.seen.len()
            invariant
                i <= self.seen@.len(),
                forall|j: int| 0 <= j < i ==> self.seen@[j] != value,
            decreases self.seen@.len() - i,
        {
            if self.seen[i] == value {
                return true;
            }
            i = i + 1;
        }
        false
    }

    /// Takes in `value`, from a client or a peer. A new value is recorded and the peers
    /// to pass it on to are returned; a value seen before changes nothing and goes to
    /// nobody.
    pub fn broadcast(&mut self, value: u64) -> (targets: Vec<String>)
        requires
            old(self).wf(),
        ensures
            final(self).wf(),
            final(self).seen() == seen_step(old(self).seen(), value),
            final(self).neighbours() == old(self).neighbours(),
            targets@ == if old(self).seen().contains(value) {
                Seq::<String>::empty()
            } else {
                old(self).neighbours()
            },
    {
        if self.has_seen(value) {
            return Vec::new();
        }
        self.seen.push(value);
        proof {
            assert forall|a: int, b: int| 0 <= a < b < self.seen@.len() implies self.seen@[a] != self.seen@[b] by {
                if b == self.seen@.len() - 1 {
                    assert(old(self).seen@[a] == self.seen@[a]);
                }
            }
        }
        self.neighbours.clone()
    }

    /// The values seen so far.
    pub fn read(&self) -> (r: Vec<u64>)
        ensures
            r@ == self.seen(),
    {
        self.seen.clone()
    }
}

/// However often and in whatever order values are delivered, each delivered value is
/// held exactly once, and nothing is held that was neither there before nor delivered.
pub proof fn lemma_dedup(seen: Seq<u64>, deliveries: Seq<u64>)
    requires
        seen.no_duplicates(),
    ensures
        seen_after(seen, deliveries).no_duplicates(),
        forall|v: u64| #[trigger] seen_after(seen, deliveries).contains(v) <==> seen.contains(v) || deliveries.contains(v),
    decreases deliveries.len(),
{
    if deliveries.len() > 0 {
        let pre = deliveries.drop_last();
        let d = deliveries.last();
        lemma_dedup(seen, pre);
        let s = seen_after(seen, pre);
        if !s.contains(d) {
            assert forall|a: int, b: int| 0 <= a < b < s.push(d).len() implies s.push(d)[a] != s.push(d)[b] by {
                if b == s.len() {
                    assert(s.contains(s[a]));
                }
            }
        }
        assert forall|v: u64| #[trigger] seen_after(seen, deliveries).contains(v) <==> seen.contains(v) || deliveries.contains(v) by {
            if pre.contains(v) {
                let j = choose|j: int| 0 <= j < pre.len() && pre[j] == v;
                assert(deliveries[j] == v);
            }
            if deliveries.contains(v) && v != d {
                let j = choose|j: int| 0 <= j < deliveries.len() && deliveries[j] == v;
                assert(pre[j] == v);
            }
            if s.push(d).contains(v) && v != d {
                let j = choose|j: int| 0 <= j < s.push(d).len() && s.push(d)[j] == v;
                assert(s[j] == v);
            }
            if v == d {
                assert(deliveries[deliveries.len() - 1] == v);
                assert(s.push(d)[s.len() as int] == v);
            }
            if s.contains(v) {
                let j = choose|j: int| 0 <= j < s.len() && s[j] == v;
                assert(s.push(d)[j] == v);
            }
        }
    }
}

} // verus!
