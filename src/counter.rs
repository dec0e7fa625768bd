//! Grow-only counter converging under gossip: every `(origin, serial)` delta is applied
//! exactly once, whatever the order and number of its deliveries.
use vstd::prelude::*;

verus! {

/// What became of one delivered delta.
#[derive(Clone, Copy, Debug, PartialEq, Eq, Structural)]
pub enum DeltaOutcome {
    /// It extended the contiguous prefix of its origin and was applied, along with any
    /// stashed deltas that became contiguous; it should be passed on to the neighbours.
    Applied,
    /// Its serial was applied before; nothing changed.
    AlreadyApplied,
    /// A serial before it is missing; it is held until the gap closes.
    Stashed,
    /// Applying it would carry the total past `u64::MAX`; nothing changed.
    Overflow,
}

/// Sum of the deltas of serials `1..=h`.
pub open spec fn prefix_sum(d: Map<int, u64>, h: nat) -> nat
    decreases h,
{
    if h == 0 { 0 } else { (prefix_sum(d, (h - 1) as nat) + d[h as int]) as nat }
}

/// `h` is the contiguous high-water mark of `d`: serials `1..=h` all arrived, `h + 1` did not.
pub open spec fn contiguous(d: Map<int, u64>, h: nat) -> bool {
    &&& forall|s: int| 1 <= s <= h ==> #[trigger] d.contains_key(s)
    &&& !d.contains_key(h + 1 as int)
}

/// The deltas that have arrived from one origin after one more delivery: the first
/// delivery of a serial is the one that counts, and serials start at 1.
pub open spec fn history_step(d: Map<int, u64>, serial: u64, delta: u64) -> Map<int, u64> {
    if serial == 0 || d.contains_key(serial as int) { d } else { d.insert(serial as int, delta) }
}

/// Taking in the run of serials that `d2` holds right after `h` would carry `value` past
/// `u64::MAX`.
pub open spec fn run_overflows(d: Map<int, u64>, d2: Map<int, u64>, h: nat, value: u64) -> bool {
    exists|t: nat| #![trigger prefix_sum(d2, t)]
        t > h && (forall|s: int| h < s <= t ==> #[trigger] d2.contains_key(s))
            && value + prefix_sum(d2, t) - prefix_sum(d, h) > u64::MAX
}

/// The deltas that an origin issued, `ds[i]` under serial `i + 1`.
pub open spec fn issued(ds: Seq<u64>) -> Map<int, u64> {
    Map::new(|s: int| 1 <= s <= ds.len(), |s: int| ds[s - 1])
}

pub open spec fn seq_sum(ds: Seq<u64>) -> nat
    decreases ds.len(),
{
    if ds.len() == 0 { 0 } else { (seq_sum(ds.drop_last()) + ds.last()) as nat }
}

pub open spec fn sum_all(dss: Seq<Seq<u64>>) -> nat
    decreases dss.len(),
{
    if dss.len() == 0 { 0 } else { sum_all(dss.drop_last()) + seq_sum(dss.last()) }
}

/// Reconciliation state for the deltas of one origin.
struct OriginState {
    origin: String,
    high: u64,
    /// Serials above `high + 1` that arrived early, with their deltas.
    pending: Vec<(u64, u64)>,
    delivered: Ghost<Map<int, u64>>,
}

impl OriginState {
    spec fn wf(&self) -> bool {
        let d = self.delivered@;
        &&& contiguous(d, self.high as nat)
        &&& forall|s: int| #[trigger] d.contains_key(s) ==> 1 <= s <= u64::MAX
        &&& forall|i: int| 0 <= i < self.pending@.len() ==> {
            &&& (#[trigger] self.pending@[i]).0 > self.high
            &&& d.contains_key(self.pending@[i].0 as int)
            &&& d[self.pending@[i].0 as int] == self.pending@[i].1
        }
        &&& forall|s: int| #[trigger] d.contains_key(s) && s > self.high ==>
            exists|i: int| 0 <= i < self.pending@.len() && (#[trigger] self.pending@[i]).0 == s
    }

    spec fn applied(&self) -> nat {
        prefix_sum(self.delivered@, self.high as nat)
    }
}

proof fn lemma_prefix_agree(d1: Map<int, u64>, d2: Map<int, u64>, h: nat)
    requires
        forall|s: int| 1 <= s <= h ==> #[trigger] d1.contains_key(s),
        forall|s: int| 1 <= s <= h ==> #[trigger] d2.contains_key(s),
        forall|s: int| 1 <= s <= h ==> #[trigger] d1[s] == d2[s],
    ensures
        prefix_sum(d1, h) == prefix_sum(d2, h),
    decreases h,
{
    if h > 0 {
        lemma_prefix_agree(d1, d2, (h - 1) as nat);
        assert(d1[h as int] == d2[h as int]);
    }
}

impl OriginState {
    fn fresh(origin: String) -> (o: Self)
        ensures
            o.wf(),
            o.origin == origin,
            o.high == 0,
            o.delivered@ == Map::<int, u64>::empty(),
    {
        OriginState { origin, high: 0, pending: Vec::new(), delivered: Ghost(Map::empty()) }
    }

    /// The stashed delta of serial `s`, if `s` is stashed.
    fn find_pending(&self, s: u64) -> (r: Option<u64>)
        requires
            self.wf(),
        ensures
            match r {
                Some(x) => s > self.high && self.delivered@.contains_key(s as int) && x == self.delivered@[s as int],
                None => !(s > self.high && self.delivered@.contains_key(s as int)),
            },
    {
        let mut i: usize = 0;
        while i < self.pending.len()
            invariant
                self.wf(),
                i <= self.pending@.len(),
                forall|j: int| 0 <= j < i ==> (#[trigger] self.pending@[j]).0 != s,
            decreases self.pending@.len() - i,
        {
            if self.pending[i].0 == s {
                return Some(self.pending[i].1);
            }
            i = i + 1;
        }
        None
    }

    /// The end of the contiguous run that `serial`, the serial right after `high`, opens,
    /// and the sum of the deltas it brings in; `None` where that sum does not fit in what
    /// is left below `u64::MAX` above `base`.
    fn run(&self, serial: u64, delta: u64, base: u64) -> (r: Option<(u64, u64)>)
        requires
            self.wf(),
            serial == self.high + 1,
        ensures
            ({
                let d = self.delivered@;
                let d2 = d.insert(serial as int, delta);
                match r {
                    Some((top, sum)) => {
                        &&& top >= serial
                        &&& contiguous(d2, top as nat)
                        &&& sum == prefix_sum(d2, top as nat) - prefix_sum(d, self.high as nat)
                        &&& base + sum <= u64::MAX
                    },
                    None => run_overflows(d, d2, self.high as nat, base),
                }
            }),
    {
        let ghost d = self.delivered@;
        let ghost d2 = d.insert(serial as int, delta);
        proof {
            lemma_prefix_agree(d, d2, self.high as nat);
            assert(prefix_sum(d2, serial as nat) == prefix_sum(d2, self.high as nat) + delta);
        }
        if delta > u64::MAX - base {
            return None;
        }
        let mut top: u64 = serial;
        let mut sum: u64 = delta;
        loop
            invariant
                self.wf(),
                d == self.delivered@,
                d2 == d.insert(serial as int, delta),
                serial == self.high + 1,
                top >= serial,
                forall|s: int| 1 <= s <= top ==> #[trigger] d2.contains_key(s),
                sum == prefix_sum(d2, top as nat) - prefix_sum(d, self.high as nat),
                prefix_sum(d2, self.high as nat) == prefix_sum(d, self.high as nat),
                base + sum <= u64::MAX,
            decreases u64::MAX - top,
        {
            if top == u64::MAX {
                assert(!d2.contains_key(top + 1 as int));
                return Some((top, sum));
            }
            match self.find_pending(top + 1) {
                Some(x) => {
                    proof {
                        assert(prefix_sum(d2, (top + 1) as nat) == prefix_sum(d2, top as nat) + x);
                    }
                    if x > u64::MAX - base - sum {
                        return None;
                    }
                    top = top + 1;
                    sum = sum + x;
                },
                None => {
                    return Some((top, sum));
                },
            }
        }
    }

    /// Takes in the run that `serial` opened up to `top`.
    fn advance(&mut self, serial: u64, delta: u64, top: u64)
        requires
            old(self).wf(),
            serial == old(self).high + 1,
            top >= serial,
            contiguous(old(self).delivered@.insert(serial as int, delta), top as nat),
        ensures
            final(self).wf(),
            final(self).origin == old(self).origin,
            final(self).high == top,
            final(self).delivered@ == old(self).delivered@.insert(serial as int, delta),
    {
        let ghost d = self.delivered@;
        let ghost d2 = d.insert(serial as int, delta);
        let mut kept: Vec<(u64, u64)> = Vec::new();
        let mut i: usize = 0;
        while i < self.pending.len()
            invariant
                old(self).wf(),
                *self == *old(self),
                d == self.delivered@,
                i <= self.pending@.len(),
                forall|j: int| 0 <= j < kept@.len() ==> {
                    &&& (#[trigger] kept@[j]).0 > top
                    &&& d.contains_key(kept@[j].0 as int)
                    &&& d[kept@[j].0 as int] == kept@[j].1
                },
                forall|k: int| 0 <= k < i && (#[trigger] self.pending@[k]).0 > top ==>
                    exists|j: int| 0 <= j < kept@.len() && (#[trigger] kept@[j]).0 == self.pending@[k].0,
            decreases self.pending@.len() - i,
        {
            if self.pending[i].0 > top {
                let ghost before = kept@;
                kept.push(self.pending[i]);
                proof {
                    assert forall|k: int| 0 <= k < i + 1 && (#[trigger] self.pending@[k]).0 > top implies
                        exists|j: int| 0 <= j < kept@.len() && (#[trigger] kept@[j]).0 == self.pending@[k].0 by {
                        if k < i {
                            let j = choose|j: int| 0 <= j < before.len() && (#[trigger] before[j]).0 == self.pending@[k].0;
                            assert(kept@[j] == before[j]);
                        } else {
                            assert(kept@[before.len() as int].0 == self.pending@[k].0);
                        }
                    }
                }
            }
            i = i + 1;
        }
        let ghost kept_v = kept@;
        self.pending = kept;
        self.high = top;
        self.delivered = Ghost(d2);
        proof {
            assert forall|s: int| #[trigger] d2.contains_key(s) && s > top implies
                exists|j: int| 0 <= j < self.pending@.len() && (#[trigger] self.pending@[j]).0 == s by {
                assert(d.contains_key(s) && s > old(self).high);
                assert(old(self).delivered@.contains_key(s));
                let k = choose|k: int| 0 <= k < old(self).pending@.len() && (#[trigger] old(self).pending@[k]).0 == s;
                let j = choose|j: int| 0 <= j < kept_v.len() && (#[trigger] kept_v[j]).0 == s;
                assert(self.pending@[j].0 == s);
            }
            assert forall|j: int| 0 <= j < self.pending@.len() implies {
                &&& (#[trigger] self.pending@[j]).0 > self.high
                &&& d2.contains_key(self.pending@[j].0 as int)
                &&& d2[self.pending@[j].0 as int] == self.pending@[j].1
            } by {
                assert(self.pending@[j].0 != serial);
            }
        }
    }

    /// Holds `(serial, delta)` back until the serials before it arrive.
    fn stash(&mut self, serial: u64, delta: u64)
        requires
            old(self).wf(),
            serial > old(self).high + 1,
            !old(self).delivered@.contains_key(serial as int),
        ensures
            final(self).wf(),
            final(self).origin == old(self).origin,
            final(self).high == old(self).high,
            final(self).delivered@ == old(self).delivered@.insert(serial as int, delta),
    {
        let ghost d = self.delivered@;
        self.pending.push((serial, delta));
        self.delivered = Ghost(d.insert(serial as int, delta));
        proof {
            let n = old(self).pending@.len() as int;
            assert forall|s: int| #[trigger] self.delivered@.contains_key(s) && s > self.high implies
                exists|j: int| 0 <= j < self.pending@.len() && (#[trigger] self.pending@[j]).0 == s by {
                if s == serial {
                    assert(self.pending@[n].0 == s);
                } else {
                    assert(old(self).delivered@.contains_key(s));
                    let k = choose|k: int| 0 <= k < old(self).pending@.len() && (#[trigger] old(self).pending@[k]).0 == s;
                    assert(self.pending@[k] == old(self).pending@[k]);
                }
            }
            assert forall|j: int| 0 <= j < self.pending@.len() implies {
                &&& (#[trigger] self.pending@[j]).0 > self.high
                &&& self.delivered@.contains_key(self.pending@[j].0 as int)
                &&& self.delivered@[self.pending@[j].0 as int] == self.pending@[j].1
            } by {
                if j < n {
                    assert(self.pending@[j] == old(self).pending@[j]);
                }
            }
        }
    }
}

spec fn total(s: Seq<OriginState>) -> nat
    decreases s.len(),
{
    if s.len() == 0 { 0 } else { total(s.drop_last()) + s.last().applied() }
}

spec fn has_origin(s: Seq<OriginState>, k: Seq<char>) -> bool {
    exists|i: int| 0 <= i < s.len() && (#[trigger] s[i]).origin@ == k
}

/// Counter state of one node.
pub struct Counter {
    node_id: String,
    value: u64,
    origins: Vec<OriginState>,
}

impl Counter {
    pub closed spec fn wf(&self) -> bool {
        &&& forall|i: int, j: int|
            0 <= i < self.origins@.len() && 0 <= j < self.origins@.len()
                && (#[trigger] self.origins@[i]).origin@ == (#[trigger] self.origins@[j]).origin@ ==> i == j
        &&& forall|i: int| 0 <= i < self.origins@.len() ==> (#[trigger] self.origins@[i]).wf()
        &&& self.value == total(self.origins@)
    }

    /// The accumulated total.
    pub closed spec fn value(&self) -> u64 {
        self.value
    }

    /// This node's own identifier, the origin of its local increments.
    pub closed spec fn node_id(&self) -> Seq<char> {
        self.node_id@
    }

    closed spec fn index_of(&self, origin: Seq<char>) -> int {
        choose|i: int| 0 <= i < self.origins@.len() && (#[trigger] self.origins@[i]).origin@ == origin
    }

    /// Every delta that has arrived from `origin`, by serial; the first arrival counts.
    pub closed spec fn history(&self, origin: Seq<char>) -> Map<int, u64> {
        if has_origin(self.origins@, origin) {
            self.origins@[self.index_of(origin)].delivered@
        } else {
            Map::empty()
        }
    }

    /// The contiguous high-water mark of `origin`: every serial up to it has been applied.
    pub closed spec fn high(&self, origin: Seq<char>) -> nat {
        if has_origin(self.origins@, origin) {
            self.origins@[self.index_of(origin)].high as nat
        } else {
            0
        }
    }

    /// The origins heard from, in the order they were first heard from.
    pub closed spec fn known_origins(&self) -> Seq<Seq<char>> {
        self.origins@.map_values(|o: OriginState| o.origin@)
    }

    /// The per-origin histories, in the order the origins were first heard from.
    pub closed spec fn histories(&self) -> Seq<Map<int, u64>> {
        self.origins@.map_values(|o: OriginState| o.delivered@)
    }

    /// `post` and `out` are the outcome of delivering `(origin, serial, delta)` at `pre`.
    pub open spec fn delivered(pre: Self, origin: Seq<char>, serial: u64, delta: u64, post: Self, out: DeltaOutcome) -> bool {
        let d = pre.history(origin);
        let h = pre.high(origin);
        let d2 = history_step(d, serial, delta);
        &&& post.node_id() == pre.node_id()
        &&& out == if serial <= h {
            DeltaOutcome::AlreadyApplied
        } else if serial > h + 1 {
            DeltaOutcome::Stashed
        } else if post.high(origin) == h {
            DeltaOutcome::Overflow
        } else {
            DeltaOutcome::Applied
        }
        &&& forall|o: Seq<char>| o != origin ==> #[trigger] post.history(o) == pre.history(o) && post.high(o) == pre.high(o)
        &&& if out == DeltaOutcome::Overflow {
            &&& post.history(origin) == d
            &&& post.high(origin) == h
            &&& post.value() == pre.value()
            &&& run_overflows(d, d2, h, pre.value())
        } else {
            &&& post.history(origin) == d2
            &&& contiguous(d2, post.high(origin))
            &&& post.value() == pre.value() + prefix_sum(d2, post.high(origin)) - prefix_sum(d, h)
        }
    }

    proof fn lemma_lookup(&self, i: int)
        requires
            self.wf(),
            0 <= i < self.origins@.len(),
        ensures
            has_origin(self.origins@, self.origins@[i].origin@),
            self.index_of(self.origins@[i].origin@) == i,
            self.history(self.origins@[i].origin@) == self.origins@[i].delivered@,
            self.high(self.origins@[i].origin@) == self.origins@[i].high,
    {
        let k = self.origins@[i].origin@;
        assert(has_origin(self.origins@, k));
        let j = self.index_of(k);
        assert(self.origins@[j].origin@ == self.origins@[i].origin@);
    }

    proof fn lemma_total_update(s: Seq<OriginState>, i: int, x: OriginState)
        requires
            0 <= i < s.len(),
        ensures
            total(s.update(i, x)) == total(s) - s[i].applied() + x.applied(),
        decreases s.len(),
    {
        let t = s.update(i, x);
        if i == s.len() - 1 {
            assert(t.drop_last() =~= s.drop_last());
        } else {
            Counter::lemma_total_update(s.drop_last(), i, x);
            assert(t.drop_last() =~= s.drop_last().update(i, x));
        }
    }

    proof fn lemma_replaced(pre: Self, post: Self, i: int)
        requires
            pre.wf(),
            0 <= i < pre.origins@.len(),
            post.origins@ == pre.origins@.update(i, post.origins@[i]),
            post.origins@[i].origin@ == pre.origins@[i].origin@,
            post.origins@[i].wf(),
            post.node_id == pre.node_id,
            post.value == pre.value - pre.origins@[i].applied() + post.origins@[i].applied(),
        ensures
            post.wf(),
            forall|o: Seq<char>| o != pre.origins@[i].origin@ ==> #[trigger] post.history(o) == pre.history(o) && post.high(o) == pre.high(o),
            post.history(pre.origins@[i].origin@) == post.origins@[i].delivered@,
            post.high(pre.origins@[i].origin@) == post.origins@[i].high,
    {
        Counter::lemma_total_update(pre.origins@, i, post.origins@[i]);
        assert forall|a: int, b: int|
            0 <= a < post.origins@.len() && 0 <= b < post.origins@.len()
                && (#[trigger] post.origins@[a]).origin@ == (#[trigger] post.origins@[b]).origin@ implies a == b by {
            assert(pre.origins@[a].origin@ == post.origins@[a].origin@);
            assert(pre.origins@[b].origin@ == post.origins@[b].origin@);
        }
        assert forall|j: int| 0 <= j < post.origins@.len() implies (#[trigger] post.origins@[j]).wf() by {
            if j != i {
                assert(post.origins@[j] == pre.origins@[j]);
            }
        }
        post.lemma_lookup(i);
        assert forall|o: Seq<char>| o != pre.origins@[i].origin@ implies #[trigger] post.history(o) == pre.history(o) && post.high(o) == pre.high(o) by {
            if has_origin(post.origins@, o) {
                let j = choose|j: int| 0 <= j < post.origins@.len() && (#[trigger] post.origins@[j]).origin@ == o;
                post.lemma_lookup(j);
                pre.lemma_lookup(j);
            } else if has_origin(pre.origins@, o) {
                let j = choose|j: int| 0 <= j < pre.origins@.len() && (#[trigger] pre.origins@[j]).origin@ == o;
                assert(post.origins@[j].origin@ == o);
            }
        }
    }

    proof fn lemma_pushed_fresh(pre: Self, post: Self)
        requires
            pre.wf(),
            post.origins@ == pre.origins@.push(post.origins@.last()),
            !has_origin(pre.origins@, post.origins@.last().origin@),
            post.origins@.last().wf(),
            post.origins@.last().high == 0,
            post.origins@.last().delivered@ == Map::<int, u64>::empty(),
            post.node_id == pre.node_id,
            post.value == pre.value,
        ensures
            post.wf(),
            forall|o: Seq<char>| #[trigger] post.history(o) == pre.history(o) && post.high(o) == pre.high(o),
    {
        let n = pre.origins@.len() as int;
        assert(post.origins@.drop_last() =~= pre.origins@);
        assert forall|a: int, b: int|
            0 <= a < post.origins@.len() && 0 <= b < post.origins@.len()
                && (#[trigger] post.origins@[a]).origin@ == (#[trigger] post.origins@[b]).origin@ implies a == b by {
            if a < n { assert(pre.origins@[a] == post.origins@[a]); }
            if b < n { assert(pre.origins@[b] == post.origins@[b]); }
        }
        assert forall|j: int| 0 <= j < post.origins@.len() implies (#[trigger] post.origins@[j]).wf() by {
            if j < n {
                assert(post.origins@[j] == pre.origins@[j]);
            }
        }
        assert forall|o: Seq<char>| #[trigger] post.history(o) == pre.history(o) && post.high(o) == pre.high(o) by {
            if has_origin(post.origins@, o) {
                let j = choose|j: int| 0 <= j < post.origins@.len() && (#[trigger] post.origins@[j]).origin@ == o;
                post.lemma_lookup(j);
                if j < n {
                    assert(post.origins@[j] == pre.origins@[j]);
                    pre.lemma_lookup(j);
                } else {
                    assert(post.history(o) =~= Map::<int, u64>::empty());
                }
            } else if has_origin(pre.origins@, o) {
                let j = choose|j: int| 0 <= j < pre.origins@.len() && (#[trigger] pre.origins@[j]).origin@ == o;
                assert(post.origins@[j].origin@ == o);
            }
        }
    }

    fn find(&self, origin: &String) -> (r: Option<usize>)
        requires
            self.wf(),
        ensures
            match r {
                Some(i) => i < self.origins@.len() && self.origins@[i as int].origin@ == origin@,
                None => !has_origin(self.origins@, origin@),
            },
    {
        let mut i: usize = 0;
        while i < self.origins.len()
            invariant
                i <= self.origins@.len(),
                forall|j: int| 0 <= j < i ==> (#[trigger] self.origins@[j]).origin@ != origin@,
            decreases self.origins@.len() - i,
        {
            if self.origins[i].origin == *origin {
                return Some(i);
            }
            i = i + 1;
        }
        None
    }

    /// Takes in the delta `delta` that `origin` issued under `serial`: applied once its
    /// serial joins the contiguous prefix of that origin, never applied twice.
    pub fn on_delta(&mut self, origin: &String, serial: u64, delta: u64) -> (out: DeltaOutcome)
        requires
            old(self).wf(),
        ensures
            final(self).wf(),
            Counter::delivered(*old(self), origin@, serial, delta, *final(self), out),
    {
        let idx: usize = match self.find(origin) {
            Some(i) => i,
            None => {
                let ghost pre = *self;
                self.origins.push(OriginState::fresh(origin.clone()));
                proof { Counter::lemma_pushed_fresh(pre, *self); }
                self.origins.len() - 1
            },
        };
        let ghost start = *self;
        proof { self.lemma_lookup(idx as int); }
        let h = self.origins[idx].high;
        if serial <= h {
            return DeltaOutcome::AlreadyApplied;
        }
        if serial - 1 > h {
            match self.origins[idx].find_pending(serial) {
                Some(_) => {
                    return DeltaOutcome::Stashed;
                },
                None => {
                    self.origins[idx].stash(serial, delta);
                    proof {
                        lemma_prefix_agree(start.origins@[idx as int].delivered@, self.origins@[idx as int].delivered@, h as nat);
                        Counter::lemma_replaced(start, *self, idx as int);
                    }
                    return DeltaOutcome::Stashed;
                },
            }
        }
        match self.origins[idx].run(serial, delta, self.value) {
            None => DeltaOutcome::Overflow,
            Some((top, sum)) => {
                self.origins[idx].advance(serial, delta, top);
                self.value = self.value + sum;
                proof { Counter::lemma_replaced(start, *self, idx as int); }
                DeltaOutcome::Applied
            },
        }
    }

    /// The contiguous high-water mark of `origin`.
    pub fn high_of(&self, origin: &String) -> (r: u64)
        requires
            self.wf(),
        ensures
            r == self.high(origin@),
    {
        match self.find(origin) {
            Some(i) => {
                proof { self.lemma_lookup(i as int); }
                self.origins[i].high
            },
            None => 0,
        }
    }

    /// Adds `delta` locally under this node's next serial, which it returns for gossiping;
    /// `None`, with nothing changed, where the serials or the total would run out.
    pub fn add(&mut self, delta: u64) -> (r: Option<u64>)
        requires
            old(self).wf(),
        ensures
            final(self).wf(),
            ({
                let me = old(self).node_id();
                let h = old(self).high(me);
                if h < u64::MAX {
                    &&& r.is_some() ==> r == Some((h + 1) as u64)
                        && Counter::delivered(*old(self), me, (h + 1) as u64, delta, *final(self), DeltaOutcome::Applied)
                    &&& r.is_none() ==> Counter::delivered(*old(self), me, (h + 1) as u64, delta, *final(self), DeltaOutcome::Overflow)
                } else {
                    r.is_none() && *final(self) == *old(self)
                }
            }),
    {
        let me = self.node_id.clone();
        let h = self.high_of(&me);
        if h == u64::MAX {
            return None;
        }
        let out = self.on_delta(&me, h + 1, delta);
        match out {
            DeltaOutcome::Applied => Some(h + 1),
            _ => None,
        }
    }

    pub fn new(node_id: String) -> (c: Self)
        ensures
            c.wf(),
            c.node_id() == node_id@,
            c.value() == 0,
            forall|o: Seq<char>| #[trigger] c.history(o) == Map::<int, u64>::empty() && c.high(o) == 0,
    {
        Counter { node_id, value: 0, origins: Vec::new() }
    }

    /// The accumulated total.
    pub fn read(&self) -> (r: u64)
        ensures
            r == self.value(),
    {
        self.value
    }
}

proof fn lemma_contiguous_unique(d: Map<int, u64>, a: nat, b: nat)
    requires
        contiguous(d, a),
        contiguous(d, b),
    ensures
        a == b,
{
    if a < b {
        assert(d.contains_key(a + 1 as int));
    } else if b < a {
        assert(d.contains_key(b + 1 as int));
    }
}

impl Counter {
    /// In a well-formed counter the mark of every origin is the contiguous high-water
    /// mark of its history.
    pub proof fn lemma_wf_contiguous(&self, origin: Seq<char>)
        requires
            self.wf(),
        ensures
            contiguous(self.history(origin), self.high(origin)),
    {
        if has_origin(self.origins@, origin) {
            let j = choose|j: int| 0 <= j < self.origins@.len() && (#[trigger] self.origins@[j]).origin@ == origin;
            self.lemma_lookup(j);
        }
    }
}

impl Counter {
    /// The histories are those of the known origins, each named once; every other origin
    /// has an empty history.
    pub proof fn lemma_histories(&self)
        requires
            self.wf(),
        ensures
            self.histories().len() == self.known_origins().len(),
            self.known_origins().no_duplicates(),
            forall|i: int| 0 <= i < self.histories().len() ==>
                #[trigger] self.histories()[i] == self.history(self.known_origins()[i]),
            forall|o: Seq<char>| !self.known_origins().contains(o) ==> #[trigger] self.history(o) == Map::<int, u64>::empty(),
    {
        assert forall|i: int| 0 <= i < self.histories().len() implies
            #[trigger] self.histories()[i] == self.history(self.known_origins()[i]) by {
            self.lemma_lookup(i);
        }
        assert forall|o: Seq<char>| !self.known_origins().contains(o) implies #[trigger] self.history(o) == Map::<int, u64>::empty() by {
            if has_origin(self.origins@, o) {
                let j = choose|j: int| 0 <= j < self.origins@.len() && (#[trigger] self.origins@[j]).origin@ == o;
                assert(self.known_origins()[j] == o);
            }
        }
    }
}

/// Delivering the same `(origin, serial, delta)` a second time, after a first delivery
/// that was taken in, leaves the total and the history as they were.
pub proof fn lemma_redelivery(
    c0: Counter,
    c1: Counter,
    c2: Counter,
    origin: Seq<char>,
    serial: u64,
    delta: u64,
    out1: DeltaOutcome,
    out2: DeltaOutcome,
)
    requires
        c1.wf(),
        Counter::delivered(c0, origin, serial, delta, c1, out1),
        out1 != DeltaOutcome::Overflow,
        Counter::delivered(c1, origin, serial, delta, c2, out2),
    ensures
        c2.value() == c1.value(),
        c2.history(origin) == c1.history(origin),
        out2 == DeltaOutcome::AlreadyApplied || out2 == DeltaOutcome::Stashed,
{
    c1.lemma_wf_contiguous(origin);
    let d1 = c1.history(origin);
    if serial > c1.high(origin) {
        assert(d1.contains_key(serial as int));
    }
    if out2 != DeltaOutcome::Overflow {
        lemma_contiguous_unique(d1, c1.high(origin), c2.high(origin));
    }
}

proof fn lemma_prefix_issued(ds: Seq<u64>, n: nat)
    requires
        n <= ds.len(),
    ensures
        prefix_sum(issued(ds), n) == seq_sum(ds.take(n as int)),
    decreases n,
{
    if n > 0 {
        lemma_prefix_issued(ds, (n - 1) as nat);
        assert(ds.take(n as int).drop_last() =~= ds.take(n - 1));
    } else {
        assert(ds.take(0) =~= Seq::<u64>::empty());
    }
}

proof fn lemma_total_converged(s: Seq<OriginState>, dss: Seq<Seq<u64>>)
    requires
        s.len() == dss.len(),
        forall|i: int| 0 <= i < s.len() ==> (#[trigger] s[i]).wf() && s[i].delivered@ == issued(dss[i]),
    ensures
        total(s) == sum_all(dss),
    decreases s.len(),
{
    if s.len() > 0 {
        let n = s.len() - 1;
        lemma_total_converged(s.drop_last(), dss.drop_last());
        let ds = dss[n];
        let o = s[n];
        assert(o.wf());
        assert(contiguous(issued(ds), ds.len())) by {
            assert(!issued(ds).contains_key(ds.len() + 1 as int));
        }
        lemma_contiguous_unique(issued(ds), o.high as nat, ds.len());
        lemma_prefix_issued(ds, ds.len());
        assert(ds.take(ds.len() as int) =~= ds);
    }
}

/// Once every delta that each origin issued has arrived, in any order and any number of
/// times, the total is the sum of all of them.
pub proof fn lemma_converged(c: Counter, issued_by: Seq<Seq<u64>>)
    requires
        c.wf(),
        c.histories().len() == issued_by.len(),
        forall|i: int| 0 <= i < issued_by.len() ==> #[trigger] c.histories()[i] == issued(issued_by[i]),
    ensures
        c.value() == sum_all(issued_by),
{
    assert forall|i: int| 0 <= i < c.origins@.len() implies (#[trigger] c.origins@[i]).wf() && c.origins@[i].delivered@ == issued(issued_by[i]) by {
        assert(c.histories()[i] == c.origins@[i].delivered@);
    }
    lemma_total_converged(c.origins@, issued_by);
}

} // verus!
