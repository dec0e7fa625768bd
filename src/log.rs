//! Leader-replicated append-only log with per-key commit marks.
use vstd::prelude::*;

verus! {

/// Most messages that one poll returns for one key.
pub const POLL_LIMIT: u64 = 8;

/// The messages of one key and its commit mark; offset `i + 1` holds `msgs[i]`, so
/// offsets are dense from 1.
struct KeyLog {
    key: String,
    msgs: Vec<u64>,
    mark: Option<u64>,
}

/// State of the log on one node: one entry per key that has messages or a commit mark.
pub struct LogStore {
    logs: Vec<KeyLog>,
}

/// Up to `POLL_LIMIT` pairs `(offset, msg)` of `msgs` with `offset >= start`, in
/// ascending offset order.
pub open spec fn batch(msgs: Seq<u64>, start: u64) -> Seq<(u64, u64)> {
    let first: int = if start == 0 { 1 } else { start as int };
    let avail: int = msgs.len() - first + 1;
    let n: int = if avail <= 0 { 0 } else if avail < POLL_LIMIT { avail } else { POLL_LIMIT as int };
    Seq::new(n as nat, |j: int| ((first + j) as u64, msgs[first + j - 1]))
}

/// The commit marks after setting each `(key, offset)` of `offsets` in turn.
pub open spec fn set_marks(marks: Map<Seq<char>, u64>, offsets: Seq<(String, u64)>) -> Map<Seq<char>, u64>
    decreases offsets.len(),
{
    if offsets.len() == 0 {
        marks
    } else {
        set_marks(marks, offsets.drop_last()).insert(offsets.last().0@, offsets.last().1)
    }
}

/// The `(key, mark)` pairs of the requested keys that have a mark, in request order.
pub open spec fn listing(marks: Map<Seq<char>, u64>, keys: Seq<String>) -> Seq<(Seq<char>, u64)>
    decreases keys.len(),
{
    if keys.len() == 0 {
        Seq::empty()
    } else if marks.contains_key(keys.last()@) {
        listing(marks, keys.drop_last()).push((keys.last()@, marks[keys.last()@]))
    } else {
        listing(marks, keys.drop_last())
    }
}

pub open spec fn pairs_view(s: Seq<(String, u64)>) -> Seq<(Seq<char>, u64)> {
    s.map_values(|p: (String, u64)| (p.0@, p.1))
}

spec fn has_log(logs: Seq<KeyLog>, k: Seq<char>) -> bool {
    exists|i: int| 0 <= i < logs.len() && (#[trigger] logs[i]).key@ == k
}

spec fn keys_unique(logs: Seq<KeyLog>) -> bool {
    forall|i: int, j: int|
        0 <= i < logs.len() && 0 <= j < logs.len() && (#[trigger] logs[i]).key@
            == (#[trigger] logs[j]).key@ ==> i == j
}

/// The log and the offsets handed out after appending each of `msgs` in turn to `log`,
/// each append taking the offset just past the log's end.
pub open spec fn append_run(log: Seq<u64>, msgs: Seq<u64>) -> (Seq<u64>, Seq<u64>)
    decreases msgs.len(),
{
    if msgs.len() == 0 {
        (log, Seq::empty())
    } else {
        let (l, o) = append_run(log, msgs.drop_last());
        (l.push(msgs.last()), o.push((l.len() + 1) as u64))
    }
}

/// Appends to a fresh key are given the offsets 1, 2, 3, ... with no gap, and the log then
/// holds the messages in the order they were appended.
pub proof fn lemma_offsets_dense(msgs: Seq<u64>)
    requires
        msgs.len() < u64::MAX,
    ensures
        append_run(Seq::empty(), msgs).0 == msgs,
        append_run(Seq::empty(), msgs).1 == Seq::new(msgs.len(), |i: int| (i + 1) as u64),
    decreases msgs.len(),
{
    if msgs.len() > 0 {
        lemma_offsets_dense(msgs.drop_last());
        assert(append_run(Seq::empty(), msgs).0 =~= msgs);
        assert(append_run(Seq::empty(), msgs).1 =~= Seq::new(msgs.len(), |i: int| (i + 1) as u64));
    } else {
        assert(append_run(Seq::empty(), msgs).1 =~= Seq::new(msgs.len(), |i: int| (i + 1) as u64));
    }
}

/// A poll from `start` returns only offsets at or after `start`, each with the message
/// stored at it, in strictly ascending order with no gap.
pub proof fn lemma_poll_from_start(msgs: Seq<u64>, start: u64)
    requires
        msgs.len() <= u64::MAX,
    ensures
        batch(msgs, start).len() <= POLL_LIMIT,
        forall|j: int| 0 <= j < batch(msgs, start).len() ==> {
            &&& (#[trigger] batch(msgs, start)[j]).0 >= start
            &&& 1 <= batch(msgs, start)[j].0 <= msgs.len()
            &&& batch(msgs, start)[j].1 == msgs[batch(msgs, start)[j].0 - 1]
        },
        forall|j: int| 0 < j < batch(msgs, start).len() ==>
            (#[trigger] batch(msgs, start)[j]).0 == batch(msgs, start)[j - 1].0 + 1,
{
}

/// The offset that `offsets` sets last for `k`, if it names `k` at all.
pub open spec fn last_set(offsets: Seq<(String, u64)>, k: Seq<char>) -> Option<u64>
    decreases offsets.len(),
{
    if offsets.len() == 0 {
        None
    } else if offsets.last().0@ == k {
        Some(offsets.last().1)
    } else {
        last_set(offsets.drop_last(), k)
    }
}

proof fn lemma_set_marks_last(marks: Map<Seq<char>, u64>, offsets: Seq<(String, u64)>, k: Seq<char>)
    requires
        last_set(offsets, k).is_some(),
    ensures
        set_marks(marks, offsets).contains_key(k),
        set_marks(marks, offsets)[k] == last_set(offsets, k).unwrap(),
    decreases offsets.len(),
{
    if offsets.last().0@ != k {
        lemma_set_marks_last(marks, offsets.drop_last(), k);
    }
}

proof fn lemma_listing_has(marks: Map<Seq<char>, u64>, keys: Seq<String>, i: int)
    requires
        0 <= i < keys.len(),
        marks.contains_key(keys[i]@),
    ensures
        listing(marks, keys).contains((keys[i]@, marks[keys[i]@])),
    decreases keys.len(),
{
    let l = listing(marks, keys);
    if i == keys.len() - 1 {
        assert(l.last() == (keys[i]@, marks[keys[i]@]));
    } else {
        lemma_listing_has(marks, keys.drop_last(), i);
        let p = listing(marks, keys.drop_last());
        let j = choose|j: int| 0 <= j < p.len() && p[j] == (keys[i]@, marks[keys[i]@]);
        if marks.contains_key(keys.last()@) {
            assert(l[j] == p[j]);
        }
    }
}

/// Listing a key after a commit that named it gives back the offset that the commit set
/// for it last.
pub proof fn lemma_commit_then_list(
    marks: Map<Seq<char>, u64>,
    offsets: Seq<(String, u64)>,
    keys: Seq<String>,
    i: int,
)
    requires
        0 <= i < keys.len(),
        last_set(offsets, keys[i]@).is_some(),
    ensures
        listing(set_marks(marks, offsets), keys).contains((keys[i]@, last_set(offsets, keys[i]@).unwrap())),
{
    lemma_set_marks_last(marks, offsets, keys[i]@);
    lemma_listing_has(set_marks(marks, offsets), keys, i);
}

/// The batch of `msgs` from `start` on.
fn batch_of(msgs: &Vec<u64>, start: u64) -> (r: Vec<(u64, u64)>)
    requires
        msgs@.len() <= u64::MAX,
    ensures
        r@ == batch(msgs@, start),
{
    let first: u64 = if start == 0 { 1 } else { start };
    let mut r: Vec<(u64, u64)> = Vec::new();
    if first > msgs.len() as u64 {
        assert(r@ =~= batch(msgs@, start));
        return r;
    }
    let mut idx: usize = (first - 1) as usize;
    while idx < msgs.len() && (r.len() as u64) < POLL_LIMIT
        invariant
            msgs@.len() <= u64::MAX,
            1 <= first <= msgs@.len(),
            idx == first - 1 + r@.len(),
            idx <= msgs@.len(),
            r@.len() <= POLL_LIMIT,
            forall|j: int| 0 <= j < r@.len() ==> #[trigger] r@[j] == ((first + j) as u64, msgs@[first + j - 1]),
        decreases POLL_LIMIT - r@.len(),
    {
        r.push(((idx + 1) as u64, msgs[idx]));
        idx = idx + 1;
    }
    assert(r@ =~= batch(msgs@, start));
    r
}

impl LogStore {
    pub closed spec fn wf(&self) -> bool {
        &&& keys_unique(self.logs@)
        &&& forall|i: int| 0 <= i < self.logs@.len() ==> (#[trigger] self.logs@[i]).msgs@.len() <= u64::MAX
    }

    /// The entry of each key that has one.
    closed spec fn entries(&self) -> Map<Seq<char>, KeyLog> {
        Map::new(
            |k: Seq<char>| has_log(self.logs@, k),
            |k: Seq<char>|
                self.logs@[choose|i: int| 0 <= i < self.logs@.len() && (#[trigger] self.logs@[i]).key@ == k],
        )
    }

    /// The log of every key, as the sequence of its messages in offset order (empty for a
    /// key that never had an append).
    pub closed spec fn logs(&self) -> Map<Seq<char>, Seq<u64>> {
        Map::new(
            |k: Seq<char>| true,
            |k: Seq<char>| if self.entries().contains_key(k) { self.entries()[k].msgs@ } else { Seq::empty() },
        )
    }

    /// The commit mark of each key that has one.
    pub closed spec fn marks(&self) -> Map<Seq<char>, u64> {
        Map::new(
            |k: Seq<char>| self.entries().contains_key(k) && self.entries()[k].mark.is_some(),
            |k: Seq<char>| self.entries()[k].mark.unwrap(),
        )
    }

    proof fn lemma_lookup(&self, i: int)
        requires
            keys_unique(self.logs@),
            0 <= i < self.logs@.len(),
        ensures
            self.entries().contains_key(self.logs@[i].key@),
            self.entries()[self.logs@[i].key@] == self.logs@[i],
    {
        let k = self.logs@[i].key@;
        assert(has_log(self.logs@, k));
        let j = choose|j: int| 0 <= j < self.logs@.len() && (#[trigger] self.logs@[j]).key@ == k;
        assert(self.logs@[j].key@ == self.logs@[i].key@);
    }

    proof fn lemma_replaced(pre: Self, post: Self, i: int)
        requires
            pre.wf(),
            0 <= i < pre.logs@.len(),
            post.logs@.len() == pre.logs@.len(),
            post.logs@[i].key@ == pre.logs@[i].key@,
            forall|j: int| 0 <= j < pre.logs@.len() && j != i ==> post.logs@[j] == pre.logs@[j],
        ensures
            keys_unique(post.logs@),
            post.entries() == pre.entries().insert(pre.logs@[i].key@, post.logs@[i]),
    {
        assert forall|a: int, b: int|
            0 <= a < post.logs@.len() && 0 <= b < post.logs@.len() && (#[trigger] post.logs@[a]).key@
                == (#[trigger] post.logs@[b]).key@ implies a == b by {
            assert(pre.logs@[a].key@ == post.logs@[a].key@);
            assert(pre.logs@[b].key@ == post.logs@[b].key@);
        }
        let m = pre.entries().insert(pre.logs@[i].key@, post.logs@[i]);
        assert forall|k: Seq<char>| #[trigger] post.entries().contains_key(k) == m.contains_key(k) by {
            if has_log(post.logs@, k) {
                let j = choose|j: int| 0 <= j < post.logs@.len() && (#[trigger] post.logs@[j]).key@ == k;
                assert(pre.logs@[j].key@ == k);
            }
            if has_log(pre.logs@, k) {
                let j = choose|j: int| 0 <= j < pre.logs@.len() && (#[trigger] pre.logs@[j]).key@ == k;
                assert(post.logs@[j].key@ == k);
            }
        }
        assert forall|k: Seq<char>| #[trigger] post.entries().contains_key(k) implies post.entries()[k] == m[k] by {
            let j = choose|j: int| 0 <= j < post.logs@.len() && (#[trigger] post.logs@[j]).key@ == k;
            post.lemma_lookup(j);
            if j != i {
                pre.lemma_lookup(j);
            }
        }
        assert(post.entries() =~= m);
    }

    proof fn lemma_pushed(pre: Self, post: Self)
        requires
            pre.wf(),
            post.logs@.len() == pre.logs@.len() + 1,
            !has_log(pre.logs@, post.logs@.last().key@),
            forall|j: int| 0 <= j < pre.logs@.len() ==> post.logs@[j] == pre.logs@[j],
        ensures
            keys_unique(post.logs@),
            post.entries() == pre.entries().insert(post.logs@.last().key@, post.logs@.last()),
    {
        let n = pre.logs@.len() as int;
        assert forall|a: int, b: int|
            0 <= a < post.logs@.len() && 0 <= b < post.logs@.len() && (#[trigger] post.logs@[a]).key@
                == (#[trigger] post.logs@[b]).key@ implies a == b by {
            if a < n { assert(pre.logs@[a] == post.logs@[a]); }
            if b < n { assert(pre.logs@[b] == post.logs@[b]); }
        }
        let m = pre.entries().insert(post.logs@.last().key@, post.logs@.last());
        assert forall|k: Seq<char>| #[trigger] post.entries().contains_key(k) == m.contains_key(k) by {
            if has_log(post.logs@, k) {
                let j = choose|j: int| 0 <= j < post.logs@.len() && (#[trigger] post.logs@[j]).key@ == k;
                if j < n { assert(pre.logs@[j].key@ == k); }
            }
            if has_log(pre.logs@, k) {
                let j = choose|j: int| 0 <= j < pre.logs@.len() && (#[trigger] pre.logs@[j]).key@ == k;
                assert(post.logs@[j].key@ == k);
            }
        }
        assert forall|k: Seq<char>| #[trigger] post.entries().contains_key(k) implies post.entries()[k] == m[k] by {
            let j = choose|j: int| 0 <= j < post.logs@.len() && (#[trigger] post.logs@[j]).key@ == k;
            post.lemma_lookup(j);
            if j < n {
                pre.lemma_lookup(j);
            }
        }
        assert(post.entries() =~= m);
    }

    pub fn new() -> (s: Self)
        ensures
            s.wf(),
            forall|k: Seq<char>| #[trigger] s.logs()[k] == Seq::<u64>::empty(),
            s.marks() == Map::<Seq<char>, u64>::empty(),
    {
        let s = LogStore { logs: Vec::new() };
        assert(s.marks() =~= Map::<Seq<char>, u64>::empty());
        s
    }

    fn find(&self, key: &String) -> (r: Option<usize>)
        requires
            self.wf(),
        ensures
            match r {
                Some(i) => i < self.logs@.len() && self.logs@[i as int].key@ == key@,
                None => !has_log(self.logs@, key@),
            },
    {
        let mut i: usize = 0;
        while i < self.logs.len()
            invariant
                i <= self.logs@.len(),
                forall|j: int| 0 <= j < i ==> (#[trigger] self.logs@[j]).key@ != key@,
            decreases self.logs@.len() - i,
        {
            if self.logs[i].key == *key {
                return Some(i);
            }
            i = i + 1;
        }
        None
    }

    proof fn lemma_entry_update(pre: Self, post: Self, k: Seq<char>, e: KeyLog)
        requires
            post.entries() == pre.entries().insert(k, e),
            e.key@ == k,
        ensures
            post.logs() == pre.logs().insert(k, e.msgs@),
            e.mark.is_some() ==> post.marks() == pre.marks().insert(k, e.mark.unwrap()),
            e.mark.is_none() ==> post.marks() == pre.marks().remove(k),
    {
        assert(post.logs() =~= pre.logs().insert(k, e.msgs@));
        if e.mark.is_some() {
            assert(post.marks() =~= pre.marks().insert(k, e.mark.unwrap()));
        } else {
            assert(post.marks() =~= pre.marks().remove(k));
        }
    }

    /// Appends `msg` to the log of `key` at the next offset and returns that offset;
    /// `None`, with nothing changed, where the log already holds `u64::MAX` messages.
    pub fn append(&mut self, key: String, msg: u64) -> (r: Option<u64>)
        requires
            old(self).wf(),
        ensures
            final(self).wf(),
            if old(self).logs()[key@].len() < u64::MAX {
                &&& r == Some((old(self).logs()[key@].len() + 1) as u64)
                &&& final(self).logs() == old(self).logs().insert(key@, old(self).logs()[key@].push(msg))
            } else {
                r.is_none() && final(self).logs() == old(self).logs()
            },
            final(self).marks() == old(self).marks(),
    {
        match self.find(&key) {
            Some(i) => {
                let ghost pre = *self;
                proof { pre.lemma_lookup(i as int); }
                if self.logs[i].msgs.len() as u64 == u64::MAX {
                    return None;
                }
                self.logs[i].msgs.push(msg);
                proof {
                    LogStore::lemma_replaced(pre, *self, i as int);
                    LogStore::lemma_entry_update(pre, *self, key@, self.logs@[i as int]);
                    if pre.logs@[i as int].mark.is_some() {
                        assert(pre.marks() =~= pre.marks().insert(key@, pre.logs@[i as int].mark.unwrap()));
                    } else {
                        assert(pre.marks() =~= pre.marks().remove(key@));
                    }
                }
                Some(self.logs[i].msgs.len() as u64)
            },
            None => {
                let ghost pre = *self;
                let mut msgs: Vec<u64> = Vec::new();
                msgs.push(msg);
                self.logs.push(KeyLog { key, msgs, mark: None });
                proof {
                    LogStore::lemma_pushed(pre, *self);
                    LogStore::lemma_entry_update(pre, *self, key@, self.logs@.last());
                    assert(!pre.marks().contains_key(key@));
                    assert(pre.marks() =~= pre.marks().remove(key@));
                }
                Some(1)
            },
        }
    }

    /// Sets the commit mark of `key` to `offset`.
    pub fn set_mark(&mut self, key: String, offset: u64)
        requires
            old(self).wf(),
        ensures
            final(self).wf(),
            final(self).logs() == old(self).logs(),
            final(self).marks() == old(self).marks().insert(key@, offset),
    {
        match self.find(&key) {
            Some(i) => {
                let ghost pre = *self;
                proof { pre.lemma_lookup(i as int); }
                self.logs[i].mark = Some(offset);
                proof {
                    LogStore::lemma_replaced(pre, *self, i as int);
                    LogStore::lemma_entry_update(pre, *self, key@, self.logs@[i as int]);
                    assert(pre.logs() =~= pre.logs().insert(key@, pre.logs@[i as int].msgs@));
                }
            },
            None => {
                let ghost pre = *self;
                self.logs.push(KeyLog { key, msgs: Vec::new(), mark: Some(offset) });
                proof {
                    LogStore::lemma_pushed(pre, *self);
                    LogStore::lemma_entry_update(pre, *self, key@, self.logs@.last());
                    assert(pre.logs() =~= pre.logs().insert(key@, Seq::empty()));
                }
            },
        }
    }

    /// Sets the commit mark of each `(key, offset)` in turn; for a key named twice the
    /// last offset stands.
    pub fn commit(&mut self, offsets: &Vec<(String, u64)>)
        requires
            old(self).wf(),
        ensures
            final(self).wf(),
            final(self).logs() == old(self).logs(),
            final(self).marks() == set_marks(old(self).marks(), offsets@),
    {
        let mut i: usize = 0;
        while i < offsets.len()
            invariant
                i <= offsets@.len(),
                self.wf(),
                self.logs() == old(self).logs(),
                self.marks() == set_marks(old(self).marks(), offsets@.take(i as int)),
            decreases offsets@.len() - i,
        {
            let key = offsets[i].0.clone();
            self.set_mark(key, offsets[i].1);
            proof {
                assert(offsets@.take(i + 1).drop_last() =~= offsets@.take(i as int));
            }
            i = i + 1;
        }
        proof { assert(offsets@.take(i as int) =~= offsets@); }
    }

    /// The commit mark of each requested key that has one, in request order.
    pub fn list_committed(&self, keys: &Vec<String>) -> (r: Vec<(String, u64)>)
        requires
            self.wf(),
        ensures
            pairs_view(r@) == listing(self.marks(), keys@),
    {
        let mut r: Vec<(String, u64)> = Vec::new();
        let mut i: usize = 0;
        while i < keys.len()
            invariant
                i <= keys@.len(),
                self.wf(),
                pairs_view(r@) == listing(self.marks(), keys@.take(i as int)),
            decreases keys@.len() - i,
        {
            proof { assert(keys@.take(i + 1).drop_last() =~= keys@.take(i as int)); }
            match self.find(&keys[i]) {
                Some(j) => {
                    proof { self.lemma_lookup(j as int); }
                    match self.logs[j].mark {
                        Some(m) => {
                            let ghost before = r@;
                            r.push((keys[i].clone(), m));
                            proof { assert(pairs_view(r@) =~= pairs_view(before).push((keys@[i as int]@, m))); }
                        },
                        None => {},
                    }
                },
                None => {},
            }
            i = i + 1;
        }
        proof { assert(keys@.take(i as int) =~= keys@); }
        r
    }

    /// For each requested `(key, start)`, the key with its batch of messages from `start` on.
    pub fn poll(&self, offsets: &Vec<(String, u64)>) -> (r: Vec<(String, Vec<(u64, u64)>)>)
        requires
            self.wf(),
        ensures
            r@.len() == offsets@.len(),
            forall|i: int| 0 <= i < r@.len() ==> {
                &&& (#[trigger] r@[i]).0@ == offsets@[i].0@
                &&& r@[i].1@ == batch(self.logs()[offsets@[i].0@], offsets@[i].1)
            },
    {
        let mut r: Vec<(String, Vec<(u64, u64)>)> = Vec::new();
        let mut i: usize = 0;
        while i < offsets.len()
            invariant
                i <= offsets@.len(),
                self.wf(),
                r@.len() == i,
                forall|j: int| 0 <= j < i ==> {
                    &&& (#[trigger] r@[j]).0@ == offsets@[j].0@
                    &&& r@[j].1@ == batch(self.logs()[offsets@[j].0@], offsets@[j].1)
                },
            decreases offsets@.len() - i,
        {
            let msgs = match self.find(&offsets[i].0) {
                Some(j) => {
                    proof { self.lemma_lookup(j as int); }
                    batch_of(&self.logs[j].msgs, offsets[i].1)
                },
                None => {
                    let v: Vec<(u64, u64)> = Vec::new();
                    proof { assert(v@ =~= batch(Seq::empty(), offsets@[i as int].1)); }
                    v
                },
            };
            r.push((offsets[i].0.clone(), msgs));
            i = i + 1;
        }
        r
    }

}

} // verus!
