//! Serializable transactions over an external linearizable key-value store, made atomic
//! by a cluster-wide lock taken with compare-and-swap. The runtime performs each store
//! call that the machine asks for and hands back the reply.
use vstd::prelude::*;

verus! {

#[derive(Clone, Copy, Debug, PartialEq, Eq, Structural)]
pub enum Operation {
    Read,
    Write,
}

/// A call on the external store.
#[derive(Clone, Copy, Debug, PartialEq, Eq, Structural)]
pub enum StoreCall {
    /// Compare-and-swap the lock key from free to held, creating it if absent.
    AcquireLock,
    Get { key: u64 },
    Put { key: u64, value: Option<u64> },
    /// Set the lock key back to free.
    ReleaseLock,
}

/// The store's answer to a call.
#[derive(Clone, Copy, Debug, PartialEq, Eq, Structural)]
pub enum StoreReply {
    Done,
    /// The value read; `None` for a key the store does not hold.
    Value(Option<u64>),
    /// The compare-and-swap found the lock held.
    PreconditionFailed,
    /// Any other error.
    Failed,
}

/// What the runtime does next.
#[derive(Clone, Debug, PartialEq, Eq)]
pub enum TxnStep {
    Call(StoreCall),
    /// The transaction took effect; these are its operations with the values read.
    Committed(Vec<(Operation, u64, Option<u64>)>),
    /// The transaction took no effect.
    Aborted,
}

#[derive(Clone, Copy, Debug, PartialEq, Eq, Structural)]
pub enum Phase {
    Locking,
    Running,
    Flushing(usize),
    /// Releasing the lock; `true` when the transaction then counts as committed.
    Releasing(bool),
    Finished,
}

/// The value that `ops[..n]` wrote last to `key`, if any wrote it.
pub open spec fn last_write(ops: Seq<(Operation, u64, Option<u64>)>, n: int, key: u64) -> Option<Option<u64>>
    decreases n,
{
    if n <= 0 || n > ops.len() {
        None
    } else if ops[n - 1].0 == Operation::Write && ops[n - 1].1 == key {
        Some(ops[n - 1].2)
    } else {
        last_write(ops, n - 1, key)
    }
}

/// `ops[n]` is a read that the transaction's own writes cannot answer.
pub open spec fn needs_fetch(ops: Seq<(Operation, u64, Option<u64>)>, n: int) -> bool {
    0 <= n < ops.len() && ops[n].0 == Operation::Read && last_write(ops, n, ops[n].1).is_none()
}

/// The record of `ops[n]` where the transaction itself settles it: a write as given, a
/// read with the value written last before it.
pub open spec fn recorded(ops: Seq<(Operation, u64, Option<u64>)>, n: int) -> (Operation, u64, Option<u64>) {
    if ops[n].0 == Operation::Write {
        ops[n]
    } else {
        (Operation::Read, ops[n].1, last_write(ops, n, ops[n].1).unwrap())
    }
}

/// `out` extended by every operation the transaction settles itself, up to the next
/// read that needs the store or the end.
pub open spec fn fill(ops: Seq<(Operation, u64, Option<u64>)>, out: Seq<(Operation, u64, Option<u64>)>) -> Seq<(Operation, u64, Option<u64>)>
    decreases ops.len() - out.len(),
{
    if out.len() >= ops.len() || needs_fetch(ops, out.len() as int) {
        out
    } else {
        fill(ops, out.push(recorded(ops, out.len() as int)))
    }
}

/// `out` records a prefix of `ops`: kinds and keys as given, writes with their values,
/// and every read of a key written earlier in the transaction with the value written last.
pub open spec fn consistent(ops: Seq<(Operation, u64, Option<u64>)>, out: Seq<(Operation, u64, Option<u64>)>) -> bool {
    &&& out.len() <= ops.len()
    &&& forall|j: int| 0 <= j < out.len() ==> {
        &&& (#[trigger] out[j]).0 == ops[j].0
        &&& out[j].1 == ops[j].1
        &&& ops[j].0 == Operation::Write ==> out[j].2 == ops[j].2
        &&& ops[j].0 == Operation::Read && last_write(ops, j, ops[j].1).is_some() ==>
            out[j].2 == last_write(ops, j, ops[j].1).unwrap()
    }
}

/// `ops[j]` is the last write to its key.
pub open spec fn is_last_write(ops: Seq<(Operation, u64, Option<u64>)>, j: int) -> bool {
    &&& ops[j].0 == Operation::Write
    &&& forall|m: int| j < m < ops.len() ==> !((#[trigger] ops[m]).0 == Operation::Write && ops[m].1 == ops[j].1)
}

/// The buffered writes that `ops[..n]` leave to flush: for each key, its last write.
pub open spec fn flush_list(ops: Seq<(Operation, u64, Option<u64>)>, n: int) -> Seq<(u64, Option<u64>)>
    decreases n,
{
    if n <= 0 || n > ops.len() {
        Seq::empty()
    } else if is_last_write(ops, n - 1) {
        flush_list(ops, n - 1).push((ops[n - 1].1, ops[n - 1].2))
    } else {
        flush_list(ops, n - 1)
    }
}

fn copy_ops(v: &Vec<(Operation, u64, Option<u64>)>) -> (r: Vec<(Operation, u64, Option<u64>)>)
    ensures
        r@ == v@,
{
    let mut r: Vec<(Operation, u64, Option<u64>)> = Vec::new();
    let mut i: usize = 0;
    while i < v.len()
        invariant
            i <= v@.len(),
            r@ == v@.take(i as int),
        decreases v@.len() - i,
    {
        r.push(v[i]);
        i = i + 1;
        proof { assert(r@ =~= v@.take(i as int)); }
    }
    proof { assert(v@.take(i as int) =~= v@); }
    r
}

/// One transaction in progress.
pub struct Txn {
    ops: Vec<(Operation, u64, Option<u64>)>,
    out: Vec<(Operation, u64, Option<u64>)>,
    writes: Vec<(u64, Option<u64>)>,
    phase: Phase,
}

impl Txn {
    pub closed spec fn ops(&self) -> Seq<(Operation, u64, Option<u64>)> {
        self.ops@
    }

    /// The operations recorded so far.
    pub closed spec fn out(&self) -> Seq<(Operation, u64, Option<u64>)> {
        self.out@
    }

    /// The buffered writes, one per key written, with the value written last.
    pub closed spec fn writes(&self) -> Seq<(u64, Option<u64>)> {
        self.writes@
    }

    pub closed spec fn phase(&self) -> Phase {
        self.phase
    }

    /// Whether this transaction holds the cluster-wide lock.
    pub open spec fn holds_lock(&self) -> bool {
        match self.phase() {
            Phase::Running | Phase::Flushing(_) | Phase::Releasing(_) => true,
            _ => false,
        }
    }

    pub closed spec fn wf(&self) -> bool {
        let n = self.out@.len() as int;
        &&& consistent(self.ops@, self.out@)
        &&& match self.phase {
            Phase::Locking => n == 0,
            Phase::Running => needs_fetch(self.ops@, n),
            Phase::Flushing(i) => n == self.ops@.len() && self.writes@ == flush_list(self.ops@, n) && i < self.writes@.len(),
            Phase::Releasing(done) => done ==> n == self.ops@.len(),
            Phase::Finished => true,
        }
    }

    /// A transaction over `ops`, and its first call: taking the lock.
    pub fn new(ops: Vec<(Operation, u64, Option<u64>)>) -> (r: (Self, StoreCall))
        ensures
            r.0.wf(),
            r.0.ops() == ops@,
            r.0.out() == Seq::<(Operation, u64, Option<u64>)>::empty(),
            r.0.phase() == Phase::Locking,
            r.1 == StoreCall::AcquireLock,
    {
        (Txn { ops, out: Vec::new(), writes: Vec::new(), phase: Phase::Locking }, StoreCall::AcquireLock)
    }

    /// The value that `ops[..n]` wrote last to `key`, if any wrote it.
    fn lookup_write(&self, n: usize, key: u64) -> (r: Option<Option<u64>>)
        requires
            n <= self.ops@.len(),
        ensures
            r == last_write(self.ops@, n as int, key),
    {
        let mut j: usize = n;
        while j > 0
            invariant
                j <= n <= self.ops@.len(),
                last_write(self.ops@, n as int, key) == last_write(self.ops@, j as int, key),
            decreases j,
        {
            if self.ops[j - 1].0 == Operation::Write && self.ops[j - 1].1 == key {
                return Some(self.ops[j - 1].2);
            }
            j = j - 1;
        }
        None
    }

    /// Whether `ops[j]` is the last write to its key.
    fn is_last(&self, j: usize) -> (r: bool)
        requires
            j < self.ops@.len(),
        ensures
            r == is_last_write(self.ops@, j as int),
    {
        if self.ops[j].0 != Operation::Write {
            return false;
        }
        let key = self.ops[j].1;
        let len = self.ops.len();
        let mut m: usize = j + 1;
        while m < self.ops.len()
            invariant
                j < m <= self.ops@.len(),
                key == self.ops@[j as int].1,
                forall|q: int| j < q < m ==> !((#[trigger] self.ops@[q]).0 == Operation::Write && self.ops@[q].1 == key),
            decreases self.ops@.len() - m,
        {
            if self.ops[m].0 == Operation::Write && self.ops[m].1 == key {
                return false;
            }
            m = m + 1;
        }
        true
    }

    fn build_flush(&self) -> (r: Vec<(u64, Option<u64>)>)
        ensures
            r@ == flush_list(self.ops@, self.ops@.len() as int),
    {
        let mut r: Vec<(u64, Option<u64>)> = Vec::new();
        let mut j: usize = 0;
        while j < self.ops.len()
            invariant
                j <= self.ops@.len(),
                r@ == flush_list(self.ops@, j as int),
            decreases self.ops@.len() - j,
        {
            if self.is_last(j) {
                r.push((self.ops[j].1, self.ops[j].2));
            }
            j = j + 1;
        }
        r
    }

    /// Settles every operation it can without the store, then asks for the next read, or
    /// starts the flush once all are recorded.
    fn run_ops(&mut self) -> (r: TxnStep)
        requires
            consistent(old(self).ops@, old(self).out@),
        ensures
            final(self).wf(),
            final(self).ops() == old(self).ops(),
            final(self).out() == fill(old(self).ops(), old(self).out()),
            Txn::ran(*final(self), r),
    {
        loop
            invariant
                consistent(self.ops@, self.out@),
                self.ops@ == old(self).ops@,
                fill(self.ops@, self.out@) == fill(old(self).ops@, old(self).out@),
            ensures
                consistent(self.ops@, self.out@),
                self.ops@ == old(self).ops@,
                fill(self.ops@, self.out@) == fill(old(self).ops@, old(self).out@),
                self.out@.len() == self.ops@.len(),
            decreases self.ops@.len() - self.out@.len(),
        {
            let n = self.out.len();
            if n == self.ops.len() {
                break;
            }
            let op = self.ops[n];
            let rec = match op.0 {
                Operation::Write => op,
                Operation::Read => match self.lookup_write(n, op.1) {
                    Some(v) => (Operation::Read, op.1, v),
                    None => {
                        self.phase = Phase::Running;
                        proof { assert(fill(self.ops@, self.out@) == self.out@); }
                        return TxnStep::Call(StoreCall::Get { key: op.1 });
                    },
                },
            };
            proof {
                assert(rec == recorded(self.ops@, n as int));
            }
            self.out.push(rec);
        }
        proof { assert(fill(self.ops@, self.out@) == self.out@); }
        self.writes = self.build_flush();
        if self.writes.len() == 0 {
            self.phase = Phase::Releasing(true);
            TxnStep::Call(StoreCall::ReleaseLock)
        } else {
            self.phase = Phase::Flushing(0);
            TxnStep::Call(StoreCall::Put { key: self.writes[0].0, value: self.writes[0].1 })
        }
    }

    /// `r` is the call that settling all it could left `t` with.
    pub open spec fn ran(t: Self, r: TxnStep) -> bool {
        let n = t.out().len() as int;
        if n < t.ops().len() {
            t.phase() == Phase::Running && r == TxnStep::Call(StoreCall::Get { key: t.ops()[n].1 })
        } else if t.writes().len() == 0 {
            t.phase() == Phase::Releasing(true) && r == TxnStep::Call(StoreCall::ReleaseLock)
        } else {
            &&& t.phase() == Phase::Flushing(0)
            &&& r == TxnStep::Call(StoreCall::Put { key: t.writes()[0].0, value: t.writes()[0].1 })
        }
    }

    /// `post` and `r` are the outcome of the store's `reply` to the call that `pre` made.
    pub open spec fn replied(pre: Self, reply: StoreReply, post: Self, r: TxnStep) -> bool {
        let ops = pre.ops();
        let n = pre.out().len() as int;
        &&& post.ops() == ops
        &&& match pre.phase() {
            Phase::Locking => match reply {
                StoreReply::Done => post.out() == fill(ops, pre.out()) && Txn::ran(post, r),
                StoreReply::PreconditionFailed => post == pre && r == TxnStep::Call(StoreCall::AcquireLock),
                _ => post.phase() == Phase::Finished && post.out() == pre.out() && r == TxnStep::Aborted,
            },
            Phase::Running => match reply {
                StoreReply::Value(v) =>
                    post.out() == fill(ops, pre.out().push((Operation::Read, ops[n].1, v))) && Txn::ran(post, r),
                _ => {
                    &&& post.phase() == Phase::Releasing(false)
                    &&& post.out() == pre.out()
                    &&& r == TxnStep::Call(StoreCall::ReleaseLock)
                },
            },
            Phase::Flushing(i) => {
                &&& post.out() == pre.out()
                &&& post.writes() == pre.writes()
                &&& match reply {
                    StoreReply::Done => if i + 1 < pre.writes().len() {
                        &&& post.phase() == Phase::Flushing((i + 1) as usize)
                        &&& r == TxnStep::Call(StoreCall::Put { key: pre.writes()[i + 1].0, value: pre.writes()[i + 1].1 })
                    } else {
                        post.phase() == Phase::Releasing(true) && r == TxnStep::Call(StoreCall::ReleaseLock)
                    },
                    _ => post.phase() == Phase::Releasing(false) && r == TxnStep::Call(StoreCall::ReleaseLock),
                }
            },
            Phase::Releasing(done) => match reply {
                StoreReply::Done => {
                    &&& post.phase() == Phase::Finished
                    &&& post.out() == pre.out()
                    &&& match r {
                        TxnStep::Committed(v) => done && v@ == pre.out(),
                        TxnStep::Aborted => !done,
                        _ => false,
                    }
                },
                _ => post == pre && r == TxnStep::Call(StoreCall::ReleaseLock),
            },
            Phase::Finished => post == pre && r == TxnStep::Aborted,
        }
    }

    /// Takes the store's reply to the last call and decides the next step.
    pub fn on_reply(&mut self, reply: StoreReply) -> (r: TxnStep)
        requires
            old(self).wf(),
        ensures
            final(self).wf(),
            Txn::replied(*old(self), reply, *final(self), r),
            match r {
                TxnStep::Call(StoreCall::Get { .. }) => final(self).holds_lock(),
                TxnStep::Call(StoreCall::Put { key, value }) => {
                    &&& final(self).holds_lock()
                    &&& final(self).out().len() == final(self).ops().len()
                    &&& last_write(final(self).ops(), final(self).ops().len() as int, key) == Some(value)
                },
                TxnStep::Committed(v) => !final(self).holds_lock() && consistent(final(self).ops(), v@)
                    && v@.len() == final(self).ops().len(),
                TxnStep::Aborted => !final(self).holds_lock(),
                _ => true,
            },
    {
        proof { lemma_flush_list_last(self.ops@, self.ops@.len() as int); }
        match self.phase {
            Phase::Locking => match reply {
                StoreReply::Done => self.run_ops(),
                StoreReply::PreconditionFailed => TxnStep::Call(StoreCall::AcquireLock),
                _ => {
                    self.phase = Phase::Finished;
                    TxnStep::Aborted
                },
            },
            Phase::Running => match reply {
                StoreReply::Value(v) => {
                    let key = self.ops[self.out.len()].1;
                    self.out.push((Operation::Read, key, v));
                    self.run_ops()
                },
                _ => {
                    self.phase = Phase::Releasing(false);
                    TxnStep::Call(StoreCall::ReleaseLock)
                },
            },
            Phase::Flushing(i) => match reply {
                StoreReply::Done => {
                    let len = self.writes.len();
                    if i + 1 < len {
                        self.phase = Phase::Flushing(i + 1);
                        TxnStep::Call(StoreCall::Put { key: self.writes[i + 1].0, value: self.writes[i + 1].1 })
                    } else {
                        self.phase = Phase::Releasing(true);
                        TxnStep::Call(StoreCall::ReleaseLock)
                    }
                },
                _ => {
                    self.phase = Phase::Releasing(false);
                    TxnStep::Call(StoreCall::ReleaseLock)
                },
            },
            Phase::Releasing(done) => match reply {
                StoreReply::Done => {
                    self.phase = Phase::Finished;
                    if done {
                        TxnStep::Committed(copy_ops(&self.out))
                    } else {
                        TxnStep::Aborted
                    }
                },
                _ => TxnStep::Call(StoreCall::ReleaseLock),
            },
            Phase::Finished => TxnStep::Aborted,
        }
    }
}

/// Within a transaction, a read of a key written earlier, with no write to that key in
/// between, returns the value written.
pub proof fn lemma_reads_own_writes(
    ops: Seq<(Operation, u64, Option<u64>)>,
    out: Seq<(Operation, u64, Option<u64>)>,
    i: int,
    j: int,
)
    requires
        consistent(ops, out),
        0 <= i < j < out.len(),
        ops[i].0 == Operation::Write,
        ops[j].0 == Operation::Read,
        ops[j].1 == ops[i].1,
        forall|m: int| i < m < j ==> !((#[trigger] ops[m]).0 == Operation::Write && ops[m].1 == ops[i].1),
    ensures
        out[j].2 == ops[i].2,
{
    lemma_last_write_at(ops, i, j);
}

/// Each buffered write left to flush carries the value written last to its key.
pub proof fn lemma_flush_list_last(ops: Seq<(Operation, u64, Option<u64>)>, n: int)
    requires
        n == ops.len(),
    ensures
        forall|i: int| 0 <= i < flush_list(ops, n).len() ==>
            last_write(ops, n, (#[trigger] flush_list(ops, n)[i]).0) == Some(flush_list(ops, n)[i].1),
{
    lemma_flush_list_prefix(ops, n);
}

proof fn lemma_flush_list_prefix(ops: Seq<(Operation, u64, Option<u64>)>, n: int)
    requires
        0 <= n <= ops.len(),
    ensures
        forall|i: int| 0 <= i < flush_list(ops, n).len() ==>
            last_write(ops, ops.len() as int, (#[trigger] flush_list(ops, n)[i]).0) == Some(flush_list(ops, n)[i].1),
    decreases n,
{
    if n > 0 {
        lemma_flush_list_prefix(ops, n - 1);
        if is_last_write(ops, n - 1) {
            let f = flush_list(ops, n);
            assert forall|i: int| 0 <= i < f.len() implies
                last_write(ops, ops.len() as int, (#[trigger] f[i]).0) == Some(f[i].1) by {
                if i == f.len() - 1 {
                    lemma_last_write_at(ops, n - 1, ops.len() as int);
                } else {
                    assert(f[i] == flush_list(ops, n - 1)[i]);
                }
            }
        }
    }
}

proof fn lemma_last_write_at(ops: Seq<(Operation, u64, Option<u64>)>, i: int, n: int)
    requires
        0 <= i < n <= ops.len(),
        ops[i].0 == Operation::Write,
        forall|m: int| i < m < n ==> !((#[trigger] ops[m]).0 == Operation::Write && ops[m].1 == ops[i].1),
    ensures
        last_write(ops, n, ops[i].1) == Some(ops[i].2),
    decreases n - i,
{
    if n - 1 > i {
        lemma_last_write_at(ops, i, n - 1);
    }
}

} // verus!
