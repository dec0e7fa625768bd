use glomers::txn::{Operation, StoreCall, StoreReply, Txn, TxnStep};
use std::collections::HashMap;

/// Runs `t` to the end against `store`, a store whose lock is free.
fn run(ops: Vec<(Operation, u64, Option<u64>)>, store: &mut HashMap<u64, Option<u64>>) -> TxnStep {
    let (mut t, first) = Txn::new(ops);
    let mut call = first;
    loop {
        let reply = match call {
            StoreCall::AcquireLock => StoreReply::Done,
            StoreCall::ReleaseLock => StoreReply::Done,
            StoreCall::Get { key } => StoreReply::Value(store.get(&key).copied().flatten()),
            StoreCall::Put { key, value } => {
                store.insert(key, value);
                StoreReply::Done
            }
        };
        match t.on_reply(reply) {
            TxnStep::Call(c) => call = c,
            done => return done,
        }
    }
}

#[test]
fn reads_its_own_write() {
    let mut store = HashMap::new();
    store.insert(7u64, Some(5u64));
    let r = run(
        vec![(Operation::Read, 7, None), (Operation::Write, 7, Some(6)), (Operation::Read, 7, None)],
        &mut store,
    );
    assert_eq!(
        r,
        TxnStep::Committed(vec![
            (Operation::Read, 7, Some(5)),
            (Operation::Write, 7, Some(6)),
            (Operation::Read, 7, Some(6))
        ])
    );
    assert_eq!(store.get(&7), Some(&Some(6)));
}

#[test]
fn missing_key_reads_null() {
    let mut store = HashMap::new();
    let r = run(vec![(Operation::Read, 1, None)], &mut store);
    assert_eq!(r, TxnStep::Committed(vec![(Operation::Read, 1, None)]));
}

#[test]
fn writes_stay_buffered_until_all_reads_are_done() {
    let (mut t, c) = Txn::new(vec![(Operation::Write, 1, Some(1)), (Operation::Read, 2, None)]);
    assert_eq!(c, StoreCall::AcquireLock);
    assert_eq!(t.on_reply(StoreReply::Done), TxnStep::Call(StoreCall::Get { key: 2 }));
    assert_eq!(t.on_reply(StoreReply::Value(Some(9))), TxnStep::Call(StoreCall::Put { key: 1, value: Some(1) }));
    assert_eq!(t.on_reply(StoreReply::Done), TxnStep::Call(StoreCall::ReleaseLock));
    assert_eq!(
        t.on_reply(StoreReply::Done),
        TxnStep::Committed(vec![(Operation::Write, 1, Some(1)), (Operation::Read, 2, Some(9))])
    );
}

#[test]
fn only_the_last_write_per_key_is_flushed() {
    let (mut t, _) = Txn::new(vec![
        (Operation::Write, 1, Some(1)),
        (Operation::Write, 2, Some(2)),
        (Operation::Write, 1, Some(3)),
    ]);
    assert_eq!(t.on_reply(StoreReply::Done), TxnStep::Call(StoreCall::Put { key: 2, value: Some(2) }));
    assert_eq!(t.on_reply(StoreReply::Done), TxnStep::Call(StoreCall::Put { key: 1, value: Some(3) }));
    assert_eq!(t.on_reply(StoreReply::Done), TxnStep::Call(StoreCall::ReleaseLock));
}

#[test]
fn contended_lock_is_retried() {
    let (mut t, _) = Txn::new(vec![(Operation::Read, 1, None)]);
    assert_eq!(t.on_reply(StoreReply::PreconditionFailed), TxnStep::Call(StoreCall::AcquireLock));
    assert_eq!(t.on_reply(StoreReply::PreconditionFailed), TxnStep::Call(StoreCall::AcquireLock));
    assert_eq!(t.on_reply(StoreReply::Done), TxnStep::Call(StoreCall::Get { key: 1 }));
}

#[test]
fn lock_error_aborts_without_release() {
    let (mut t, _) = Txn::new(vec![(Operation::Read, 1, None)]);
    assert_eq!(t.on_reply(StoreReply::Failed), TxnStep::Aborted);
    assert_eq!(t.on_reply(StoreReply::Done), TxnStep::Aborted);
}

#[test]
fn store_error_after_lock_releases_then_aborts() {
    let (mut t, _) = Txn::new(vec![(Operation::Read, 1, None), (Operation::Write, 1, Some(2))]);
    assert_eq!(t.on_reply(StoreReply::Done), TxnStep::Call(StoreCall::Get { key: 1 }));
    assert_eq!(t.on_reply(StoreReply::Failed), TxnStep::Call(StoreCall::ReleaseLock));
    assert_eq!(t.on_reply(StoreReply::Failed), TxnStep::Call(StoreCall::ReleaseLock));
    assert_eq!(t.on_reply(StoreReply::Done), TxnStep::Aborted);
}

#[test]
fn put_error_releases_then_aborts() {
    let (mut t, _) = Txn::new(vec![(Operation::Write, 1, Some(2))]);
    assert_eq!(t.on_reply(StoreReply::Done), TxnStep::Call(StoreCall::Put { key: 1, value: Some(2) }));
    assert_eq!(t.on_reply(StoreReply::Failed), TxnStep::Call(StoreCall::ReleaseLock));
    assert_eq!(t.on_reply(StoreReply::Done), TxnStep::Aborted);
}

#[test]
fn serial_transactions_see_whole_effects() {
    let mut store = HashMap::new();
    run(vec![(Operation::Write, 1, Some(1))], &mut store);
    let r = run(vec![(Operation::Read, 1, None)], &mut store);
    assert_eq!(r, TxnStep::Committed(vec![(Operation::Read, 1, Some(1))]));
}

#[test]
fn empty_transaction_commits() {
    let mut store = HashMap::new();
    assert_eq!(run(vec![], &mut store), TxnStep::Committed(vec![]));
}
