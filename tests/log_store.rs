use glomers::log::LogStore;
use glomers::replica::{LogAction, LogNode, LogRequest, LogResponse, Role};

fn s(x: &str) -> String {
    x.to_string()
}

fn leader() -> (LogNode, String) {
    (LogNode::new(s("n0")), s("n0"))
}

#[test]
fn send_twice_then_poll_returns_both() {
    let (mut node, me) = leader();
    let a = node.handle(&me, LogRequest::Send { key: s("k"), msg: 10 });
    assert_eq!(
        a,
        LogAction::ReplyAndReplicate(
            LogResponse::SendOk { offset: 1 },
            LogRequest::ReplicateSend { key: s("k"), msg: 10 }
        )
    );
    let b = node.handle(&me, LogRequest::Send { key: s("k"), msg: 20 });
    assert_eq!(
        b,
        LogAction::ReplyAndReplicate(
            LogResponse::SendOk { offset: 2 },
            LogRequest::ReplicateSend { key: s("k"), msg: 20 }
        )
    );
    let p = node.handle(&me, LogRequest::Poll { offsets: vec![(s("k"), 1)] });
    assert_eq!(
        p,
        LogAction::Reply(LogResponse::PollOk { msgs: vec![(s("k"), vec![(1, 10), (2, 20)])] })
    );
}

#[test]
fn offsets_are_per_key_and_dense() {
    let mut st = LogStore::new();
    assert_eq!(st.append(s("a"), 5), Some(1));
    assert_eq!(st.append(s("b"), 6), Some(1));
    assert_eq!(st.append(s("a"), 7), Some(2));
    assert_eq!(st.append(s("a"), 8), Some(3));
    assert_eq!(st.append(s("b"), 9), Some(2));
}

#[test]
fn poll_is_capped_and_starts_at_cursor() {
    let mut st = LogStore::new();
    for m in 0..12u64 {
        st.append(s("k"), 100 + m);
    }
    let r = st.poll(&vec![(s("k"), 1), (s("k"), 3), (s("k"), 11), (s("k"), 13), (s("none"), 1)]);
    assert_eq!(r.len(), 5);
    let first: Vec<(u64, u64)> = (1..=8u64).map(|o| (o, 99 + o)).collect();
    assert_eq!(r[0], (s("k"), first));
    let third: Vec<(u64, u64)> = (3..=10u64).map(|o| (o, 99 + o)).collect();
    assert_eq!(r[1], (s("k"), third));
    assert_eq!(r[2], (s("k"), vec![(11, 110), (12, 111)]));
    assert_eq!(r[3], (s("k"), vec![]));
    assert_eq!(r[4], (s("none"), vec![]));
}

#[test]
fn poll_from_zero_starts_at_first_offset() {
    let mut st = LogStore::new();
    st.append(s("k"), 4);
    assert_eq!(st.poll(&vec![(s("k"), 0)]), vec![(s("k"), vec![(1, 4)])]);
}

#[test]
fn commit_then_list_round_trips() {
    let (mut node, me) = leader();
    node.handle(&me, LogRequest::Send { key: s("k"), msg: 1 });
    let c = node.handle(
        &me,
        LogRequest::CommitOffsets { offsets: vec![(s("k"), 1), (s("j"), 4), (s("k"), 3)] },
    );
    assert_eq!(
        c,
        LogAction::ReplyAndReplicate(
            LogResponse::CommitOffsetsOk,
            LogRequest::ReplicateCommitOffsets {
                offsets: vec![(s("k"), 1), (s("j"), 4), (s("k"), 3)]
            }
        )
    );
    let l = node.handle(&me, LogRequest::ListCommittedOffsets { keys: vec![s("k"), s("x"), s("j")] });
    assert_eq!(
        l,
        LogAction::Reply(LogResponse::ListCommittedOffsetsOk { offsets: vec![(s("k"), 3), (s("j"), 4)] })
    );
}

#[test]
fn list_omits_keys_without_mark() {
    let mut st = LogStore::new();
    st.append(s("k"), 1);
    assert_eq!(st.list_committed(&vec![s("k")]), vec![]);
}

#[test]
fn follower_forwards_to_leader() {
    let mut node = LogNode::new(s("n0"));
    let me = s("n2");
    let a = node.handle(&me, LogRequest::Send { key: s("k"), msg: 10 });
    assert_eq!(a, LogAction::Forward(s("n0")));
    let c = node.handle(&me, LogRequest::CommitOffsets { offsets: vec![(s("k"), 1)] });
    assert_eq!(c, LogAction::Forward(s("n0")));
    assert_eq!(node.role, Some(Role::Follower));
    let l = node.handle(&me, LogRequest::ListCommittedOffsets { keys: vec![s("k")] });
    assert_eq!(l, LogAction::Reply(LogResponse::ListCommittedOffsetsOk { offsets: vec![] }));
}

#[test]
fn follower_applies_replication() {
    let mut node = LogNode::new(s("n0"));
    let me = s("n1");
    let a = node.handle(&me, LogRequest::ReplicateSend { key: s("k"), msg: 10 });
    assert_eq!(a, LogAction::Reply(LogResponse::ReplicateSendOk));
    node.handle(&me, LogRequest::ReplicateSend { key: s("k"), msg: 11 });
    let c = node.handle(&me, LogRequest::ReplicateCommitOffsets { offsets: vec![(s("k"), 2)] });
    assert_eq!(c, LogAction::Reply(LogResponse::ReplicateCommitOffsetsOk));
    let p = node.handle(&me, LogRequest::Poll { offsets: vec![(s("k"), 2)] });
    assert_eq!(p, LogAction::Reply(LogResponse::PollOk { msgs: vec![(s("k"), vec![(2, 11)])] }));
    let l = node.handle(&me, LogRequest::ListCommittedOffsets { keys: vec![s("k")] });
    assert_eq!(l, LogAction::Reply(LogResponse::ListCommittedOffsetsOk { offsets: vec![(s("k"), 2)] }));
}

#[test]
fn role_is_resolved_once() {
    let mut node = LogNode::new(s("n0"));
    assert_eq!(node.role(&s("n0")), Role::Leader);
    assert_eq!(node.role(&s("n3")), Role::Leader);
}
