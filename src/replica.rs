//! Request handling of a log node: a statically configured leader orders appends and
//! commits, followers forward client requests to it and apply what it replicates.
use crate::log::{batch, listing, pairs_view, set_marks, LogStore};
use vstd::prelude::*;

verus! {

#[derive(Clone, Copy, Debug, PartialEq, Eq, Structural)]
pub enum Role {
    Leader,
    Follower,
}

#[derive(Clone, Debug, PartialEq, Eq)]
pub enum LogRequest {
    Send { key: String, msg: u64 },
    Poll { offsets: Vec<(String, u64)> },
    CommitOffsets { offsets: Vec<(String, u64)> },
    ListCommittedOffsets { keys: Vec<String> },
    ReplicateSend { key: String, msg: u64 },
    ReplicateCommitOffsets { offsets: Vec<(String, u64)> },
}

#[derive(Clone, Debug, PartialEq, Eq)]
pub enum LogResponse {
    SendOk { offset: u64 },
    PollOk { msgs: Vec<(String, Vec<(u64, u64)>)> },
    CommitOffsetsOk,
    ListCommittedOffsetsOk { offsets: Vec<(String, u64)> },
    ReplicateSendOk,
    ReplicateCommitOffsetsOk,
    /// The key's log already holds `u64::MAX` messages.
    LogFull,
}

/// What the runtime does with a request once the node has decided.
#[derive(Clone, Debug, PartialEq, Eq)]
pub enum LogAction {
    /// Answer the caller.
    Reply(LogResponse),
    /// Answer the caller, then send the request to every neighbour in the background,
    /// resending until each acknowledges.
    ReplyAndReplicate(LogResponse, LogRequest),
    /// Send the client's request unchanged to the named leader and relay its answer.
    Forward(String),
}

/// The role of `node_id` in a cluster whose leader is `leader`.
pub open spec fn role_of(node_id: Seq<char>, leader: Seq<char>) -> Role {
    if node_id == leader { Role::Leader } else { Role::Follower }
}

pub struct LogNode {
    pub store: LogStore,
    pub leader: String,
    pub role: Option<Role>,
}

impl LogNode {
    pub open spec fn wf(&self) -> bool {
        self.store.wf()
    }

    /// The role this node acts in: the cached one, else the one that `node_id` resolves to.
    pub open spec fn role_for(&self, node_id: Seq<char>) -> Role {
        match self.role {
            Some(r) => r,
            None => role_of(node_id, self.leader@),
        }
    }

    /// `post` and `r` are the outcome of `Send { key, msg }` at `pre`.
    pub open spec fn sent(pre: Self, node_id: Seq<char>, key: String, msg: u64, post: Self, r: LogAction) -> bool {
        &&& post.leader == pre.leader
        &&& post.role == Some(pre.role_for(node_id))
        &&& post.store.marks() == pre.store.marks()
        &&& if pre.role_for(node_id) == Role::Leader {
            let log = pre.store.logs()[key@];
            if log.len() < u64::MAX {
                &&& post.store.logs() == pre.store.logs().insert(key@, log.push(msg))
                &&& r == LogAction::ReplyAndReplicate(
                    LogResponse::SendOk { offset: (log.len() + 1) as u64 },
                    LogRequest::ReplicateSend { key, msg },
                )
            } else {
                post.store.logs() == pre.store.logs() && r == LogAction::Reply(LogResponse::LogFull)
            }
        } else {
            post.store.logs() == pre.store.logs() && r == LogAction::Forward(pre.leader)
        }
    }

    /// `post` and `r` are the outcome of `CommitOffsets { offsets }` at `pre`.
    pub open spec fn committed(pre: Self, node_id: Seq<char>, offsets: Vec<(String, u64)>, post: Self, r: LogAction) -> bool {
        &&& post.leader == pre.leader
        &&& post.role == Some(pre.role_for(node_id))
        &&& post.store.logs() == pre.store.logs()
        &&& if pre.role_for(node_id) == Role::Leader {
            &&& post.store.marks() == set_marks(pre.store.marks(), offsets@)
            &&& r == LogAction::ReplyAndReplicate(
                LogResponse::CommitOffsetsOk,
                LogRequest::ReplicateCommitOffsets { offsets },
            )
        } else {
            post.store.marks() == pre.store.marks() && r == LogAction::Forward(pre.leader)
        }
    }

    /// `r` answers a poll of `offsets` from `store`.
    pub open spec fn polled(store: LogStore, offsets: Seq<(String, u64)>, r: LogAction) -> bool {
        match r {
            LogAction::Reply(LogResponse::PollOk { msgs }) => {
                &&& msgs@.len() == offsets.len()
                &&& forall|i: int| 0 <= i < msgs@.len() ==> {
                    &&& (#[trigger] msgs@[i]).0@ == offsets[i].0@
                    &&& msgs@[i].1@ == batch(store.logs()[offsets[i].0@], offsets[i].1)
                }
            },
            _ => false,
        }
    }

    /// `r` lists the commit marks of `keys` in `store`.
    pub open spec fn listed(store: LogStore, keys: Seq<String>, r: LogAction) -> bool {
        match r {
            LogAction::Reply(LogResponse::ListCommittedOffsetsOk { offsets }) =>
                pairs_view(offsets@) == listing(store.marks(), keys),
            _ => false,
        }
    }

    /// `post` and `r` are the outcome of `ReplicateSend { key, msg }` at `pre`.
    pub open spec fn replicated_send(pre: Self, key: String, msg: u64, post: Self, r: LogAction) -> bool {
        &&& post.leader == pre.leader
        &&& post.role == pre.role
        &&& post.store.marks() == pre.store.marks()
        &&& if pre.store.logs()[key@].len() < u64::MAX {
            &&& post.store.logs() == pre.store.logs().insert(key@, pre.store.logs()[key@].push(msg))
            &&& r == LogAction::Reply(LogResponse::ReplicateSendOk)
        } else {
            &&& post.store.logs() == pre.store.logs()
            &&& r == LogAction::Reply(LogResponse::LogFull)
        }
    }

    /// `post` and `r` are the outcome of `ReplicateCommitOffsets { offsets }` at `pre`.
    pub open spec fn replicated_commit(pre: Self, offsets: Seq<(String, u64)>, post: Self, r: LogAction) -> bool {
        &&& post.leader == pre.leader
        &&& post.role == pre.role
        &&& post.store.logs() == pre.store.logs()
        &&& post.store.marks() == set_marks(pre.store.marks(), offsets)
        &&& r == LogAction::Reply(LogResponse::ReplicateCommitOffsetsOk)
    }

    pub fn new(leader: String) -> (n: Self)
        ensures
            n.wf(),
            n.leader == leader,
            n.role.is_none(),
            forall|k: Seq<char>| #[trigger] n.store.logs()[k] == Seq::<u64>::empty(),
            n.store.marks() == Map::<Seq<char>, u64>::empty(),
    {
        LogNode { store: LogStore::new(), leader, role: None }
    }

    /// The role of this node, resolved from `node_id` on first use and kept after.
    pub fn role(&mut self, node_id: &String) -> (r: Role)
        ensures
            r == old(self).role_for(node_id@),
            final(self).role == Some(r),
            final(self).store == old(self).store,
            final(self).leader == old(self).leader,
    {
        match self.role {
            Some(r) => r,
            None => {
                let r = if *node_id == self.leader { Role::Leader } else { Role::Follower };
                self.role = Some(r);
                r
            },
        }
    }

    /// Appends at the leader and has the append replicated; a follower forwards.
    pub fn send(&mut self, node_id: &String, key: String, msg: u64) -> (r: LogAction)
        requires
            old(self).wf(),
        ensures
            final(self).wf(),
            LogNode::sent(*old(self), node_id@, key, msg, *final(self), r),
    {
        match self.role(node_id) {
            Role::Leader => {
                let k = key.clone();
                match self.store.append(k, msg) {
                    Some(offset) => LogAction::ReplyAndReplicate(
                        LogResponse::SendOk { offset },
                        LogRequest::ReplicateSend { key, msg },
                    ),
                    None => LogAction::Reply(LogResponse::LogFull),
                }
            },
            Role::Follower => LogAction::Forward(self.leader.clone()),
        }
    }

    /// Applies an append that the leader ordered.
    pub fn replicate_send(&mut self, key: String, msg: u64) -> (r: LogAction)
        requires
            old(self).wf(),
        ensures
            final(self).wf(),
            LogNode::replicated_send(*old(self), key, msg, *final(self), r),
    {
        match self.store.append(key, msg) {
            Some(_) => LogAction::Reply(LogResponse::ReplicateSendOk),
            None => LogAction::Reply(LogResponse::LogFull),
        }
    }

    /// Sets commit marks at the leader and has them replicated; a follower forwards.
    pub fn commit_offsets(&mut self, node_id: &String, offsets: Vec<(String, u64)>) -> (r: LogAction)
        requires
            old(self).wf(),
        ensures
            final(self).wf(),
            LogNode::committed(*old(self), node_id@, offsets, *final(self), r),
    {
        match self.role(node_id) {
            Role::Leader => {
                self.store.commit(&offsets);
                LogAction::ReplyAndReplicate(
                    LogResponse::CommitOffsetsOk,
                    LogRequest::ReplicateCommitOffsets { offsets },
                )
            },
            Role::Follower => LogAction::Forward(self.leader.clone()),
        }
    }

    /// Applies commit marks that the leader set.
    pub fn replicate_commit_offsets(&mut self, offsets: Vec<(String, u64)>) -> (r: LogAction)
        requires
            old(self).wf(),
        ensures
            final(self).wf(),
            LogNode::replicated_commit(*old(self), offsets@, *final(self), r),
    {
        self.store.commit(&offsets);
        LogAction::Reply(LogResponse::ReplicateCommitOffsetsOk)
    }

    /// Answers a poll from the local log.
    pub fn poll(&self, offsets: &Vec<(String, u64)>) -> (r: LogAction)
        requires
            self.wf(),
        ensures
            LogNode::polled(self.store, offsets@, r),
    {
        LogAction::Reply(LogResponse::PollOk { msgs: self.store.poll(offsets) })
    }

    /// Answers with the local commit marks of the requested keys.
    pub fn list_committed_offsets(&self, keys: &Vec<String>) -> (r: LogAction)
        requires
            self.wf(),
        ensures
            LogNode::listed(self.store, keys@, r),
    {
        LogAction::Reply(LogResponse::ListCommittedOffsetsOk { offsets: self.store.list_committed(keys) })
    }

    /// Decides what to do with one request.
    pub fn handle(&mut self, node_id: &String, req: LogRequest) -> (r: LogAction)
        requires
            old(self).wf(),
        ensures
            final(self).wf(),
            match req {
                LogRequest::Send { key, msg } => LogNode::sent(*old(self), node_id@, key, msg, *final(self), r),
                LogRequest::CommitOffsets { offsets } =>
                    LogNode::committed(*old(self), node_id@, offsets, *final(self), r),
                LogRequest::ReplicateSend { key, msg } =>
                    LogNode::replicated_send(*old(self), key, msg, *final(self), r),
                LogRequest::ReplicateCommitOffsets { offsets } =>
                    LogNode::replicated_commit(*old(self), offsets@, *final(self), r),
                LogRequest::Poll { offsets } => *final(self) == *old(self) && LogNode::polled(old(self).store, offsets@, r),
                LogRequest::ListCommittedOffsets { keys } =>
                    *final(self) == *old(self) && LogNode::listed(old(self).store, keys@, r),
            },
    {
        match req {
            LogRequest::Send { key, msg } => self.send(node_id, key, msg),
            LogRequest::Poll { offsets } => self.poll(&offsets),
            LogRequest::CommitOffsets { offsets } => self.commit_offsets(node_id, offsets),
            LogRequest::ListCommittedOffsets { keys } => self.list_committed_offsets(&keys),
            LogRequest::ReplicateSend { key, msg } => self.replicate_send(key, msg),
            LogRequest::ReplicateCommitOffsets { offsets } => self.replicate_commit_offsets(offsets),
        }
    }
}

} // verus!
