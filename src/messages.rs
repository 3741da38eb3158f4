use vstd::prelude::*;

use crate::codec::{StopSign, TemplateSnapshot, WireEntry};

verus! {

/// Identifier of a server.
pub type NodeId = u64;

/// Number of a message in the leader-to-follower sequence of one ballot.
pub type SequenceNumber = u64;

/// A leader epoch. Ballots are ordered by `config_id`, then `n`, then
/// `priority`, then `pid`; a higher ballot supersedes a lower one.
#[derive(Clone, Copy, Debug, PartialEq, Eq, Structural)]
pub struct Ballot {
    pub config_id: u32,
    pub n: u32,
    pub priority: u32,
    pub pid: NodeId,
}

/// `a` is not above `b` in ballot order.
pub open spec fn ballot_le(a: Ballot, b: Ballot) -> bool {
    a.config_id < b.config_id || (a.config_id == b.config_id && (a.n < b.n || (a.n == b.n && (a.priority < b.priority
        || (a.priority == b.priority && a.pid <= b.pid)))))
}

impl Ballot {
    /// Whether `self` is not above `other` in ballot order.
    pub fn le(&self, other: &Ballot) -> (r: bool)
        ensures
            r == ballot_le(*self, *other),
    {
        if self.config_id != other.config_id {
            return self.config_id < other.config_id;
        }
        if self.n != other.n {
            return self.n < other.n;
        }
        if self.priority != other.priority {
            return self.priority < other.priority;
        }
        self.pid <= other.pid
    }
}

/// Decided entries folded into a snapshot of the application state.
#[derive(Clone, Debug)]
pub enum SnapshotType<T> {
    /// The whole state.
    Complete(Vec<T>),
    /// The part that changed since the last complete snapshot.
    Delta(Vec<T>),
}

/// Message sent by a follower on crash-recovery or dropped messages to
/// request its leader to re-prepare them.
#[derive(Clone, Copy, Debug, PartialEq, Eq, Structural)]
pub struct PrepareReq {
    /// The current round.
    pub n: Ballot,
}

/// Prepare message sent by a newly-elected leader to initiate the Prepare phase.
#[derive(Clone, Copy, Debug, PartialEq, Eq, Structural)]
pub struct Prepare {
    /// The current round.
    pub n: Ballot,
    /// The decided index of this leader.
    pub decided_idx: u64,
    /// The latest round in which an entry was accepted.
    pub n_accepted: Ballot,
    /// The log length of this leader.
    pub accepted_idx: u64,
}

/// Promise message sent by a follower in response to a [`Prepare`].
#[derive(Clone, Debug)]
pub struct Promise<T> {
    /// The current round.
    pub n: Ballot,
    /// The latest round in which an entry was accepted.
    pub n_accepted: Ballot,
    /// The decided snapshot.
    pub decided_snapshot: Option<SnapshotType<T>>,
    /// The log suffix.
    pub suffix: Vec<T>,
    /// The decided index of this follower.
    pub decided_idx: u64,
    /// The log length of this follower.
    pub accepted_idx: u64,
    /// The stop sign accepted by this follower.
    pub stopsign: Option<StopSign>,
}

/// Resynchronization offer sent by the leader in the prepare phase.
#[derive(Clone, Debug)]
pub struct AcceptSync<T> {
    /// The current round.
    pub n: Ballot,
    /// The sequence number of this message in the leader-to-follower sequence.
    pub seq_num: SequenceNumber,
    /// The decided snapshot.
    pub decided_snapshot: Option<SnapshotType<T>>,
    /// The log suffix, in its template-bearing form.
    pub suffix: Vec<T>,
    /// The log index at which `suffix` applies.
    pub sync_idx: u64,
    /// The decided index.
    pub decided_idx: u64,
    /// Stop sign to be accepted.
    pub stopsign: Option<StopSign>,
    /// The leader's dictionary cache, when the history it needs was compacted.
    pub unicache: Option<TemplateSnapshot>,
}

/// Entries to be replicated and the latest decided index, sent by the
/// leader in the accept phase.
#[derive(Clone, Debug)]
pub struct AcceptDecide<T> {
    /// The current round.
    pub n: Ballot,
    /// The sequence number of this message in the leader-to-follower sequence.
    pub seq_num: SequenceNumber,
    /// The decided index.
    pub decided_idx: u64,
    /// Entries to be replicated.
    pub entries: Vec<T>,
}

/// A batch of encoded entries sent by the leader in the accept phase.
#[derive(Clone, Debug, PartialEq, Eq)]
pub struct EncodedAcceptDecide {
    /// The current round.
    pub n: Ballot,
    /// The sequence number of this message in the leader-to-follower sequence.
    pub seq_num: SequenceNumber,
    /// The decided index.
    pub decided_idx: u64,
    /// Entries to be replicated, in wire form.
    pub entries: Vec<WireEntry>,
}

/// Message sent by a follower to the leader when entries have been accepted.
#[derive(Clone, Copy, Debug, PartialEq, Eq, Structural)]
pub struct Accepted {
    /// The current round.
    pub n: Ballot,
    /// The accepted index.
    pub accepted_idx: u64,
}

/// Message sent by the leader to decide up to a certain index in the log.
#[derive(Clone, Copy, Debug, PartialEq, Eq, Structural)]
pub struct Decide {
    /// The current round.
    pub n: Ballot,
    /// The sequence number of this message in the leader-to-follower sequence.
    pub seq_num: SequenceNumber,
    /// The decided index.
    pub decided_idx: u64,
}

/// Message sent by the leader to have followers accept a stop sign.
#[derive(Clone, Debug)]
pub struct AcceptStopSign {
    /// The current round.
    pub n: Ballot,
    /// The sequence number of this message in the leader-to-follower sequence.
    pub seq_num: SequenceNumber,
    /// The stop sign.
    pub ss: StopSign,
}

/// Message sent by a follower that is promised to a greater leader.
#[derive(Clone, Copy, Debug, PartialEq, Eq, Structural)]
pub struct NotAccepted {
    /// The follower's current ballot.
    pub n: Ballot,
}

/// Log compaction request.
#[derive(Clone, Copy, Debug, PartialEq, Eq, Structural)]
pub enum Compaction {
    Trim(u64),
    Snapshot(Option<u64>),
}

/// The messages of log replication.
#[derive(Clone, Debug)]
pub enum PaxosMsg<T> {
    /// Request a [`Prepare`] from the leader. Used for fail-recovery.
    PrepareReq(PrepareReq),
    Prepare(Prepare),
    Promise(Promise<T>),
    AcceptSync(AcceptSync<T>),
    AcceptDecide(AcceptDecide<T>),
    Accepted(Accepted),
    NotAccepted(NotAccepted),
    Decide(Decide),
    /// Forward client proposals to the leader.
    ProposalForward(Vec<T>),
    Compaction(Compaction),
    AcceptStopSign(AcceptStopSign),
    ForwardStopSign(StopSign),
    EncodedAcceptDecide(EncodedAcceptDecide),
}

/// A log-replication message with its sender and receiver.
#[derive(Clone, Debug)]
pub struct PaxosMessage<T> {
    /// Sender of `msg`.
    pub from: NodeId,
    /// Receiver of `msg`.
    pub to: NodeId,
    /// The message content.
    pub msg: PaxosMsg<T>,
}

/// The messages of leader election.
#[derive(Clone, Copy, Debug, PartialEq, Eq, Structural)]
pub enum HeartbeatMsg {
    Request(HeartbeatRequest),
    Reply(HeartbeatReply),
}

/// Requests a reply from all the other servers.
#[derive(Clone, Copy, Debug, PartialEq, Eq, Structural)]
pub struct HeartbeatRequest {
    /// Number of the current round.
    pub round: u32,
}

/// Reply to a heartbeat request.
#[derive(Clone, Copy, Debug, PartialEq, Eq, Structural)]
pub struct HeartbeatReply {
    /// Number of the current heartbeat round.
    pub round: u32,
    /// Ballot of the replying server.
    pub ballot: Ballot,
    /// Leader this server is following.
    pub leader: Ballot,
    /// Whether the replying server sees no need for a new leader.
    pub happy: bool,
}

/// A leader-election message with its sender and receiver.
#[derive(Clone, Copy, Debug, PartialEq, Eq, Structural)]
pub struct BLEMessage {
    /// Sender of `msg`.
    pub from: NodeId,
    /// Receiver of `msg`.
    pub to: NodeId,
    /// The message content.
    pub msg: HeartbeatMsg,
}

/// A message between servers: log replication or leader election.
#[derive(Clone, Debug)]
pub enum Message<T> {
    SequencePaxos(PaxosMessage<T>),
    BLE(BLEMessage),
}

impl<T> Message<T> {
    /// The node that sent the message.
    pub open spec fn sender(&self) -> NodeId {
        match self {
            Message::SequencePaxos(p) => p.from,
            Message::BLE(b) => b.from,
        }
    }

    /// The node that the message is for.
    pub open spec fn receiver(&self) -> NodeId {
        match self {
            Message::SequencePaxos(p) => p.to,
            Message::BLE(b) => b.to,
        }
    }

    /// The sender of the message.
    pub fn get_sender(&self) -> (r: NodeId)
        ensures
            r == self.sender(),
    {
        match self {
            Message::SequencePaxos(p) => p.from,
            Message::BLE(b) => b.from,
        }
    }

    /// The receiver of the message.
    pub fn get_receiver(&self) -> (r: NodeId)
        ensures
            r == self.receiver(),
    {
        match self {
            Message::SequencePaxos(p) => p.to,
            Message::BLE(b) => b.to,
        }
    }
}

} // verus!
