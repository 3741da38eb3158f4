use omnipaxos_cache::cache::{CacheError, Policy};
use omnipaxos_cache::codec::{decode, encode, LogEntry, StopSign, StoreCommand, TemplateCache, WireEntry};
use omnipaxos_cache::messages::{
    AcceptSync, BLEMessage, Ballot, EncodedAcceptDecide, HeartbeatMsg, HeartbeatRequest, Message, PaxosMessage,
    PaxosMsg, PrepareReq,
};
use omnipaxos_cache::sequencer::{
    choose_strategy, decode_batch, encode_batch, FollowerSequencer, LeaderSequencer, Rejection, ResyncStrategy,
};

fn b(s: &str) -> Vec<u8> {
    s.as_bytes().to_vec()
}

fn cmd(id: u64, template: &str, residual: &str) -> StoreCommand {
    StoreCommand { id, template: b(template), residual: b(residual) }
}

fn ballot(n: u32) -> Ballot {
    Ballot { config_id: 1, n, priority: 0, pid: 1 }
}

#[test]
fn shared_template_is_hit_and_round_trips() {
    let mut leader = TemplateCache::new(8, Policy::Recency);
    let mut follower = TemplateCache::new(8, Policy::Recency);
    let first = cmd(1, "SELECT * WHERE id=", "1");
    let second = cmd(2, "SELECT * WHERE id=", "2");
    let w1 = first.clone().encode(&mut leader);
    let w2 = second.clone().encode(&mut leader);
    assert_eq!(w1, WireEntry::Literal { id: 1, template: b("SELECT * WHERE id="), residual: b("1") });
    assert_eq!(w2, WireEntry::Hit { id: 2, index: 0, residual: b("2") });
    assert_eq!(StoreCommand::decode(w1, &mut follower), Ok(first));
    assert_eq!(StoreCommand::decode(w2, &mut follower), Ok(second));
    assert_eq!(leader.snapshot(), follower.snapshot());
}

#[test]
fn round_trip_with_evictions_keeps_caches_equal() {
    for policy in [Policy::Recency, Policy::Frequency] {
        let mut leader = TemplateCache::new(2, policy);
        let mut follower = TemplateCache::new(2, policy);
        let templates = ["t1", "t2", "t1", "t3", "t2", "t1", "t3", "t3", "t4", "t1"];
        let entries: Vec<LogEntry> = templates
            .iter()
            .enumerate()
            .map(|(i, t)| LogEntry::Command(cmd(i as u64, t, "r")))
            .collect();
        let wires = encode_batch(entries.clone(), &mut leader);
        assert!(wires.iter().any(|w| matches!(w, WireEntry::Hit { .. })));
        let decoded = decode_batch(wires, &mut follower);
        assert_eq!(decoded, Ok(entries));
        assert_eq!(leader.snapshot(), follower.snapshot());
    }
}

#[test]
fn stop_sign_passes_untouched() {
    let mut leader = TemplateCache::new(2, Policy::Recency);
    let ss = StopSign { config_id: 2, nodes: vec![1, 2, 3], metadata: Some(vec![9]) };
    let w = encode(LogEntry::StopSign(ss.clone()), &mut leader);
    assert_eq!(w, WireEntry::StopSign(ss.clone()));
    assert_eq!(leader.len(), 0);
    assert_eq!(decode(w, &mut leader), Ok(LogEntry::StopSign(ss.clone())));
    assert_eq!(leader.len(), 0);
    assert_eq!(StoreCommand::decode(WireEntry::StopSign(ss), &mut leader), Err(CacheError::MalformedWireEntry));
}

#[test]
fn hit_on_unknown_index_is_index_invalid_and_leaves_cache() {
    let mut follower = TemplateCache::new(2, Policy::Recency);
    follower.put(b("t"), b("t"));
    let before = follower.snapshot();
    let r = decode(WireEntry::Hit { id: 1, index: 3, residual: b("x") }, &mut follower);
    assert_eq!(r, Err(CacheError::IndexInvalid));
    assert_eq!(follower.snapshot(), before);
}

#[test]
fn leader_numbers_batches_from_one() {
    let mut cache = TemplateCache::new(4, Policy::Recency);
    let mut seq = LeaderSequencer::new(ballot(3));
    let b1 = seq.next_batch(vec![LogEntry::Command(cmd(1, "q", "1"))], 0, &mut cache);
    let b2 = seq.next_batch(vec![], 1, &mut cache);
    assert_eq!(b1.seq_num, 1);
    assert_eq!(b2.seq_num, 2);
    assert_eq!(b1.n, ballot(3));
    assert_eq!(b2.decided_idx, 1);
    let mut next_term = LeaderSequencer::new(ballot(4));
    let b3 = next_term.next_batch(vec![], 1, &mut cache);
    assert_eq!(b3.seq_num, 1);
}

#[test]
fn follower_applies_in_order_batches() {
    let mut lc = TemplateCache::new(4, Policy::Recency);
    let mut fc = TemplateCache::new(4, Policy::Recency);
    let mut leader = LeaderSequencer::new(ballot(1));
    let mut follower = FollowerSequencer::new(ballot(1));
    let e1 = vec![LogEntry::Command(cmd(1, "q", "1")), LogEntry::Command(cmd(2, "q", "2"))];
    let e2 = vec![LogEntry::Command(cmd(3, "q", "3"))];
    let b1 = leader.next_batch(e1.clone(), 0, &mut lc);
    let b2 = leader.next_batch(e2.clone(), 0, &mut lc);
    assert_eq!(follower.apply(b1, &mut fc), Ok(e1));
    assert_eq!(follower.last_applied, 1);
    assert_eq!(follower.apply(b2.clone(), &mut fc), Ok(e2));
    assert_eq!(follower.last_applied, 2);
    assert_eq!(lc.snapshot(), fc.snapshot());
    // a retransmitted batch is not applied twice
    assert_eq!(follower.apply(b2, &mut fc), Err(Rejection::SequenceGap));
    assert_eq!(lc.snapshot(), fc.snapshot());
}

#[test]
fn gap_requests_resync_and_leaves_cache() {
    let mut fc = TemplateCache::new(4, Policy::Recency);
    fc.put(b("q"), b("q"));
    let before = fc.snapshot();
    let mut follower = FollowerSequencer { promised: ballot(1), last_applied: 4 };
    let batch = EncodedAcceptDecide {
        n: ballot(1),
        seq_num: 6,
        decided_idx: 0,
        entries: vec![WireEntry::Literal { id: 9, template: b("z"), residual: b("") }],
    };
    assert!(!follower.accepts(ballot(1), 6));
    assert!(follower.accepts(ballot(1), 5));
    assert_eq!(follower.apply(batch, &mut fc), Err(Rejection::SequenceGap));
    assert_eq!(follower.last_applied, 4);
    assert_eq!(fc.snapshot(), before);
    assert_eq!(follower.resync_request(), PrepareReq { n: ballot(1) });
}

#[test]
fn other_ballot_is_rejected() {
    let mut fc = TemplateCache::new(4, Policy::Recency);
    let mut follower = FollowerSequencer::new(ballot(2));
    let batch = EncodedAcceptDecide {
        n: ballot(1),
        seq_num: 1,
        decided_idx: 0,
        entries: vec![WireEntry::Literal { id: 9, template: b("z"), residual: b("") }],
    };
    assert_eq!(follower.apply(batch, &mut fc), Err(Rejection::BallotMismatch));
    assert_eq!(fc.len(), 0);
    assert_eq!(follower.last_applied, 0);
}

#[test]
fn in_order_batch_with_stale_index_diverged_and_untouched() {
    let mut fc = TemplateCache::new(4, Policy::Recency);
    let mut follower = FollowerSequencer::new(ballot(1));
    let batch = EncodedAcceptDecide {
        n: ballot(1),
        seq_num: 1,
        decided_idx: 0,
        entries: vec![
            WireEntry::Literal { id: 1, template: b("a"), residual: b("") },
            WireEntry::Hit { id: 2, index: 5, residual: b("") },
        ],
    };
    assert_eq!(follower.apply(batch, &mut fc), Err(Rejection::Diverged));
    assert_eq!(fc.len(), 0);
    assert_eq!(follower.last_applied, 0);
}

#[test]
fn strategy_depends_on_compaction() {
    assert_eq!(choose_strategy(3, 5), ResyncStrategy::Snapshot);
    assert_eq!(choose_strategy(5, 5), ResyncStrategy::Replay);
    assert_eq!(choose_strategy(9, 0), ResyncStrategy::Replay);
}

#[test]
fn snapshot_resync_makes_follower_identical() {
    let mut lc = TemplateCache::new(2, Policy::Frequency);
    let mut leader = LeaderSequencer::new(ballot(5));
    let _ = encode_batch(
        vec![
            LogEntry::Command(cmd(1, "a", "")),
            LogEntry::Command(cmd(2, "b", "")),
            LogEntry::Command(cmd(3, "a", "")),
        ],
        &mut lc,
    );
    let offer = leader.resync_offer(0, 10, vec![], 3, 3, &lc);
    assert_eq!(offer.seq_num, 1);
    assert!(offer.unicache.is_some());
    let mut fc = TemplateCache::new(2, Policy::Frequency);
    let mut follower = FollowerSequencer::new(ballot(4));
    assert_eq!(follower.install(offer, &mut fc), Ok(vec![]));
    assert_eq!(follower.promised, ballot(5));
    assert_eq!(follower.last_applied, 1);
    assert_eq!(fc.snapshot(), lc.snapshot());
    let b = leader.next_batch(vec![LogEntry::Command(cmd(4, "c", ""))], 4, &mut lc);
    assert!(follower.apply(b, &mut fc).is_ok());
    assert_eq!(fc.snapshot(), lc.snapshot());
}

#[test]
fn replay_resync_rebuilds_cache() {
    let mut lc = TemplateCache::new(4, Policy::Recency);
    let mut leader = LeaderSequencer::new(ballot(2));
    let history = vec![LogEntry::Command(cmd(1, "a", "1")), LogEntry::Command(cmd(2, "b", "2"))];
    let suffix = vec![
        WireEntry::Literal { id: 1, template: b("a"), residual: b("1") },
        WireEntry::Literal { id: 2, template: b("b"), residual: b("2") },
    ];
    let _ = encode_batch(history.clone(), &mut lc);
    let offer = leader.resync_offer(5, 0, suffix, 0, 2, &lc);
    assert!(offer.unicache.is_none());
    let mut fc = TemplateCache::new(4, Policy::Recency);
    let mut follower = FollowerSequencer::new(ballot(1));
    assert_eq!(follower.install(offer, &mut fc), Ok(history));
    assert_eq!(fc.snapshot(), lc.snapshot());
}

#[test]
fn stale_or_incomplete_offer_is_refused() {
    let lc = TemplateCache::new(2, Policy::Recency);
    let mut leader = LeaderSequencer::new(ballot(1));
    let offer = leader.resync_offer(0, 1, vec![], 0, 0, &lc);
    let mut fc = TemplateCache::new(2, Policy::Recency);
    let mut follower = FollowerSequencer::new(ballot(3));
    assert_eq!(follower.install(offer, &mut fc), Err(Rejection::StaleOffer));
    let mut bad: AcceptSync<WireEntry> = leader.resync_offer(0, 1, vec![], 0, 0, &lc);
    bad.n = ballot(3);
    if let Some(s) = bad.unicache.as_mut() {
        s.capacity = 0;
    }
    assert_eq!(follower.install(bad, &mut fc), Err(Rejection::ResyncIncomplete));
    assert_eq!(follower.promised, ballot(3));
}

#[test]
fn ballot_order() {
    assert!(ballot(1).le(&ballot(2)));
    assert!(ballot(2).le(&ballot(2)));
    assert!(!ballot(3).le(&ballot(2)));
    let high_config = Ballot { config_id: 2, n: 0, priority: 0, pid: 0 };
    assert!(ballot(9).le(&high_config));
}

#[test]
fn message_sender_and_receiver() {
    let m: Message<WireEntry> = Message::SequencePaxos(PaxosMessage {
        from: 1,
        to: 2,
        msg: PaxosMsg::PrepareReq(PrepareReq { n: ballot(1) }),
    });
    assert_eq!(m.get_sender(), 1);
    assert_eq!(m.get_receiver(), 2);
    let h: Message<WireEntry> = Message::BLE(BLEMessage { from: 7, to: 3, msg: HeartbeatMsg::Request(HeartbeatRequest { round: 4 }) });
    assert_eq!(h.get_sender(), 7);
    assert_eq!(h.get_receiver(), 3);
}

#[test]
fn literal_of_resident_template_counts_one_access() {
    let mut follower = TemplateCache::new(2, Policy::Frequency);
    follower.put(b("t"), b("t"));
    let r = decode(WireEntry::Literal { id: 1, template: b("t"), residual: b("x") }, &mut follower);
    assert_eq!(r, Ok(LogEntry::Command(cmd(1, "t", "x"))));
    let s = follower.snapshot();
    assert_eq!(s.counters, vec![2]);
    assert_eq!(s.next_index, 1);
}

#[test]
fn snapshot_without_index_room_is_refused() {
    let mut lc = TemplateCache::new(2, Policy::Recency);
    lc.put(b("a"), b("a"));
    let mut leader = LeaderSequencer::new(ballot(2));
    let mut offer = leader.resync_offer(0, 1, vec![WireEntry::Literal { id: 1, template: b("b"), residual: b("") }], 0, 0, &lc);
    if let Some(s) = offer.unicache.as_mut() {
        s.next_index = u64::MAX - 1;
    }
    let mut fc = TemplateCache::new(2, Policy::Recency);
    let mut follower = FollowerSequencer::new(ballot(1));
    assert_eq!(follower.install(offer, &mut fc), Err(Rejection::ResyncIncomplete));
    assert_eq!(fc.len(), 0);
    assert_eq!(follower.promised, ballot(1));
}
