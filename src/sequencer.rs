use vstd::prelude::*;

use crate::cache::{
    index_pos, lemma_lookup_wf, lemma_put_wf, resolve_spec, snapshot_complete, snapshot_view, view_wf, CacheError,
};
use crate::codec::{
    decode, decode_all, decode_spec, encode, encode_all, lemma_encode_all_wf, EntryModel, LogEntry,
    TemplateCache, TemplateView, WireEntry, WireModel,
};
use crate::messages::{ballot_le, AcceptSync, Ballot, EncodedAcceptDecide, PrepareReq, SequenceNumber};

verus! {

/// The meanings of a sequence of log entries.
pub open spec fn entry_views(v: Seq<LogEntry>) -> Seq<EntryModel> {
    v.map_values(|e: LogEntry| e@)
}

/// The meanings of a sequence of wire entries.
pub open spec fn wire_views(v: Seq<WireEntry>) -> Seq<WireModel> {
    v.map_values(|w: WireEntry| w@)
}

/// A decoding step keeps the cache consistent and uses at most one new index.
proof fn lemma_decode_wf(c: TemplateView, w: WireModel)
    requires
        view_wf(c),
        c.next_index < u64::MAX,
    ensures
        view_wf(decode_spec(c, w).0),
        decode_spec(c, w).0.next_index <= c.next_index + 1,
{
    match w {
        WireModel::Hit { id, index, residual } => {
            lemma_lookup_wf(c, Seq::empty(), index);
            let t = c.slots[index_pos(c.slots, index)].key;
            lemma_put_wf(resolve_spec(c, index), t, t);
        },
        WireModel::Literal { id, template, residual } => {
            lemma_put_wf(c, template, template);
        },
        WireModel::StopSign(_) => {},
    }
}

/// Decoding a sequence keeps the cache consistent and uses at most one new
/// index per entry.
pub proof fn lemma_decode_all_wf(c: TemplateView, ws: Seq<WireModel>)
    requires
        view_wf(c),
        c.next_index + ws.len() < u64::MAX,
    ensures
        view_wf(decode_all(c, ws).0),
        decode_all(c, ws).0.next_index <= c.next_index + ws.len(),
    decreases ws.len(),
{
    if ws.len() > 0 {
        lemma_decode_all_wf(c, ws.drop_last());
        let (c1, r1) = decode_all(c, ws.drop_last());
        if r1 is Ok {
            lemma_decode_wf(c1, ws.last());
        }
    }
}

/// Once a prefix fails to decode, the whole sequence fails the same way.
proof fn lemma_decode_all_stops(c: TemplateView, ws: Seq<WireModel>, i: int)
    requires
        0 <= i <= ws.len(),
        decode_all(c, ws.take(i)).1 is Err,
    ensures
        decode_all(c, ws) == decode_all(c, ws.take(i)),
    decreases ws.len(),
{
    if i == ws.len() {
        assert(ws.take(i) =~= ws);
    } else {
        assert(ws.drop_last().take(i) =~= ws.take(i));
        lemma_decode_all_stops(c, ws.drop_last(), i);
    }
}

/// Encodes a batch of entries in order.
pub fn encode_batch(entries: Vec<LogEntry>, cache: &mut TemplateCache) -> (ws: Vec<WireEntry>)
    requires
        old(cache).wf(),
        old(cache)@.next_index + entries@.len() < u64::MAX,
    ensures
        final(cache).wf(),
        (final(cache)@, wire_views(ws@)) == encode_all(old(cache)@, entry_views(entries@)),
{
    let ghost c0 = cache@;
    let ghost es = entry_views(entries@);
    let ghost n = entries@.len();
    proof {
        cache.lemma_wf();
    }
    let total = entries.len();
    let mut rest = entries;
    let mut out: Vec<WireEntry> = Vec::new();
    let mut i: usize = 0;
    assert(es.take(0) =~= Seq::<EntryModel>::empty());
    assert(wire_views(out@) =~= Seq::<WireModel>::empty());
    while rest.len() > 0
        invariant
            cache.wf(),
            view_wf(c0),
            c0.next_index + n < u64::MAX,
            n == total,
            es.len() == n,
            0 <= i <= n,
            entry_views(rest@) == es.subrange(i as int, n as int),
            (cache@, wire_views(out@)) == encode_all(c0, es.take(i as int)),
        decreases rest@.len(),
    {
        proof {
            assert(entry_views(rest@).len() == rest@.len());
            assert(i < n);
            lemma_encode_all_wf(c0, es.take(i as int));
        }
        let ghost old_rest = rest@;
        assert(entry_views(old_rest)[0] == es[i as int]);
        let e = rest.remove(0);
        assert(e@ == es[i as int]);
        assert forall|j: int| 0 <= j < rest@.len() implies #[trigger] entry_views(rest@)[j] == es[i + 1 + j] by {
            assert(entry_views(old_rest)[j + 1] == es[i + 1 + j]);
        }
        let w = encode(e, cache);
        out.push(w);
        proof {
            assert(entry_views(rest@) =~= es.subrange(i + 1, n as int));
            assert(es.take(i + 1).drop_last() =~= es.take(i as int));
            assert(es.take(i + 1).last() == es[i as int]);
            assert(wire_views(out@) =~= wire_views(out@).drop_last().push(w@));
            assert(wire_views(out@).drop_last() =~= wire_views(out@.drop_last()));
        }
        i = i + 1;
    }
    proof {
        assert(entry_views(rest@).len() == 0);
        assert(es.take(i as int) =~= es);
    }
    out
}

/// Decodes a batch in order, up to the first entry that fails.
pub fn decode_batch(ws: Vec<WireEntry>, cache: &mut TemplateCache) -> (r: Result<Vec<LogEntry>, CacheError>)
    requires
        old(cache).wf(),
        old(cache)@.next_index + ws@.len() < u64::MAX,
    ensures
        final(cache).wf(),
        final(cache)@ == decode_all(old(cache)@, wire_views(ws@)).0,
        match r {
            Ok(es) => decode_all(old(cache)@, wire_views(ws@)).1 == Ok::<Seq<EntryModel>, CacheError>(entry_views(es@)),
            Err(e) => decode_all(old(cache)@, wire_views(ws@)).1 == Err::<Seq<EntryModel>, CacheError>(e),
        },
{
    let ghost c0 = cache@;
    let ghost wv = wire_views(ws@);
    let ghost n = ws@.len();
    proof {
        cache.lemma_wf();
    }
    let total = ws.len();
    let mut rest = ws;
    let mut out: Vec<LogEntry> = Vec::new();
    let mut i: usize = 0;
    assert(wv.take(0) =~= Seq::<WireModel>::empty());
    assert(entry_views(out@) =~= Seq::<EntryModel>::empty());
    while rest.len() > 0
        invariant
            cache.wf(),
            view_wf(c0),
            c0.next_index + n < u64::MAX,
            n == total,
            c0 == old(cache)@,
            wv == wire_views(ws@),
            wv.len() == n,
            0 <= i <= n,
            wire_views(rest@) == wv.subrange(i as int, n as int),
            decode_all(c0, wv.take(i as int)) == (cache@, Ok::<Seq<EntryModel>, CacheError>(entry_views(out@))),
        decreases rest@.len(),
    {
        proof {
            assert(wire_views(rest@).len() == rest@.len());
            assert(i < n);
            lemma_decode_all_wf(c0, wv.take(i as int));
            assert(wv.take(i + 1).drop_last() =~= wv.take(i as int));
            assert(wv.take(i + 1).last() == wv[i as int]);
        }
        let ghost old_rest = rest@;
        assert(wire_views(old_rest)[0] == wv[i as int]);
        let w = rest.remove(0);
        assert(w@ == wv[i as int]);
        assert forall|j: int| 0 <= j < rest@.len() implies #[trigger] wire_views(rest@)[j] == wv[i + 1 + j] by {
            assert(wire_views(old_rest)[j + 1] == wv[i + 1 + j]);
        }
        let ghost before = cache@;
        let ghost done = entry_views(out@);
        let res = decode(w, cache);
        assert(decode_all(c0, wv.take(i + 1)) == match decode_spec(before, wv[i as int]) {
            (c2, Ok(x)) => (c2, Ok::<Seq<EntryModel>, CacheError>(done.push(x))),
            (c2, Err(e)) => (c2, Err::<Seq<EntryModel>, CacheError>(e)),
        });
        match res {
            Ok(e) => {
                assert(decode_spec(before, wv[i as int]) == (cache@, Ok::<EntryModel, CacheError>(e@)));
                out.push(e);
                proof {
                    assert(wire_views(rest@) =~= wv.subrange(i + 1, n as int));
                    assert(entry_views(out@) =~= done.push(e@));
                }
            },
            Err(x) => {
                proof {
                    assert(decode_spec(before, wv[i as int]) == (cache@, Err::<EntryModel, CacheError>(x)));
                    assert(decode_all(c0, wv.take(i + 1)) == (cache@, Err::<Seq<EntryModel>, CacheError>(x)));
                    lemma_decode_all_stops(c0, wv, i + 1);
                    assert(decode_all(c0, wv) == (cache@, Err::<Seq<EntryModel>, CacheError>(x)));
                }
                return Err(x);
            },
        }
        i = i + 1;
    }
    proof {
        assert(wire_views(rest@).len() == 0);
        assert(wv.take(i as int) =~= wv);
    }
    Ok(out)
}

/// Why a follower refused a batch or a resynchronization offer. Every
/// refusal leaves the follower's cache and sequencer as they were.
#[derive(Clone, Copy, Debug, PartialEq, Eq, Structural)]
pub enum Rejection {
    /// The batch belongs to another ballot than the promised one.
    BallotMismatch,
    /// The batch is not the one after the last applied batch.
    SequenceGap,
    /// A batch in correct order referenced an index that no resident key
    /// owns: leader and follower caches diverged.
    Diverged,
    /// The offered snapshot lacks or contradicts policy metadata, or leaves
    /// too few indices for the suffix that comes with it.
    ResyncIncomplete,
    /// The offer comes from a ballot below the promised one.
    StaleOffer,
}

/// How the leader brings a lagging follower up to date.
#[derive(Clone, Copy, Debug, PartialEq, Eq, Structural)]
pub enum ResyncStrategy {
    /// Ship the template-bearing suffix; the follower decodes it.
    Replay,
    /// Ship the whole cache, because the needed history was compacted away.
    Snapshot,
}

/// Replay works while the follower's log reaches the compacted prefix.
pub fn choose_strategy(follower_accepted_idx: u64, compacted_idx: u64) -> (r: ResyncStrategy)
    ensures
        r == (if follower_accepted_idx < compacted_idx { ResyncStrategy::Snapshot } else { ResyncStrategy::Replay }),
{
    if follower_accepted_idx < compacted_idx {
        ResyncStrategy::Snapshot
    } else {
        ResyncStrategy::Replay
    }
}

/// The leader's numbering of the batches it sends to one follower.
pub struct LeaderSequencer {
    pub n: Ballot,
    pub last_seq: SequenceNumber,
}

impl LeaderSequencer {
    /// Numbering for a new term: the first message gets number 1.
    pub fn new(n: Ballot) -> (r: Self)
        ensures
            r.n == n,
            r.last_seq == 0,
    {
        LeaderSequencer { n, last_seq: 0 }
    }

    /// Encodes `entries` and numbers the batch with the next sequence number.
    /// A batch is encoded once; a retransmission sends the same batch again.
    pub fn next_batch(&mut self, entries: Vec<LogEntry>, decided_idx: u64, cache: &mut TemplateCache) -> (b: EncodedAcceptDecide)
        requires
            old(self).last_seq < u64::MAX,
            old(cache).wf(),
            old(cache)@.next_index + entries@.len() < u64::MAX,
        ensures
            final(cache).wf(),
            final(self).n == old(self).n,
            final(self).last_seq == old(self).last_seq + 1,
            b.n == old(self).n,
            b.seq_num == final(self).last_seq,
            b.decided_idx == decided_idx,
            (final(cache)@, wire_views(b.entries@)) == encode_all(old(cache)@, entry_views(entries@)),
    {
        let ws = encode_batch(entries, cache);
        self.last_seq = self.last_seq + 1;
        EncodedAcceptDecide { n: self.n, seq_num: self.last_seq, decided_idx, entries: ws }
    }

    /// A resynchronization offer, numbered with the next sequence number. It
    /// carries the leader's cache snapshot when the follower's log ends
    /// before the compacted prefix, and the template-bearing suffix.
    pub fn resync_offer(
        &mut self,
        follower_accepted_idx: u64,
        compacted_idx: u64,
        suffix: Vec<WireEntry>,
        sync_idx: u64,
        decided_idx: u64,
        cache: &TemplateCache,
    ) -> (o: AcceptSync<WireEntry>)
        requires
            old(self).last_seq < u64::MAX,
            cache.wf(),
        ensures
            final(self).n == old(self).n,
            final(self).last_seq == old(self).last_seq + 1,
            o.n == old(self).n,
            o.seq_num == final(self).last_seq,
            o.suffix == suffix,
            o.sync_idx == sync_idx,
            o.decided_idx == decided_idx,
            o.decided_snapshot is None,
            o.stopsign is None,
            match o.unicache {
                Some(s) => follower_accepted_idx < compacted_idx && snapshot_complete(s) && snapshot_view(s) == cache@,
                None => follower_accepted_idx >= compacted_idx,
            },
    {
        let unicache = match choose_strategy(follower_accepted_idx, compacted_idx) {
            ResyncStrategy::Snapshot => Some(cache.snapshot()),
            ResyncStrategy::Replay => None,
        };
        self.last_seq = self.last_seq + 1;
        AcceptSync {
            n: self.n,
            seq_num: self.last_seq,
            decided_snapshot: None,
            suffix,
            sync_idx,
            decided_idx,
            stopsign: None,
            unicache,
        }
    }
}

/// A follower's view of the leader-to-follower sequence.
#[derive(Clone, Copy, Debug, PartialEq, Eq, Structural)]
pub struct FollowerSequencer {
    pub promised: Ballot,
    pub last_applied: SequenceNumber,
}

/// The batch numbered `seq` of ballot `n` is the next one to apply.
pub open spec fn in_order(f: FollowerSequencer, n: Ballot, seq: SequenceNumber) -> bool {
    n == f.promised && seq == f.last_applied + 1
}

impl FollowerSequencer {
    /// A follower promised to `promised`, with nothing applied yet.
    pub fn new(promised: Ballot) -> (r: Self)
        ensures
            r.promised == promised,
            r.last_applied == 0,
    {
        FollowerSequencer { promised, last_applied: 0 }
    }

    /// Whether the batch numbered `seq` of ballot `n` is the next to apply.
    pub fn accepts(&self, n: Ballot, seq: SequenceNumber) -> (r: bool)
        ensures
            r == in_order(*self, n, seq),
    {
        n == self.promised && self.last_applied < u64::MAX && seq == self.last_applied + 1
    }

    /// The request for resynchronization that follows a refusal.
    pub fn resync_request(&self) -> (r: PrepareReq)
        ensures
            r.n == self.promised,
    {
        PrepareReq { n: self.promised }
    }

    /// Applies a batch: only the batch after the last applied one, of the
    /// promised ballot, and only as a whole. Its entries are decoded in order
    /// on a copy of the cache, which replaces the cache when all succeed.
    pub fn apply(&mut self, batch: EncodedAcceptDecide, cache: &mut TemplateCache) -> (r: Result<Vec<LogEntry>, Rejection>)
        requires
            old(cache).wf(),
            old(cache)@.next_index + batch.entries@.len() < u64::MAX,
        ensures
            final(cache).wf(),
            match r {
                Ok(es) => {
                    &&& in_order(*old(self), batch.n, batch.seq_num)
                    &&& decode_all(old(cache)@, wire_views(batch.entries@))
                        == (final(cache)@, Ok::<Seq<EntryModel>, CacheError>(entry_views(es@)))
                    &&& final(self).promised == old(self).promised
                    &&& final(self).last_applied == batch.seq_num
                },
                Err(x) => {
                    &&& final(cache)@ == old(cache)@
                    &&& *final(self) == *old(self)
                    &&& x == if batch.n != old(self).promised {
                        Rejection::BallotMismatch
                    } else if !in_order(*old(self), batch.n, batch.seq_num) {
                        Rejection::SequenceGap
                    } else {
                        Rejection::Diverged
                    }
                    &&& in_order(*old(self), batch.n, batch.seq_num) ==> decode_all(old(cache)@, wire_views(batch.entries@)).1 is Err
                },
            },
    {
        if batch.n != self.promised {
            return Err(Rejection::BallotMismatch);
        }
        if !self.accepts(batch.n, batch.seq_num) {
            return Err(Rejection::SequenceGap);
        }
        let seq = batch.seq_num;
        let mut work = cache.duplicate();
        match decode_batch(batch.entries, &mut work) {
            Ok(es) => {
                *cache = work;
                self.last_applied = seq;
                Ok(es)
            },
            Err(_) => Err(Rejection::Diverged),
        }
    }

    /// Installs a resynchronization offer of the promised ballot or a higher
    /// one. The base is the offered snapshot, if any, or else the current
    /// cache; a snapshot that is incomplete, or whose next index leaves no
    /// room for the suffix, is refused. The suffix is decoded on a copy of it, which replaces the cache
    /// when all succeed. The follower then counts from the offer's number.
    pub fn install(&mut self, offer: AcceptSync<WireEntry>, cache: &mut TemplateCache) -> (r: Result<Vec<LogEntry>, Rejection>)
        requires
            old(cache).wf(),
            old(cache)@.next_index + offer.suffix@.len() < u64::MAX,
        ensures
            final(cache).wf(),
            ({
                let base = match offer.unicache {
                    Some(s) => snapshot_view(s),
                    None => old(cache)@,
                };
                let usable = match offer.unicache {
                    Some(s) => snapshot_complete(s) && s.next_index + offer.suffix@.len() < u64::MAX,
                    None => true,
                };
                match r {
                    Ok(es) => {
                        &&& ballot_le(old(self).promised, offer.n)
                        &&& usable
                        &&& decode_all(base, wire_views(offer.suffix@))
                            == (final(cache)@, Ok::<Seq<EntryModel>, CacheError>(entry_views(es@)))
                        &&& final(self).promised == offer.n
                        &&& final(self).last_applied == offer.seq_num
                    },
                    Err(x) => {
                        &&& final(cache)@ == old(cache)@
                        &&& *final(self) == *old(self)
                        &&& x == if !ballot_le(old(self).promised, offer.n) {
                            Rejection::StaleOffer
                        } else if !usable {
                            Rejection::ResyncIncomplete
                        } else {
                            Rejection::Diverged
                        }
                        &&& ballot_le(old(self).promised, offer.n) && usable ==> decode_all(base, wire_views(offer.suffix@)).1 is Err
                    },
                }
            }),
    {
        if !self.promised.le(&offer.n) {
            return Err(Rejection::StaleOffer);
        }
        let AcceptSync { n, seq_num, suffix, unicache, .. } = offer;
        let mut work = match unicache {
            Some(s) => {
                if (suffix.len() as u64) >= u64::MAX - s.next_index {
                    return Err(Rejection::ResyncIncomplete);
                }
                match TemplateCache::from_snapshot(s) {
                    Ok(c) => c,
                    Err(_) => return Err(Rejection::ResyncIncomplete),
                }
            },
            None => cache.duplicate(),
        };
        match decode_batch(suffix, &mut work) {
            Ok(es) => {
                *cache = work;
                self.promised = n;
                self.last_applied = seq_num;
                Ok(es)
            },
            Err(_) => Err(Rejection::Diverged),
        }
    }
}

} // verus!
